//! Character-level text handling: the whitespace class, trimming, line and
//! field splitting, searching, and decimal and hexadecimal rendering.

use vstd::prelude::*;

verus! {

/// The Unicode `White_Space` property, the set that `char::is_whitespace` tests.
pub open spec fn spec_is_whitespace(c: char) -> bool {
    let u = c as u32;
    ||| 0x09 <= u <= 0x0D
    ||| u == 0x20
    ||| u == 0x85
    ||| u == 0xA0
    ||| u == 0x1680
    ||| 0x2000 <= u <= 0x200A
    ||| u == 0x2028
    ||| u == 0x2029
    ||| u == 0x202F
    ||| u == 0x205F
    ||| u == 0x3000
}

pub fn is_whitespace(c: char) -> (b: bool)
    ensures
        b == spec_is_whitespace(c),
{
    let u = c as u32;
    (0x09 <= u && u <= 0x0D) || u == 0x20 || u == 0x85 || u == 0xA0 || u == 0x1680 || (0x2000
        <= u && u <= 0x200A) || u == 0x2028 || u == 0x2029 || u == 0x202F || u == 0x205F || u
        == 0x3000
}

/// The characters of a string slice, in order.
pub fn chars_of(s: &str) -> (v: Vec<char>)
    ensures
        v@ == s@,
{
    let mut v: Vec<char> = Vec::new();
    for c in it: s.chars()
        invariant
            v@ == it.seq().take(it.index() as int),
            it.seq() == s@,
    {
        v.push(c);
    }
    v
}

/// Collects characters into a `String` (std's `String: FromIterator<&char>`).
#[verifier::external_body]
pub(crate) fn string_from_chars(v: &[char]) -> (s: String)
    ensures
        s@ == v@,
{
    v.iter().collect()
}

/// A class of characters that a scan stops at.
pub enum CharClass {
    Is(char),
    Not(char),
    Space,
    NotSpace,
    NotDigit,
    NotHexDigit,
}

/// An ASCII decimal digit.
pub open spec fn spec_is_digit(c: char) -> bool {
    '0' <= c <= '9'
}

/// An ASCII hexadecimal digit, either case.
pub open spec fn spec_is_hex_digit(c: char) -> bool {
    ('0' <= c <= '9') || ('A' <= c <= 'F') || ('a' <= c <= 'f')
}

pub fn is_digit(c: char) -> (b: bool)
    ensures
        b == spec_is_digit(c),
{
    '0' <= c && c <= '9'
}

pub fn is_hex_digit(c: char) -> (b: bool)
    ensures
        b == spec_is_hex_digit(c),
{
    ('0' <= c && c <= '9') || ('A' <= c && c <= 'F') || ('a' <= c && c <= 'f')
}

pub open spec fn in_class(cls: CharClass, c: char) -> bool {
    match cls {
        CharClass::Is(x) => c == x,
        CharClass::Not(x) => c != x,
        CharClass::Space => spec_is_whitespace(c),
        CharClass::NotSpace => !spec_is_whitespace(c),
        CharClass::NotDigit => !spec_is_digit(c),
        CharClass::NotHexDigit => !spec_is_hex_digit(c),
    }
}

pub fn class_test(cls: &CharClass, c: char) -> (b: bool)
    ensures
        b == in_class(*cls, c),
{
    match cls {
        CharClass::Is(x) => c == *x,
        CharClass::Not(x) => c != *x,
        CharClass::Space => is_whitespace(c),
        CharClass::NotSpace => !is_whitespace(c),
        CharClass::NotDigit => !is_digit(c),
        CharClass::NotHexDigit => !is_hex_digit(c),
    }
}

/// Index of the first character in the class, or the length when there is none.
pub open spec fn first_in(s: Seq<char>, cls: CharClass) -> int
    decreases s.len(),
{
    if s.len() == 0 {
        0
    } else if in_class(cls, s[0]) {
        0
    } else {
        1 + first_in(s.drop_first(), cls)
    }
}

/// End of `s` once its trailing run of characters in the class is cut off.
pub open spec fn end_before_run(s: Seq<char>, cls: CharClass) -> int
    decreases s.len(),
{
    if s.len() == 0 {
        0
    } else if in_class(cls, s.last()) {
        end_before_run(s.drop_last(), cls)
    } else {
        s.len() as int
    }
}

pub proof fn lemma_first_in(s: Seq<char>, cls: CharClass)
    ensures
        0 <= first_in(s, cls) <= s.len(),
        first_in(s, cls) < s.len() ==> in_class(cls, s[first_in(s, cls)]),
        forall|k: int| 0 <= k < first_in(s, cls) ==> !in_class(cls, #[trigger] s[k]),
    decreases s.len(),
{
    if s.len() > 0 && !in_class(cls, s[0]) {
        lemma_first_in(s.drop_first(), cls);
        assert forall|k: int| 0 <= k < first_in(s, cls) implies !in_class(cls, #[trigger] s[k]) by {
            if k > 0 {
                assert(s[k] == s.drop_first()[k - 1]);
            }
        }
    }
}

pub proof fn lemma_first_in_is(s: Seq<char>, cls: CharClass, i: int)
    requires
        0 <= i <= s.len(),
        i < s.len() ==> in_class(cls, s[i]),
        forall|k: int| 0 <= k < i ==> !in_class(cls, #[trigger] s[k]),
    ensures
        first_in(s, cls) == i,
    decreases s.len(),
{
    if s.len() > 0 && i > 0 {
        assert(!in_class(cls, s[0]));
        assert forall|k: int| 0 <= k < i - 1 implies !in_class(cls, #[trigger] s.drop_first()[k]) by {
            assert(s.drop_first()[k] == s[k + 1]);
        }
        lemma_first_in_is(s.drop_first(), cls, i - 1);
    }
}

pub proof fn lemma_end_before_run_is(s: Seq<char>, cls: CharClass, e: int)
    requires
        0 <= e <= s.len(),
        e > 0 ==> !in_class(cls, s[e - 1]),
        forall|k: int| e <= k < s.len() ==> in_class(cls, #[trigger] s[k]),
    ensures
        end_before_run(s, cls) == e,
    decreases s.len(),
{
    if s.len() > 0 && e < s.len() {
        assert(in_class(cls, s[s.len() - 1]));
        assert forall|k: int| e <= k < s.len() - 1 implies in_class(
            cls,
            #[trigger] s.drop_last()[k],
        ) by {
            assert(s.drop_last()[k] == s[k]);
        }
        lemma_end_before_run_is(s.drop_last(), cls, e);
    }
}

/// Position of the first character of `s[lo..hi]` in the class, or `hi`.
pub fn scan_to(s: &Vec<char>, lo: usize, hi: usize, cls: &CharClass) -> (r: usize)
    requires
        lo <= hi <= s@.len(),
    ensures
        r == lo + first_in(s@.subrange(lo as int, hi as int), *cls),
        lo <= r <= hi,
{
    let mut i = lo;
    while i < hi
        invariant
            lo <= i <= hi <= s@.len(),
            forall|k: int| lo <= k < i ==> !in_class(*cls, #[trigger] s@[k]),
        ensures
            lo <= i <= hi,
            forall|k: int| lo <= k < i ==> !in_class(*cls, #[trigger] s@[k]),
            i < hi ==> in_class(*cls, s@[i as int]),
        decreases hi - i,
    {
        if class_test(cls, s[i]) {
            break;
        }
        i += 1;
    }
    proof {
        let t = s@.subrange(lo as int, hi as int);
        assert forall|k: int| 0 <= k < i - lo implies !in_class(*cls, #[trigger] t[k]) by {
            assert(t[k] == s@[lo + k]);
        }
        lemma_first_in_is(t, *cls, i - lo);
    }
    i
}

/// End of `s[lo..hi]` once its trailing run of characters in the class is cut off.
pub fn scan_back(s: &Vec<char>, lo: usize, hi: usize, cls: &CharClass) -> (r: usize)
    requires
        lo <= hi <= s@.len(),
    ensures
        r == lo + end_before_run(s@.subrange(lo as int, hi as int), *cls),
        lo <= r <= hi,
{
    let mut e = hi;
    while e > lo
        invariant
            lo <= e <= hi <= s@.len(),
            forall|k: int| e <= k < hi ==> in_class(*cls, #[trigger] s@[k]),
        ensures
            lo <= e <= hi,
            forall|k: int| e <= k < hi ==> in_class(*cls, #[trigger] s@[k]),
            e > lo ==> !in_class(*cls, s@[e - 1]),
        decreases e - lo,
    {
        if !class_test(cls, s[e - 1]) {
            break;
        }
        e -= 1;
    }
    proof {
        let t = s@.subrange(lo as int, hi as int);
        assert forall|k: int| e - lo <= k < t.len() implies in_class(*cls, #[trigger] t[k]) by {
            assert(t[k] == s@[lo + k]);
        }
        if e > lo {
            assert(t[e - lo - 1] == s@[e - 1]);
        }
        lemma_end_before_run_is(t, *cls, e - lo);
    }
    e
}

/// Copy of `s[lo..hi]`.
pub fn slice_of(s: &Vec<char>, lo: usize, hi: usize) -> (r: Vec<char>)
    requires
        lo <= hi <= s@.len(),
    ensures
        r@ == s@.subrange(lo as int, hi as int),
{
    let mut r: Vec<char> = Vec::new();
    let mut i = lo;
    while i < hi
        invariant
            lo <= i <= hi <= s@.len(),
            r@ == s@.subrange(lo as int, i as int),
        decreases hi - i,
    {
        r.push(s[i]);
        i += 1;
        assert(r@ == s@.subrange(lo as int, i as int));
    }
    r
}

pub open spec fn spec_trim_start(s: Seq<char>) -> Seq<char> {
    s.subrange(first_in(s, CharClass::NotSpace), s.len() as int)
}

pub open spec fn spec_trim_end(s: Seq<char>) -> Seq<char> {
    s.subrange(0, end_before_run(s, CharClass::Space))
}

/// `s` without its leading and trailing whitespace (`str::trim`).
pub open spec fn spec_trim(s: Seq<char>) -> Seq<char> {
    spec_trim_end(spec_trim_start(s))
}

/// `s` without the leading and trailing runs of `c` (`str::trim_matches` on a char).
pub open spec fn spec_trim_char(s: Seq<char>, c: char) -> Seq<char> {
    let t = s.subrange(first_in(s, CharClass::Not(c)), s.len() as int);
    t.subrange(0, end_before_run(t, CharClass::Is(c)))
}

/// Bounds of the trimmed part of `s[lo..hi]`.
pub fn trim_bounds(s: &Vec<char>, lo: usize, hi: usize) -> (r: (usize, usize))
    requires
        lo <= hi <= s@.len(),
    ensures
        lo <= r.0 <= r.1 <= hi,
        s@.subrange(r.0 as int, r.1 as int) == spec_trim(s@.subrange(lo as int, hi as int)),
{
    let a = scan_to(s, lo, hi, &CharClass::NotSpace);
    let b = scan_back(s, a, hi, &CharClass::Space);
    proof {
        let t = s@.subrange(lo as int, hi as int);
        lemma_first_in(t, CharClass::NotSpace);
        assert(spec_trim_start(t) == s@.subrange(a as int, hi as int));
    }
    (a, b)
}

/// `str::trim` on a character vector.
pub fn trim(s: &Vec<char>) -> (r: Vec<char>)
    ensures
        r@ == spec_trim(s@),
{
    let (a, b) = trim_bounds(s, 0, s.len());
    assert(s@.subrange(0, s@.len() as int) == s@);
    slice_of(s, a, b)
}

/// `str::trim_matches(c)` on a character vector.
pub fn trim_char(s: &Vec<char>, c: char) -> (r: Vec<char>)
    ensures
        r@ == spec_trim_char(s@, c),
{
    let a = scan_to(s, 0, s.len(), &CharClass::Not(c));
    let b = scan_back(s, a, s.len(), &CharClass::Is(c));
    assert(s@.subrange(0, s@.len() as int) == s@);
    slice_of(s, a, b)
}


/// Drops one carriage return that ends a line.
pub open spec fn strip_cr(t: Seq<char>) -> Seq<char> {
    if t.len() > 0 && t.last() == '\r' {
        t.drop_last()
    } else {
        t
    }
}

/// The lines of `s` as `str::lines` gives them: split at `\n`, a `\r` just before
/// a `\n` dropped, and no empty line after a final `\n`.
pub open spec fn spec_lines(s: Seq<char>) -> Seq<Seq<char>>
    decreases s.len(),
{
    if s.len() == 0 {
        seq![]
    } else {
        let i = first_in(s, CharClass::Is('\n'));
        if i >= s.len() {
            seq![s]
        } else {
            proof {
                lemma_first_in(s, CharClass::Is('\n'));
            }
            seq![strip_cr(s.subrange(0, i))] + spec_lines(s.subrange(i + 1, s.len() as int))
        }
    }
}

/// The whitespace-separated words of `s` (`str::split_whitespace`).
pub open spec fn spec_words(s: Seq<char>) -> Seq<Seq<char>>
    decreases s.len(),
{
    let a = first_in(s, CharClass::NotSpace);
    if a >= s.len() {
        seq![]
    } else {
        let rest = s.subrange(a, s.len() as int);
        let w = first_in(rest, CharClass::Space);
        proof {
            lemma_first_in(s, CharClass::NotSpace);
            lemma_first_in(rest, CharClass::Space);
        }
        seq![rest.subrange(0, w)] + spec_words(rest.subrange(w, rest.len() as int))
    }
}

/// The pieces of `s` between occurrences of `c` (`str::split` on a char).
pub open spec fn spec_split(s: Seq<char>, c: char) -> Seq<Seq<char>>
    decreases s.len(),
{
    let i = first_in(s, CharClass::Is(c));
    if i >= s.len() {
        seq![s]
    } else {
        proof {
            lemma_first_in(s, CharClass::Is(c));
        }
        seq![s.subrange(0, i)] + spec_split(s.subrange(i + 1, s.len() as int), c)
    }
}

/// `str::lines` on a character vector.
pub fn lines(s: &Vec<char>) -> (r: Vec<Vec<char>>)
    ensures
        r.deep_view() == spec_lines(s@),
{
    let n = s.len();
    let mut r: Vec<Vec<char>> = Vec::new();
    let mut pos: usize = 0;
    assert(s@.subrange(0, n as int) == s@);
    while pos < n
        invariant
            pos <= n == s@.len(),
            r.deep_view() + spec_lines(s@.subrange(pos as int, n as int)) == spec_lines(s@),
        decreases n - pos,
    {
        let ghost t = s@.subrange(pos as int, n as int);
        let i = scan_to(s, pos, n, &CharClass::Is('\n'));
        let ghost r0 = r.deep_view();
        if i == n {
            let line = slice_of(s, pos, n);
            assert(line.deep_view() =~= line@);
            r.push(line);
            proof {
                assert(spec_lines(t) == seq![t]);
                assert(r.deep_view() == r0 + seq![t]);
                assert(s@.subrange(n as int, n as int) =~= Seq::<char>::empty());
                assert(r.deep_view() + spec_lines(s@.subrange(n as int, n as int)) =~= r0
                    + spec_lines(t));
            }
            pos = n;
        } else {
            let mut line = slice_of(s, pos, i);
            if line.len() > 0 && line[line.len() - 1] == '\r' {
                line.pop();
            }
            proof {
                let k = i - pos;
                assert(t.subrange(0, k) =~= s@.subrange(pos as int, i as int));
                assert(t.subrange(k + 1, t.len() as int) =~= s@.subrange(i + 1, n as int));
                assert(line@ == strip_cr(t.subrange(0, k)));
                assert(spec_lines(t) == seq![strip_cr(t.subrange(0, k))] + spec_lines(
                    s@.subrange(i + 1, n as int),
                ));
            }
            assert(line.deep_view() =~= line@);
            let ghost lv = line@;
            r.push(line);
            proof {
                assert(r.deep_view() =~= r0 + seq![lv]);
                assert(r.deep_view() + spec_lines(s@.subrange(i + 1, n as int)) =~= r0
                    + spec_lines(t));
            }
            pos = i + 1;
        }
    }
    proof {
        assert(spec_lines(s@.subrange(n as int, n as int)) == Seq::<Seq<char>>::empty());
        assert(r.deep_view() + Seq::<Seq<char>>::empty() =~= r.deep_view());
    }
    r
}

/// `str::split_whitespace` on a character vector.
pub fn words(s: &Vec<char>) -> (r: Vec<Vec<char>>)
    ensures
        r.deep_view() == spec_words(s@),
{
    let n = s.len();
    let mut r: Vec<Vec<char>> = Vec::new();
    let mut pos: usize = 0;
    assert(s@.subrange(0, n as int) == s@);
    while pos < n
        invariant
            pos <= n == s@.len(),
            r.deep_view() + spec_words(s@.subrange(pos as int, n as int)) == spec_words(s@),
        decreases n - pos,
    {
        let ghost t = s@.subrange(pos as int, n as int);
        let ghost r0 = r.deep_view();
        let a = scan_to(s, pos, n, &CharClass::NotSpace);
        if a == n {
            proof {
                assert(spec_words(t) == Seq::<Seq<char>>::empty());
                assert(spec_words(s@.subrange(n as int, n as int)) == Seq::<Seq<char>>::empty());
            }
            pos = n;
        } else {
            let w = scan_to(s, a, n, &CharClass::Space);
            proof {
                lemma_first_in(t, CharClass::NotSpace);
                let rest = t.subrange(a - pos, t.len() as int);
                assert(rest =~= s@.subrange(a as int, n as int));
                lemma_first_in(rest, CharClass::Space);
                assert(rest.subrange(0, w - a) =~= s@.subrange(a as int, w as int));
                assert(rest.subrange(w - a, rest.len() as int) =~= s@.subrange(w as int, n as int));
                assert(spec_words(t) == seq![s@.subrange(a as int, w as int)] + spec_words(
                    s@.subrange(w as int, n as int),
                ));
            }
            let word = slice_of(s, a, w);
            assert(word.deep_view() =~= word@);
            r.push(word);
            proof {
                assert(r.deep_view() =~= r0 + seq![s@.subrange(a as int, w as int)]);
                assert(r.deep_view() + spec_words(s@.subrange(w as int, n as int)) =~= r0
                    + spec_words(t));
            }
            pos = w;
        }
    }
    proof {
        assert(spec_words(s@.subrange(n as int, n as int)) == Seq::<Seq<char>>::empty());
        assert(r.deep_view() + Seq::<Seq<char>>::empty() =~= r.deep_view());
    }
    r
}

/// `str::split(c)` on a character vector.
pub fn split(s: &Vec<char>, c: char) -> (r: Vec<Vec<char>>)
    ensures
        r.deep_view() == spec_split(s@, c),
{
    let n = s.len();
    let mut r: Vec<Vec<char>> = Vec::new();
    let mut pos: usize = 0;
    assert(s@.subrange(0, n as int) == s@);
    loop
        invariant
            pos <= n == s@.len(),
            r.deep_view() + spec_split(s@.subrange(pos as int, n as int), c) == spec_split(s@, c),
        decreases n - pos,
    {
        let ghost t = s@.subrange(pos as int, n as int);
        let ghost r0 = r.deep_view();
        let i = scan_to(s, pos, n, &CharClass::Is(c));
        let piece = slice_of(s, pos, i);
        assert(piece.deep_view() =~= piece@);
        let ghost pv = piece@;
        if i == n {
            r.push(piece);
            proof {
                assert(spec_split(t, c) == seq![t]);
                assert(r.deep_view() =~= r0 + seq![t]);
            }
            return r;
        }
        proof {
            let k = i - pos;
            assert(t.subrange(0, k) =~= s@.subrange(pos as int, i as int));
            assert(t.subrange(k + 1, t.len() as int) =~= s@.subrange(i + 1, n as int));
        }
        r.push(piece);
        proof {
            assert(r.deep_view() =~= r0 + seq![pv]);
            assert(r.deep_view() + spec_split(s@.subrange(i + 1, n as int), c) =~= r0 + spec_split(
                t,
                c,
            ));
        }
        pos = i + 1;
    }
}


pub open spec fn spec_starts_with(s: Seq<char>, p: Seq<char>) -> bool {
    p.len() <= s.len() && s.subrange(0, p.len() as int) == p
}

/// `p` occurs in `s` at index `i`.
pub open spec fn occurs_at(s: Seq<char>, p: Seq<char>, i: int) -> bool {
    0 <= i && i + p.len() <= s.len() && s.subrange(i, i + p.len()) == p
}

pub open spec fn spec_contains(s: Seq<char>, p: Seq<char>) -> bool {
    exists|i: int| occurs_at(s, p, i)
}

/// The first index at or after `from` where `p` occurs in `s`.
pub open spec fn first_occurrence(s: Seq<char>, p: Seq<char>, from: int) -> Option<int>
    decreases s.len() + 1 - from,
{
    if from < 0 || from + p.len() > s.len() {
        None
    } else if occurs_at(s, p, from) {
        Some(from)
    } else {
        first_occurrence(s, p, from + 1)
    }
}

pub proof fn lemma_first_occurrence(s: Seq<char>, p: Seq<char>, from: int)
    requires
        0 <= from,
    ensures
        first_occurrence(s, p, from) matches Some(i) ==> from <= i && occurs_at(s, p, i) && forall|
            j: int,
        | from <= j < i ==> !occurs_at(s, p, j),
        first_occurrence(s, p, from) is None ==> forall|j: int| from <= j ==> !occurs_at(s, p, j),
    decreases s.len() + 1 - from,
{
    if from + p.len() <= s.len() && !occurs_at(s, p, from) {
        lemma_first_occurrence(s, p, from + 1);
    }
}

pub proof fn lemma_contains_first(s: Seq<char>, p: Seq<char>)
    ensures
        spec_contains(s, p) <==> first_occurrence(s, p, 0) is Some,
{
    lemma_first_occurrence(s, p, 0);
}

/// Whether `p` occurs in `s` at `i`.
pub fn matches_at(s: &Vec<char>, p: &Vec<char>, i: usize) -> (b: bool)
    ensures
        b == occurs_at(s@, p@, i as int),
{
    if i > s.len() || p.len() > s.len() - i {
        return false;
    }
    let n = s.len();
    let mut k: usize = 0;
    while k < p.len()
        invariant
            n == s@.len(),
            i + p@.len() <= s@.len(),
            i <= s@.len(),
            k <= p@.len(),
            p@.len() <= s@.len(),
            forall|j: int| 0 <= j < k ==> s@[i + j] == p@[j],
        decreases p@.len() - k,
    {
        if s[i + k] != p[k] {
            assert(s@.subrange(i as int, i + p@.len())[k as int] != p@[k as int]);
            return false;
        }
        k += 1;
    }
    assert(s@.subrange(i as int, i + p@.len()) =~= p@);
    true
}

/// `str::starts_with`.
pub fn starts_with(s: &Vec<char>, p: &Vec<char>) -> (b: bool)
    ensures
        b == spec_starts_with(s@, p@),
{
    matches_at(s, p, 0)
}

/// The first occurrence of `p` in `s` at or after `from`.
pub fn find_from(s: &Vec<char>, p: &Vec<char>, from: usize) -> (r: Option<usize>)
    ensures
        match r {
            Some(i) => first_occurrence(s@, p@, from as int) == Some(i as int),
            None => first_occurrence(s@, p@, from as int) is None,
        },
{
    if from > s.len() {
        return None;
    }
    let mut i = from;
    loop
        invariant
            from <= i <= s@.len(),
            first_occurrence(s@, p@, from as int) == first_occurrence(s@, p@, i as int),
        decreases s@.len() - i,
    {
        if p.len() > s.len() - i {
            return None;
        }
        if matches_at(s, p, i) {
            return Some(i);
        }
        proof {
            if i == s@.len() {
                assert(s@.subrange(i as int, i as int) =~= p@);
            }
        }
        i += 1;
    }
}

/// `str::contains`.
pub fn contains(s: &Vec<char>, p: &Vec<char>) -> (b: bool)
    ensures
        b == spec_contains(s@, p@),
{
    proof {
        lemma_contains_first(s@, p@);
    }
    find_from(s, p, 0).is_some()
}

pub open spec fn spec_digit(d: nat) -> char {
    (d + 48) as char
}

/// Decimal rendering of a natural number, as `{}` formats it.
pub open spec fn spec_decimal(n: nat) -> Seq<char>
    decreases n,
{
    if n < 10 {
        seq![spec_digit(n)]
    } else {
        spec_decimal(n / 10) + seq![spec_digit(n % 10)]
    }
}

pub fn digit_char(d: u8) -> (c: char)
    requires
        d < 10,
    ensures
        c == spec_digit(d as nat),
{
    (d + 48) as char
}

/// Appends the decimal rendering of `n` to `out`.
pub fn push_decimal(out: &mut Vec<char>, n: u64)
    ensures
        final(out)@ == old(out)@ + spec_decimal(n as nat),
    decreases n,
{
    if n < 10 {
        out.push(digit_char(n as u8));
    } else {
        push_decimal(out, n / 10);
        out.push(digit_char((n % 10) as u8));
        proof {
            assert(final(out)@ =~= old(out)@ + spec_decimal(n as nat));
        }
    }
}

/// Upper-case hexadecimal digit of a value below 16.
pub open spec fn spec_hex_digit(v: nat) -> char {
    if v < 10 {
        (v + 48) as char
    } else {
        (v + 55) as char
    }
}

/// Two upper-case hexadecimal digits of a byte, as `{:02X}` formats it.
pub open spec fn spec_hex_byte(b: u8) -> Seq<char> {
    seq![spec_hex_digit((b / 16) as nat), spec_hex_digit((b % 16) as nat)]
}

/// Upper-case hexadecimal rendering of a byte sequence, two digits per byte.
pub open spec fn spec_hex(bytes: Seq<u8>) -> Seq<char> {
    Seq::new(
        2 * bytes.len(),
        |i: int|
            if i % 2 == 0 {
                spec_hex_digit((bytes[i / 2] / 16) as nat)
            } else {
                spec_hex_digit((bytes[i / 2] % 16) as nat)
            },
    )
}

pub fn hex_digit(v: u8) -> (c: char)
    requires
        v < 16,
    ensures
        c == spec_hex_digit(v as nat),
{
    if v < 10 {
        (v + 48) as char
    } else {
        (v + 55) as char
    }
}

/// Appends the upper-case hexadecimal rendering of `bytes` to `out`.
pub fn push_hex(out: &mut Vec<char>, bytes: &[u8])
    ensures
        final(out)@ == old(out)@ + spec_hex(bytes@),
{
    let mut i: usize = 0;
    while i < bytes.len()
        invariant
            i <= bytes@.len(),
            out@ == old(out)@ + spec_hex(bytes@.subrange(0, i as int)),
        decreases bytes@.len() - i,
    {
        let b = bytes[i];
        let ghost prev = out@;
        out.push(hex_digit(b / 16));
        out.push(hex_digit(b % 16));
        i += 1;
        proof {
            assert(spec_hex(bytes@.subrange(0, i as int)) =~= spec_hex(
                bytes@.subrange(0, i - 1),
            ) + spec_hex_byte(b));
            assert(out@ =~= old(out)@ + spec_hex(bytes@.subrange(0, i as int)));
        }
    }
    assert(bytes@.subrange(0, bytes@.len() as int) == bytes@);
}


/// Whether two character sequences are equal.
pub fn same(a: &Vec<char>, b: &Vec<char>) -> (r: bool)
    ensures
        r == (a@ == b@),
{
    if a.len() != b.len() {
        return false;
    }
    let r = starts_with(a, b);
    assert(a@.subrange(0, b@.len() as int) =~= a@);
    r
}

/// The lower-case form of a text under Unicode's case mapping, as
/// `str::to_lowercase` computes it.
pub uninterp spec fn spec_lowercase(s: Seq<char>) -> Seq<char>;

/// Lower-cases text by calling std's `str::to_lowercase`. The contract only
/// names the result: Unicode's case mapping is not restated here.
#[verifier::external_body]
pub(crate) fn lowercase(s: &Vec<char>) -> (r: Vec<char>)
    ensures
        r@ == spec_lowercase(s@),
{
    let text: String = s.iter().collect();
    text.to_lowercase().chars().collect()
}

} // verus!
