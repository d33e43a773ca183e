//! Pieces of the OpenPnP configuration import that work on text.

use vstd::prelude::*;

use crate::text::chars_of;
use crate::text::find_from;
use crate::text::first_in;
use crate::text::first_occurrence;
use crate::text::lemma_first_occurrence;
use crate::text::push_decimal;
use crate::text::scan_to;
use crate::text::slice_of;
use crate::text::spec_decimal;
use crate::text::string_from_chars;
use crate::text::CharClass;

verus! {

pub open spec fn self_close_tag() -> Seq<char> {
    seq!['/', '>']
}

/// Where the element that starts at `start` ends: just after its `/>` when the
/// first `>` is the one of `/>`, else just after the matching close tag; `None`
/// when there is no close tag.
pub open spec fn element_end(x: Seq<char>, close: Seq<char>, start: int) -> Option<int> {
    let after = x.subrange(start, x.len() as int);
    let gt = first_in(after, CharClass::Is('>'));
    match first_occurrence(after, self_close_tag(), 0) {
        Some(sc) if gt < after.len() && (sc < gt || sc == gt - 1) => Some(start + sc + 2),
        _ => match first_occurrence(after, close, 0) {
            Some(cp) => Some(start + cp + close.len()),
            None => None,
        },
    }
}

/// The elements found from `from` on: each starts at the next `open`; an
/// element without an end is skipped by resuming one character later.
pub open spec fn xml_elements(x: Seq<char>, open: Seq<char>, close: Seq<char>, from: int) -> Seq<
    Seq<char>,
>
    decreases x.len() - from,
{
    if from < 0 || from >= x.len() || open.len() == 0 || close.len() == 0 {
        seq![]
    } else {
        match first_occurrence(x, open, from) {
            None => seq![],
            Some(start) => {
                proof {
                    lemma_first_occurrence(x, open, from);
                }
                match element_end(x, close, start) {
                    Some(end) => if start < end <= x.len() {
                        seq![x.subrange(start, end)] + xml_elements(x, open, close, end)
                    } else {
                        seq![]
                    },
                    None => xml_elements(x, open, close, start + 1),
                }
            },
        }
    }
}

pub open spec fn open_tag(tag: Seq<char>) -> Seq<char> {
    seq!['<'] + tag + seq![' ']
}

pub open spec fn close_tag(tag: Seq<char>) -> Seq<char> {
    seq!['<', '/'] + tag + seq!['>']
}

proof fn lemma_element_end(x: Seq<char>, close: Seq<char>, start: int)
    requires
        0 <= start < x.len(),
        x[start] == '<',
        close.len() > 0,
    ensures
        element_end(x, close, start) matches Some(end) ==> start < end <= x.len(),
{
    let after = x.subrange(start, x.len() as int);
    crate::text::lemma_first_in(after, CharClass::Is('>'));
    lemma_first_occurrence(after, self_close_tag(), 0);
    lemma_first_occurrence(after, close, 0);
}

/// Extract XML elements by tag name from a larger document.
/// Handles both `<tag ...>...</tag>` and self-closing `<tag .../>`.
pub fn split_xml_elements(xml: &str, tag: &str) -> (r: Vec<String>)
    ensures
        r@.map_values(|s: String| s@) == xml_elements(xml@, open_tag(tag@), close_tag(tag@), 0),
{
    let x = chars_of(xml);
    let t = chars_of(tag);
    let mut open: Vec<char> = Vec::new();
    open.push('<');
    let mut close: Vec<char> = Vec::new();
    close.push('<');
    close.push('/');
    let mut i: usize = 0;
    while i < t.len()
        invariant
            i <= t@.len(),
            open@ == seq!['<'] + t@.subrange(0, i as int),
            close@ == seq!['<', '/'] + t@.subrange(0, i as int),
        decreases t@.len() - i,
    {
        open.push(t[i]);
        close.push(t[i]);
        i += 1;
        assert(open@ =~= seq!['<'] + t@.subrange(0, i as int));
        assert(close@ =~= seq!['<', '/'] + t@.subrange(0, i as int));
    }
    open.push(' ');
    close.push('>');
    assert(t@.subrange(0, t@.len() as int) =~= t@);
    assert(open@ =~= open_tag(tag@));
    assert(close@ =~= close_tag(tag@));
    let sc_tag = vec!['/', '>'];
    assert(sc_tag@ =~= self_close_tag());
    let ghost target = xml_elements(x@, open@, close@, 0);
    let mut results: Vec<String> = Vec::new();
    let mut from: usize = 0;
    assert(results@.map_values(|s: String| s@) =~= Seq::<Seq<char>>::empty());
    while from < x.len()
        invariant
            x@ == xml@,
            open@ == open_tag(tag@),
            close@ == close_tag(tag@),
            sc_tag@ == self_close_tag(),
            from <= x@.len(),
            target == results@.map_values(|s: String| s@) + xml_elements(
                x@,
                open@,
                close@,
                from as int,
            ),
        ensures
            target == results@.map_values(|s: String| s@),
        decreases x@.len() - from,
    {
        let ghost r0 = results@.map_values(|s: String| s@);
        proof {
            lemma_first_occurrence(x@, open@, from as int);
        }
        let start = match find_from(&x, &open, from) {
            Some(s) => s,
            None => {
                assert(xml_elements(x@, open@, close@, from as int) =~= Seq::<Seq<char>>::empty());
                assert(results@.map_values(|s: String| s@) + Seq::<Seq<char>>::empty()
                    =~= results@.map_values(|s: String| s@));
                break;
            },
        };
        let n = x.len();
        let after = slice_of(&x, start, n);
        assert(x@[start as int] == open@[0]);
        proof {
            lemma_element_end(x@, close@, start as int);
            lemma_first_occurrence(after@, sc_tag@, 0);
            lemma_first_occurrence(after@, close@, 0);
        }
        let gt = scan_to(&after, 0, after.len(), &CharClass::Is('>'));
        assert(after@.subrange(0, after@.len() as int) =~= after@);
        let self_end = match find_from(&after, &sc_tag, 0) {
            Some(sc) => {
                if gt < after.len() && (sc < gt || (gt >= 1 && sc == gt - 1)) {
                    Some(start + sc + 2)
                } else {
                    None
                }
            },
            None => None,
        };
        let end = match self_end {
            Some(e) => Some(e),
            None => match find_from(&after, &close, 0) {
                Some(cp) => Some(start + cp + close.len()),
                None => None,
            },
        };
        match end {
            Some(e) => {
                let piece = slice_of(&x, start, e);
                let ps = string_from_chars(piece.as_slice());
                let ghost pv = ps@;
                results.push(ps);
                assert(results@.map_values(|s: String| s@) =~= r0.push(pv));
                assert(r0.push(pv) + xml_elements(x@, open@, close@, e as int) =~= r0 + (seq![pv]
                    + xml_elements(x@, open@, close@, e as int)));
                from = e;
            },
            None => {
                from = start + 1;
            },
        }
    }
    results
}

/// Name of the feeder of an OpenPnP feeder slot.
pub fn slot_feeder_name(address: u8) -> (name: String)
    ensures
        name@ == "slot_"@ + spec_decimal(address as nat),
{
    let mut v = chars_of("slot_");
    push_decimal(&mut v, address as u64);
    string_from_chars(v.as_slice())
}

} // verus!
