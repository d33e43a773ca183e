//! The choice of the serial port that the controller is on.

use vstd::prelude::*;

use crate::gcode::GCodeError;
use crate::text::chars_of;
use crate::text::spec_starts_with;
use crate::text::starts_with;

verus! {

/// `a` comes before `b`, or is `b`, in the order of character codes.
pub open spec fn lex_le(a: Seq<char>, b: Seq<char>) -> bool
    decreases a.len(),
{
    if a.len() == 0 {
        true
    } else if b.len() == 0 {
        false
    } else if a[0] != b[0] {
        a[0] < b[0]
    } else {
        lex_le(a.drop_first(), b.drop_first())
    }
}

pub proof fn lemma_lex_total(a: Seq<char>, b: Seq<char>)
    ensures
        lex_le(a, b) || lex_le(b, a),
    decreases a.len(),
{
    if a.len() > 0 && b.len() > 0 && a[0] == b[0] {
        lemma_lex_total(a.drop_first(), b.drop_first());
    }
}

pub proof fn lemma_lex_trans(a: Seq<char>, b: Seq<char>, c: Seq<char>)
    requires
        lex_le(a, b),
        lex_le(b, c),
    ensures
        lex_le(a, c),
    decreases a.len(),
{
    if a.len() > 0 && b.len() > 0 && c.len() > 0 && a[0] == b[0] && b[0] == c[0] {
        lemma_lex_trans(a.drop_first(), b.drop_first(), c.drop_first());
    }
}

fn lex_le_exec(a: &Vec<char>, b: &Vec<char>) -> (r: bool)
    ensures
        r == lex_le(a@, b@),
{
    let mut i: usize = 0;
    assert(a@.subrange(0, a@.len() as int) =~= a@);
    assert(b@.subrange(0, b@.len() as int) =~= b@);
    while i < a.len() && i < b.len() && a[i] == b[i]
        invariant
            i <= a@.len(),
            i <= b@.len(),
            lex_le(a@, b@) == lex_le(a@.subrange(i as int, a@.len() as int), b@.subrange(i as int, b@.len() as int)),
        decreases a@.len() - i,
    {
        let ghost sa = a@.subrange(i as int, a@.len() as int);
        let ghost sb = b@.subrange(i as int, b@.len() as int);
        assert(sa.drop_first() =~= a@.subrange(i + 1, a@.len() as int));
        assert(sb.drop_first() =~= b@.subrange(i + 1, b@.len() as int));
        i += 1;
    }
    if i == a.len() {
        true
    } else if i == b.len() {
        false
    } else {
        a[i] < b[i]
    }
}

pub open spec fn acm_prefix() -> Seq<char> {
    "/dev/ttyACM"@
}

pub open spec fn usb_prefix() -> Seq<char> {
    "/dev/ttyUSB"@
}

/// `entries[i]` is the first, in the order of character codes, of the entries
/// that start with `prefix`.
pub open spec fn first_with(entries: Seq<Seq<char>>, prefix: Seq<char>, i: int) -> bool {
    &&& 0 <= i < entries.len()
    &&& spec_starts_with(entries[i], prefix)
    &&& forall|j: int|
        0 <= j < entries.len() && spec_starts_with(#[trigger] entries[j], prefix) ==> lex_le(
            entries[i],
            entries[j],
        )
}

pub open spec fn any_with(entries: Seq<Seq<char>>, prefix: Seq<char>) -> bool {
    exists|j: int| 0 <= j < entries.len() && spec_starts_with(#[trigger] entries[j], prefix)
}

pub open spec fn no_port_message() -> Seq<char> {
    "No serial port found (tried /dev/ttyACM*, /dev/ttyUSB*)"@
}

/// The first entry with the prefix, if any.
fn first_entry_with(entries: &Vec<String>, prefix: &Vec<char>) -> (r: Option<usize>)
    ensures
        match r {
            Some(i) => first_with(entries@.map_values(|s: String| s@), prefix@, i as int),
            None => !any_with(entries@.map_values(|s: String| s@), prefix@),
        },
{
    let ghost ev = entries@.map_values(|s: String| s@);
    let mut best: Option<usize> = None;
    let mut k: usize = 0;
    while k < entries.len()
        invariant
            k <= entries@.len(),
            ev == entries@.map_values(|s: String| s@),
            match best {
                Some(i) => i < k && spec_starts_with(ev[i as int], prefix@) && forall|j: int|
                    0 <= j < k && spec_starts_with(#[trigger] ev[j], prefix@) ==> lex_le(
                        ev[i as int],
                        ev[j],
                    ),
                None => forall|j: int| 0 <= j < k ==> !spec_starts_with(#[trigger] ev[j], prefix@),
            },
        decreases entries@.len() - k,
    {
        let e = chars_of(entries[k].as_str());
        assert(e@ == ev[k as int]);
        if starts_with(&e, prefix) {
            match best {
                None => {
                    best = Some(k);
                    proof {
                        lemma_lex_refl(ev[k as int]);
                    }
                },
                Some(i) => {
                    let b = chars_of(entries[i].as_str());
                    assert(b@ == ev[i as int]);
                    if !lex_le_exec(&b, &e) {
                        proof {
                            lemma_lex_total(b@, e@);
                            lemma_lex_refl(e@);
                            assert forall|j: int|
                                0 <= j < k + 1 && spec_starts_with(#[trigger] ev[j], prefix@) implies lex_le(
                                e@,
                                ev[j],
                            ) by {
                                if j < k {
                                    lemma_lex_trans(e@, b@, ev[j]);
                                }
                            }
                        }
                        best = Some(k);
                    }
                },
            }
        }
        k += 1;
    }
    proof {
        if best is None {
            assert(!any_with(ev, prefix@));
        }
    }
    best
}

pub proof fn lemma_lex_refl(a: Seq<char>)
    ensures
        lex_le(a, a),
    decreases a.len(),
{
    if a.len() > 0 {
        lemma_lex_refl(a.drop_first());
    }
}

/// The port to open: the configured one, or with `auto` the first of the
/// `/dev/ttyACM*` entries of `dev_entries` (full paths), or else the first of
/// the `/dev/ttyUSB*` entries.
pub fn select_port(configured: &str, dev_entries: &Vec<String>) -> (r: Result<String, GCodeError>)
    ensures
        configured@ != "auto"@ ==> (r matches Ok(p) && p@ == configured@),
        configured@ == "auto"@ ==> ({
            let ev = dev_entries@.map_values(|s: String| s@);
            match r {
                Ok(p) => exists|i: int|
                    #![trigger ev[i]]
                    p@ == ev[i] && (first_with(ev, acm_prefix(), i) || (!any_with(ev, acm_prefix())
                        && first_with(ev, usb_prefix(), i))),
                Err(e) => !any_with(ev, acm_prefix()) && !any_with(ev, usb_prefix()) && (e matches GCodeError::Command(m) && m@ == no_port_message()),
            }
        }),
{
    let c = chars_of(configured);
    let auto = chars_of("auto");
    if !crate::text::same(&c, &auto) {
        return Ok(configured.to_string());
    }
    let acm = chars_of("/dev/ttyACM");
    match first_entry_with(dev_entries, &acm) {
        Some(i) => return Ok(dev_entries[i].clone()),
        None => {},
    }
    let usb = chars_of("/dev/ttyUSB");
    match first_entry_with(dev_entries, &usb) {
        Some(i) => Ok(dev_entries[i].clone()),
        None => Err(
            GCodeError::Command("No serial port found (tried /dev/ttyACM*, /dev/ttyUSB*)".to_string()),
        ),
    }
}

} // verus!
