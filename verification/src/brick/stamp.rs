//! The lines this tool puts in, and the stamp it leaves on its work.
//!
//! Repeating the transform compounds it, so everything that is put in or given a
//! height carries a comment by which a later run recognises it.

use crate::gcode;
use crate::scan;
use crate::text;
use vstd::prelude::*;
use vstd::string::*;

verus! {

/// What a stamp says of the height it stands beside.
pub open spec fn note(raised: bool) -> Seq<u8> {
    if raised {
        text::bytes("raised"@)
    } else {
        text::bytes("reset"@)
    }
}

/// A stamp: a comment that starts with the words every one of them starts with.
pub open spec fn stamp_of(note: Seq<u8>) -> Seq<u8> {
    seq![0x20u8, 0x3b, 0x20] + text::bytes("bricklayers brick "@) + note
}

/// The `G1 Z` that takes the nozzle to a height.
pub open spec fn z_move(z: Seq<u8>, rate: Seq<u8>) -> Seq<u8> {
    text::bytes("G1 Z"@) + z + text::bytes(" F"@) + rate
}

/// The line that puts a feedrate back.
pub open spec fn resume(rate: Seq<u8>) -> Seq<u8> {
    text::bytes("G1 F"@) + rate
}

fn push(out: &mut Vec<u8>, words: &str)
    ensures
        final(out)@ == old(out)@ + text::bytes(words@),
{
    out.extend_from_slice(words.as_bytes());
}

/// Ends a line with the stamp of a height.
pub fn write_stamp(out: &mut Vec<u8>, raised: bool)
    ensures
        final(out)@ == old(out)@ + stamp_of(note(raised)) + seq![0x0au8],
{
    let ghost before = out@;
    push(out, " ; ");
    push(out, scan::brick_stamp());
    if raised {
        push(out, "raised");
    } else {
        push(out, "reset");
    }
    out.push(0x0a);
    proof {
        lemma_semicolon();
        assert(out@ =~= before + stamp_of(note(raised)) + seq![0x0au8]);
    }
}

/// Writes the `G1 Z` that takes the nozzle to a height, and puts a feedrate back
/// after it where one is given: `F` is modal, and the print would otherwise go
/// on at the rate of the Z axis. Numbers are given as their digits.
pub fn write_z_move(out: &mut Vec<u8>, z: &[u8], rate: &[u8], raised: bool, previous: Option<&[u8]>)
    ensures
        final(out)@ == old(out)@ + z_move(z@, rate@) + stamp_of(note(raised)) + seq![0x0au8] + (
        match previous {
            Some(previous) => resume(previous@) + stamp_of(text::bytes("resume"@)) + seq![0x0au8],
            None => seq![],
        }),
{
    let ghost before = out@;
    push(out, "G1 Z");
    out.extend_from_slice(z);
    push(out, " F");
    out.extend_from_slice(rate);
    assert(out@ =~= before + z_move(z@, rate@));
    write_stamp(out, raised);
    let ghost moved = out@;
    match previous {
        Some(previous) => {
            push(out, "G1 F");
            out.extend_from_slice(previous);
            push(out, " ; ");
            push(out, scan::brick_stamp());
            push(out, "resume");
            out.push(0x0a);
            proof {
                lemma_semicolon();
                assert(out@ =~= moved + (resume(previous@) + stamp_of(text::bytes("resume"@)) + seq![
                    0x0au8,
                ]));
            }
        },
        None => {
            assert(out@ =~= moved + seq![]);
        },
    }
}

proof fn lemma_semicolon()
    ensures
        text::bytes(" ; "@) == seq![0x20u8, 0x3b, 0x20],
{
    reveal_strlit(" ; ");
    vstd::utf8::is_ascii_chars_encode_utf8(" ; "@);
    assert(text::bytes(" ; "@) =~= seq![0x20u8, 0x3b, 0x20]);
}

/// Whatever line a stamp is put behind, a later run recognises it as its own
/// earlier work, as long as the line carried no comment.
pub proof fn a_stamped_line_is_recognised(body: Seq<u8>, note: Seq<u8>)
    requires
        forall|i: int| 0 <= i < body.len() ==> #[trigger] body[i] != 0x3b,
    ensures
        scan::stamped(body + stamp_of(note)),
{
    let words = text::bytes("bricklayers brick "@);
    reveal_strlit("bricklayers brick ");
    vstd::utf8::is_ascii_chars_encode_utf8("bricklayers brick "@);
    assert(words[0] == 0x62);
    let raw = body + stamp_of(note);
    let at: int = body.len() as int + 1;
    assert(raw[at] == 0x3b);
    text::lemma_find(raw, 0x3b, 0, raw.len() as int);
    assert(gcode::body_of(raw).len() == at) by {
        let found = text::find(raw, 0x3b, 0, raw.len() as int);
        if found < at {
            assert(raw[found] == 0x3b);
            if found < body.len() {
                assert(body[found] != 0x3b);
            }
        }
    }
    let comment = raw.skip(at + 1);
    assert(comment =~= seq![0x20u8] + words + note);
    assert(comment[1] == 0x62);
    assert(text::past_space(comment, 1) == 1);
    assert(text::past_space(comment, 0) == 1);
    assert(text::trim_start(comment) =~= words + note);
    assert(words.is_prefix_of(words + note));
}

} // verus!
