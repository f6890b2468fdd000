//! What a line says once it has been taken elsewhere.
//!
//! Several words are given other digits at once, in whatever order the line has
//! them. That comes to the same as replacing them one by one, the last first,
//! so each of them says what it was given and no other word says anything new.

use crate::gcode;
use crate::gcode::Edit;
use crate::gcode::Line;
use crate::gcode::Number;
use crate::gcode::Relocation;
use crate::gcode::Word;
use crate::rewritten;
use crate::text;
use vstd::prelude::*;

verus! {

/// What a word says, wherever it stands.
pub open spec fn said(word: Option<Word>) -> Option<Number> {
    match word {
        Some(word) => Some(word.value),
        None => None,
    }
}

/// Every edit replaces the whole value of a word of the line, each of another
/// letter, by a number made of figures.
spec fn places(raw: Seq<u8>, edits: Seq<Edit>, letters: Seq<u8>) -> bool {
    &&& edits.len() == letters.len()
    &&& forall|k: int| 0 <= k < edits.len() ==> #[trigger] placed(raw, edits[k], letters[k])
    &&& forall|j: int, k: int|
        0 <= j < letters.len() && 0 <= k < letters.len() && j != k ==> #[trigger] letters[j]
            != #[trigger] letters[k]
}

spec fn placed(raw: Seq<u8>, edit: Edit, letter: u8) -> bool {
    let word = gcode::word(gcode::body_of(raw), letter);
    &&& rewritten::axis(letter)
    &&& word is Some
    &&& edit.start == word->0.start
    &&& edit.end == word->0.end
    &&& rewritten::all_figures(edit.digits@)
    &&& gcode::number_of(edit.digits@) is Some
}

/// How many bytes some edits put in at most.
pub open spec fn room(edits: Seq<Edit>) -> nat
    decreases edits.len(),
{
    if edits.len() == 0 {
        0
    } else {
        room(edits.drop_last()) + edits.last().digits@.len()
    }
}

proof fn lemma_room(edits: Seq<Edit>, m: int)
    requires
        0 <= m < edits.len(),
    ensures
        room(edits) == room(edits.remove(m)) + edits[m].digits@.len(),
    decreases edits.len(),
{
    if m == edits.len() - 1 {
        assert(edits.remove(m) =~= edits.drop_last());
    } else {
        lemma_room(edits.drop_last(), m);
        assert(edits.remove(m).drop_last() =~= edits.drop_last().remove(m));
        assert(edits.remove(m).last() == edits.last());
    }
}

/// An edit that starts where no other does is the one that is found there.
proof fn lemma_found(edits: Seq<Edit>, at: int, from: int, k: int)
    requires
        0 <= from <= k < edits.len(),
        edits[k].start == at,
        edits[k].end > at,
        forall|j: int| from <= j < edits.len() && j != k ==> (#[trigger] edits[j]).start != at,
    ensures
        gcode::edit_at(edits, at, from) == k,
    decreases k - from,
{
    if from < k {
        assert(edits[from].start != at);
        lemma_found(edits, at, from + 1, k);
    }
}

proof fn lemma_none_found(edits: Seq<Edit>, at: int, from: int)
    requires
        0 <= from <= edits.len(),
        forall|j: int| from <= j < edits.len() ==> (#[trigger] edits[j]).start != at,
    ensures
        gcode::edit_at(edits, at, from) == edits.len(),
    decreases edits.len() - from,
{
    if from < edits.len() {
        lemma_none_found(edits, at, from + 1);
    }
}

/// Past the last edit a text is as it was.
proof fn lemma_past(raw: Seq<u8>, edits: Seq<Edit>, at: int)
    requires
        0 <= at <= raw.len(),
        forall|j: int| 0 <= j < edits.len() ==> (#[trigger] edits[j]).start < at,
    ensures
        gcode::edited(raw, edits, at) == raw.skip(at),
    decreases raw.len() - at,
{
    if at < raw.len() {
        lemma_none_found(edits, at, 0);
        lemma_past(raw, edits, at + 1);
        assert(seq![raw[at]] + raw.skip(at + 1) =~= raw.skip(at));
    } else {
        assert(raw.skip(at) =~= seq![]);
    }
}

/// Two edits of different words do not touch.
proof fn lemma_apart(raw: Seq<u8>, edits: Seq<Edit>, letters: Seq<u8>, j: int, k: int)
    requires
        raw.len() <= usize::MAX,
        places(raw, edits, letters),
        0 <= j < edits.len(),
        0 <= k < edits.len(),
        j != k,
    ensures
        1 <= edits[j].start < edits[j].end <= gcode::body_of(raw).len() <= raw.len(),
        edits[j].start != edits[k].start,
        edits[j].start < edits[k].start ==> edits[j].end < edits[k].start,
{
    let body = gcode::body_of(raw);
    let kind = |byte: u8| gcode::figure(byte);
    text::lemma_find(raw, 0x3b, 0, raw.len() as int);
    assert(placed(raw, edits[j], letters[j]));
    assert(placed(raw, edits[k], letters[k]));
    assert(letters[j] != letters[k]);
    rewritten::lemma_stands(body, letters[j], body.len() as int);
    rewritten::lemma_stands(body, letters[k], body.len() as int);
    gcode::lemma_run_end(body, edits[j].start as int, kind);
    if edits[j].start < edits[k].start && edits[j].end >= edits[k].start {
        assert(gcode::figure(body[edits[k].start - 1]));
    }
}

/// Where an edit's word stands.
proof fn lemma_place(raw: Seq<u8>, edit: Edit, letter: u8)
    requires
        raw.len() <= usize::MAX,
        placed(raw, edit, letter),
    ensures
        1 <= edit.start < edit.end <= gcode::body_of(raw).len() <= raw.len(),
        rewritten::stands(gcode::body_of(raw), edit.start as int, edit.end as int),
{
    let body = gcode::body_of(raw);
    text::lemma_find(raw, 0x3b, 0, raw.len() as int);
    rewritten::lemma_stands(body, letter, body.len() as int);
}

/// Making all edits is making the one that stands last, and then the others.
proof fn lemma_last_first(raw: Seq<u8>, edits: Seq<Edit>, letters: Seq<u8>, m: int, at: int)
    requires
        raw.len() <= usize::MAX,
        places(raw, edits, letters),
        0 <= m < edits.len(),
        forall|j: int|
            0 <= j < edits.len() && j != m ==> (#[trigger] edits[j]).start < edits[m].start,
        0 <= at <= edits[m].start,
    ensures
        gcode::edited(raw, edits, at) == gcode::edited(
            gcode::replaced(raw, edits[m].start as int, edits[m].end as int, edits[m].digits@),
            edits.remove(m),
            at,
        ),
    decreases edits[m].start - at,
{
    let last = edits[m];
    let others = edits.remove(m);
    let made = gcode::replaced(raw, last.start as int, last.end as int, last.digits@);
    assert(placed(raw, edits[m], letters[m]));
    lemma_place(raw, last, letters[m]);
    assert forall|j: int| 0 <= j < others.len() implies (#[trigger] others[j]).start
        < last.start by {
        if j < m {
            assert(others[j] == edits[j]);
        } else {
            assert(others[j] == edits[j + 1]);
        }
    }
    if at == last.start {
        lemma_found(edits, at, 0, m);
        assert forall|j: int| 0 <= j < edits.len() implies (#[trigger] edits[j]).start
            < last.end by {}
        lemma_past(raw, edits, last.end as int);
        lemma_past(made, others, at);
        assert(made.skip(at) =~= last.digits@ + raw.skip(last.end as int));
    } else {
        let k = gcode::edit_at(edits, at, 0);
        gcode::lemma_edit_at(edits, at, 0);
        if k < edits.len() {
            assert(k != m);
            lemma_apart(raw, edits, letters, k, m);
            let same = if k < m {
                k
            } else {
                k - 1
            };
            assert(others[same] == edits[k]);
            assert forall|j: int| 0 <= j < others.len() && j != same implies (
            #[trigger] others[j]).start != at by {
                let was = if j < m {
                    j
                } else {
                    j + 1
                };
                assert(others[j] == edits[was]);
                lemma_apart(raw, edits, letters, was, k);
            }
            lemma_found(others, at, 0, same);
            lemma_last_first(raw, edits, letters, m, edits[k].end as int);
        } else {
            assert forall|j: int| 0 <= j < others.len() implies (#[trigger] others[j]).start
                != at by {
                let was = if j < m {
                    j
                } else {
                    j + 1
                };
                assert(others[j] == edits[was]);
                assert(placed(raw, edits[was], letters[was]));
                lemma_place(raw, edits[was], letters[was]);
                if edits[was].start == at {
                    assert forall|i: int| 0 <= i < edits.len() && i != was implies (
                    #[trigger] edits[i]).start != at by {
                        lemma_apart(raw, edits, letters, i, was);
                    }
                    lemma_found(edits, at, 0, was);
                }
            }
            lemma_none_found(others, at, 0);
            assert(made[at] == raw[at]);
            lemma_last_first(raw, edits, letters, m, at + 1);
        }
    }
}

/// Which of some edits stands last.
proof fn lemma_rightmost(edits: Seq<Edit>, upto: int) -> (m: int)
    requires
        0 < upto <= edits.len(),
    ensures
        0 <= m < upto,
        forall|j: int| 0 <= j < upto ==> (#[trigger] edits[j]).start <= edits[m].start,
    decreases upto,
{
    if upto == 1 {
        0
    } else {
        let m = lemma_rightmost(edits, upto - 1);
        if edits[m].start < edits[upto - 1].start {
            upto - 1
        } else {
            m
        }
    }
}

/// What some edits make of a line.
proof fn lemma_edits(raw: Seq<u8>, edits: Seq<Edit>, letters: Seq<u8>)
    requires
        places(raw, edits, letters),
        raw.len() + room(edits) <= usize::MAX,
    ensures
        ({
            let made = gcode::edited(raw, edits, 0);
            let body = gcode::body_of(raw);
            let changed = gcode::body_of(made);
            &&& made.len() <= raw.len() + room(edits)
            &&& body.len() <= raw.len()
            &&& changed.len() <= made.len()
            &&& made.skip(changed.len() as int) == raw.skip(body.len() as int)
            &&& gcode::command(changed) == gcode::command(body)
            &&& gcode::in_plane(changed) == gcode::in_plane(body)
            &&& forall|k: int|
                0 <= k < edits.len() ==> said(gcode::word(changed, #[trigger] letters[k])) == Some(
                    gcode::number_of(edits[k].digits@)->0,
                )
            &&& forall|other: u8| #[trigger]
                rewritten::axis(other) && !letters.contains(other) ==> said(
                    gcode::word(changed, other),
                ) == said(gcode::word(body, other))
        }),
    decreases edits.len(),
{
    let body = gcode::body_of(raw);
    text::lemma_find(raw, 0x3b, 0, raw.len() as int);
    if edits.len() == 0 {
        lemma_past(raw, edits, 0);
        assert(raw.skip(0) =~= raw);
    } else {
        let m = lemma_rightmost(edits, edits.len() as int);
        let last = edits[m];
        let letter = letters[m];
        let others = edits.remove(m);
        let rest = letters.remove(m);
        assert(placed(raw, edits[m], letters[m]));
        lemma_place(raw, last, letter);
        lemma_room(edits, m);
        assert forall|j: int| 0 <= j < edits.len() && j != m implies (#[trigger] edits[j]).start
            < last.start by {
            lemma_apart(raw, edits, letters, j, m);
        }
        lemma_last_first(raw, edits, letters, m, 0);
        let step = gcode::replaced(raw, last.start as int, last.end as int, last.digits@);
        rewritten::lemma_whole(raw, letter, last.digits@);
        text::lemma_find(step, 0x3b, 0, step.len() as int);
        let between = gcode::body_of(step);
        assert(step.skip(between.len() as int) =~= raw.skip(body.len() as int));
        assert forall|k: int| 0 <= k < others.len() implies #[trigger] placed(
            step,
            others[k],
            rest[k],
        ) by {
            let was = if k < m {
                k
            } else {
                k + 1
            };
            assert(others[k] == edits[was]);
            assert(rest[k] == letters[was]);
            assert(placed(raw, edits[was], letters[was]));
            assert(letters[was] != letters[m]);
        }
        assert forall|j: int, k: int|
            0 <= j < rest.len() && 0 <= k < rest.len() && j != k implies #[trigger] rest[j]
            != #[trigger] rest[k] by {
            let one = if j < m {
                j
            } else {
                j + 1
            };
            let two = if k < m {
                k
            } else {
                k + 1
            };
            assert(rest[j] == letters[one]);
            assert(rest[k] == letters[two]);
        }
        lemma_edits(step, others, rest);
        let made = gcode::edited(raw, edits, 0);
        let changed = gcode::body_of(made);
        assert(!rest.contains(letter)) by {
            if rest.contains(letter) {
                let k = choose|k: int| 0 <= k < rest.len() && rest[k] == letter;
                let was = if k < m {
                    k
                } else {
                    k + 1
                };
                assert(rest[k] == letters[was]);
            }
        }
        assert forall|k: int| 0 <= k < edits.len() implies said(
            gcode::word(changed, #[trigger] letters[k]),
        ) == Some(gcode::number_of(edits[k].digits@)->0) by {
            if k == m {
                assert(rewritten::axis(letter));
            } else {
                let now = if k < m {
                    k
                } else {
                    k - 1
                };
                assert(rest[now] == letters[k]);
                assert(others[now] == edits[k]);
            }
        }
        assert forall|other: u8| #[trigger]
            rewritten::axis(other) && !letters.contains(other) implies said(
            gcode::word(changed, other),
        ) == said(gcode::word(body, other)) by {
            assert(letters[m] != other);
            if rest.contains(other) {
                let k = choose|k: int| 0 <= k < rest.len() && rest[k] == other;
                let was = if k < m {
                    k
                } else {
                    k + 1
                };
                assert(letters[was] == other);
            }
        }
    }
}

/// What stands behind every edit is as it was.
proof fn lemma_split(raw: Seq<u8>, edits: Seq<Edit>, end: int, at: int)
    requires
        0 <= at <= end <= raw.len(),
        forall|j: int|
            0 <= j < edits.len() ==> (#[trigger] edits[j]).start < edits[j].end <= end,
    ensures
        gcode::edited(raw, edits, at) == gcode::edited(raw.take(end), edits, at) + raw.skip(end),
    decreases end - at,
{
    let head = raw.take(end);
    if at == end {
        lemma_past(raw, edits, at);
        assert(Seq::<u8>::empty() + raw.skip(end) =~= raw.skip(end));
    } else {
        let k = gcode::edit_at(edits, at, 0);
        gcode::lemma_edit_at(edits, at, 0);
        if k < edits.len() {
            let next = edits[k].end as int;
            lemma_split(raw, edits, end, next);
            assert(edits[k].digits@ + (gcode::edited(head, edits, next) + raw.skip(end))
                =~= edits[k].digits@ + gcode::edited(head, edits, next) + raw.skip(end));
        } else {
            lemma_split(raw, edits, end, at + 1);
            assert(head[at] == raw[at]);
            assert(seq![raw[at]] + (gcode::edited(head, edits, at + 1) + raw.skip(end))
                =~= seq![raw[at]] + gcode::edited(head, edits, at + 1) + raw.skip(end));
        }
    }
}

/// A text that ends in no blank does not once it has been edited.
proof fn lemma_tail(head: Seq<u8>, edits: Seq<Edit>, at: int)
    requires
        0 <= at < head.len(),
        !text::blank(head.last()),
        forall|j: int|
            0 <= j < edits.len() ==> (#[trigger] edits[j]).end <= head.len()
                && edits[j].digits@.len() > 0 && rewritten::all_figures(edits[j].digits@),
    ensures
        gcode::edited(head, edits, at).len() > 0,
        !text::blank(gcode::edited(head, edits, at).last()),
    decreases head.len() - at,
{
    let k = gcode::edit_at(edits, at, 0);
    gcode::lemma_edit_at(edits, at, 0);
    let (piece, next) = if k < edits.len() {
        (edits[k].digits@, edits[k].end as int)
    } else {
        (seq![head[at]], at + 1)
    };
    let rest = gcode::edited(head, edits, next);
    assert(gcode::edited(head, edits, at) == piece + rest);
    if k < edits.len() {
        assert(gcode::figure(piece[piece.len() - 1]));
    }
    if next < head.len() {
        lemma_tail(head, edits, next);
        assert((piece + rest).last() == rest.last());
    } else {
        assert(piece + rest =~= piece);
    }
}

/// A line that had no `Z` word and is given one as well.
proof fn lemma_edits_and_lift(raw: Seq<u8>, edits: Seq<Edit>, letters: Seq<u8>, z: Seq<u8>)
    requires
        places(raw, edits, letters),
        raw.len() + room(edits) + 2 + z.len() <= usize::MAX,
        !letters.contains(0x7a),
        rewritten::all_figures(z),
        gcode::number_of(z) is Some,
    ensures
        ({
            let body = gcode::body_of(raw);
            let end = gcode::body_end(raw);
            let made = gcode::edited(raw.take(end), edits, 0) + seq![0x20u8, 0x5a] + z + raw.skip(
                end,
            );
            let changed = gcode::body_of(made);
            &&& made.len() <= raw.len() + room(edits) + 2 + z.len()
            &&& body.len() <= raw.len()
            &&& changed.len() <= made.len()
            &&& made.skip(changed.len() as int) == raw.skip(body.len() as int)
            &&& gcode::command(changed) == gcode::command(body)
            &&& gcode::in_plane(changed) == gcode::in_plane(body)
            &&& said(gcode::word(changed, 0x7a)) == Some(gcode::number_of(z)->0)
            &&& forall|k: int|
                0 <= k < edits.len() ==> said(gcode::word(changed, #[trigger] letters[k])) == Some(
                    gcode::number_of(edits[k].digits@)->0,
                )
            &&& forall|other: u8| #[trigger]
                rewritten::axis(other) && other != 0x7a && !letters.contains(other) ==> said(
                    gcode::word(changed, other),
                ) == said(gcode::word(body, other))
        }),
{
    let body = gcode::body_of(raw);
    let found = body.len() as int;
    text::lemma_find(raw, 0x3b, 0, raw.len() as int);
    rewritten::lemma_spaces(raw, found);
    let end = gcode::body_end(raw);
    let head = raw.take(end);
    assert forall|j: int| 0 <= j < edits.len() implies (#[trigger] edits[j]).start < edits[j].end
        <= end && edits[j].digits@.len() > 0 && rewritten::all_figures(edits[j].digits@) by {
        let kind = |byte: u8| gcode::figure(byte);
        assert(placed(raw, edits[j], letters[j]));
        lemma_place(raw, edits[j], letters[j]);
        gcode::lemma_run_end(body, edits[j].start as int, kind);
        let last = edits[j].end - 1;
        assert(gcode::figure(body[last]));
        if last >= end {
            assert(rewritten::spacing(raw[last]));
        }
        if edits[j].digits@.len() == 0 {
            rewritten::lemma_nothing(edits[j].digits@);
        }
    }
    lemma_edits(raw, edits, letters);
    lemma_split(raw, edits, end, 0);
    let plain = gcode::edited(raw, edits, 0);
    let fore = gcode::edited(head, edits, 0);
    text::lemma_find(plain, 0x3b, 0, plain.len() as int);
    let stem = gcode::body_of(plain);
    let at = fore.len() as int;
    assert(plain == fore + raw.skip(end));
    assert(plain.len() - stem.len() == raw.len() - found) by {
        assert(plain.skip(stem.len() as int).len() == raw.skip(found).len());
    }
    assert(stem.len() == at + (found - end));
    assert(rewritten::trimmed_at(stem, at)) by {
        assert forall|i: int| at <= i < stem.len() implies rewritten::spacing(
            #[trigger] stem[i],
        ) by {
            assert(stem[i] == raw[i - at + end]);
        }
        if end > 0 {
            assert(head.last() == raw[end - 1]);
            lemma_tail(head, edits, 0);
            assert(stem[at - 1] == fore.last());
        }
    }
    let made = fore + seq![0x20u8, 0x5a] + z + raw.skip(end);
    let changed = rewritten::lifted(stem, at, z);
    let last = changed.len() as int;
    assert forall|i: int| 0 <= i < last implies #[trigger] made[i] == changed[i] && made[i]
        != 0x3b by {
        if i < at {
            assert(stem[i] == fore[i]);
            assert(plain[i] != 0x3b);
        } else if i >= at + 2 + z.len() {
            let was = i - 2 - z.len();
            assert(made[i] == plain[was]);
            assert(changed[i] == stem[was]);
            assert(plain[was] != 0x3b);
        } else if i >= at + 2 {
            assert(gcode::figure(z[i - at - 2]));
        }
    }
    text::lemma_find(made, 0x3b, 0, made.len() as int);
    if found < raw.len() {
        assert(made[last] == raw[found]);
    }
    assert(gcode::body_of(made) =~= changed);
    assert(made.skip(last) =~= raw.skip(found));
    rewritten::lemma_lifted_command(stem, at, z);
    rewritten::lemma_lifted_plane(stem, at, z);
    rewritten::lemma_lifted_words(stem, at, z, 0x7a);
    assert forall|k: int| 0 <= k < edits.len() implies said(
        gcode::word(changed, #[trigger] letters[k]),
    ) == Some(gcode::number_of(edits[k].digits@)->0) by {
        assert(placed(raw, edits[k], letters[k]));
        rewritten::lemma_lifted_words(stem, at, z, letters[k]);
    }
    assert forall|other: u8| #[trigger]
        rewritten::axis(other) && other != 0x7a && !letters.contains(other) implies said(
        gcode::word(changed, other),
    ) == said(gcode::word(body, other)) by {
        rewritten::lemma_lifted_words(stem, at, z, other);
    }
}

/// What a line that is taken elsewhere is given for a letter, where it is given
/// anything for it: an `E` is only changed, never put in.
pub open spec fn given(line: Line, to: Relocation, letter: u8) -> Option<Seq<u8>> {
    if letter == 0x78 {
        Some(to.x@)
    } else if letter == 0x79 {
        Some(to.y@)
    } else if letter == 0x69 && to.centre is Some {
        Some((to.centre->0).0@)
    } else if letter == 0x6a && to.centre is Some {
        Some((to.centre->0).1@)
    } else if letter == 0x65 && to.e is Some && line.e is Some {
        Some(to.e->0@)
    } else if letter == 0x7a && to.z is Some {
        Some(to.z->0@)
    } else {
        None
    }
}

/// The letters whose words the edits of a line that is taken elsewhere replace.
spec fn letters_of(line: Line, to: Relocation) -> Seq<u8> {
    let plane = seq![0x78u8, 0x79];
    let centre = if to.centre is Some {
        seq![0x69u8, 0x6a]
    } else {
        seq![]
    };
    let feed = if to.e is Some && line.e is Some {
        seq![0x65u8]
    } else {
        seq![]
    };
    let lift = if to.z is Some && line.z is Some {
        seq![0x7au8]
    } else {
        seq![]
    };
    plane + centre + feed + lift
}

/// The edits that take a line elsewhere replace one word for every letter that it
/// is given anything for.
proof fn lemma_letters(line: Line, edits: Seq<Edit>, to: Relocation)
    requires
        line == gcode::reading(line.raw, true),
        gcode::relocatable(line, to),
        gcode::relocates(edits, line, to),
        forall|letter: u8|
            (#[trigger] given(line, to, letter)) is Some ==> gcode::plain(
                given(line, to, letter)->0,
            ),
    ensures
        places(text::bytes(line.raw@), edits, letters_of(line, to)),
        forall|k: int|
            0 <= k < edits.len() ==> given(line, to, #[trigger] letters_of(line, to)[k]) == Some(
                edits[k].digits@,
            ),
        forall|letter: u8| #[trigger]
            letters_of(line, to).contains(letter) == (given(line, to, letter) is Some && !(letter
                == 0x7a && line.z is None)),
{
    let raw = text::bytes(line.raw@);
    let letters = letters_of(line, to);
    let body = gcode::body_of(raw);
    assert forall|k: int| 0 <= k < edits.len() implies #[trigger] placed(
        raw,
        edits[k],
        letters[k],
    ) && given(line, to, letters[k]) == Some(edits[k].digits@) by {
        assert(given(line, to, letters[k]) is Some);
        assert(given(line, to, letters[k])->0 == edits[k].digits@);
        rewritten::lemma_plain(edits[k].digits@);
    }
    assert(letters[0] == 0x78 && letters[1] == 0x79);
    let centred: int = if to.centre is Some {
        2
    } else {
        0
    };
    assert(to.centre is Some ==> letters[2] == 0x69 && letters[3] == 0x6a);
    assert(to.e is Some && line.e is Some ==> letters[2 + centred] == 0x65);
    assert(to.z is Some && line.z is Some ==> letters[letters.len() - 1] == 0x7a);
}

/// A line that is taken elsewhere says what it is given, and of everything it is
/// not given what it said before: it has the same command, no other word of it
/// has another value, and its comment is the same to the byte.
pub proof fn a_moved_line_changes_only_what_it_is_given(
    line: Line,
    made: &str,
    edits: Seq<Edit>,
    to: Relocation,
)
    requires
        line.valid(),
        gcode::relocatable(line, to),
        gcode::relocates(edits, line, to),
        text::bytes(made@) == gcode::relocated(line, edits, to),
        forall|letter: u8|
            (#[trigger] given(line, to, letter)) is Some ==> gcode::plain(
                given(line, to, letter)->0,
            ),
        text::bytes(line.raw@).len() + room(edits) + (if to.z is Some {
            2 + to.z->0@.len()
        } else {
            0
        }) <= usize::MAX,
    ensures
        ({
            let now = gcode::reading(made, true);
            let was = text::bytes(line.raw@);
            &&& now.code == line.code
            &&& now.clockwise == line.clockwise
            &&& now.has_xy == line.has_xy
            &&& forall|letter: u8| #[trigger]
                rewritten::axis(letter) ==> said(rewritten::word_of(now, letter)) == (match given(
                    line,
                    to,
                    letter,
                ) {
                    Some(digits) => Some(gcode::number_of(digits)->0),
                    None => said(rewritten::word_of(line, letter)),
                })
            &&& now.comment_at is Some == line.comment_at is Some
            &&& line.comment_at is Some ==> text::bytes(made@).skip(now.comment_at->0 as int)
                == was.skip(line.comment_at->0 as int)
        }),
{
    let raw = text::bytes(line.raw@);
    let body = gcode::body_of(raw);
    let letters = letters_of(line, to);
    let bytes = text::bytes(made@);
    let changed = gcode::body_of(bytes);
    assert(line == gcode::reading(line.raw, true));
    lemma_letters(line, edits, to);
    if to.z is Some && line.z is None {
        assert(given(line, to, 0x7a) is Some);
        rewritten::lemma_plain(to.z->0@);
        lemma_edits_and_lift(raw, edits, letters, to.z->0@);
    } else {
        lemma_edits(raw, edits, letters);
    }
    assert forall|letter: u8| #[trigger] rewritten::axis(letter) implies said(
        gcode::word(changed, letter),
    ) == (match given(line, to, letter) {
        Some(digits) => Some(gcode::number_of(digits)->0),
        None => said(gcode::word(body, letter)),
    }) by {
        if letters.contains(letter) {
            let k = choose|k: int| 0 <= k < letters.len() && letters[k] == letter;
            assert(given(line, to, letters[k]) == Some(edits[k].digits@));
        }
    }
    assert(bytes.skip(changed.len() as int).len() == raw.skip(body.len() as int).len());
}

} // verus!
