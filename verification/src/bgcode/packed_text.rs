//! What an encoder packs comes out again.
//!
//! Nothing here is run. [`crate::bgcode::meatpack`] only reads; this lays text
//! down the way MeatPack's encoders do, and states that reading it gives the text
//! back, character for character and in order.

use super::meatpack;
use super::meatpack::Event;
use vstd::prelude::*;

verus! {

/// The code of a character: digits are themselves, a few more have one each, and
/// fifteen says that the character follows in full.
pub open spec fn code_of(character: u8, no_spaces: bool) -> u8 {
    if 0x30 <= character <= 0x39 {
        (character - 0x30) as u8
    } else if character == 0x2e {
        10
    } else if character == (if no_spaces {
        0x45u8
    } else {
        0x20u8
    }) {
        11
    } else if character == 0x0a {
        12
    } else if character == 0x47 {
        13
    } else if character == 0x58 {
        14
    } else {
        15
    }
}

/// A character in full, where its code says that it follows.
pub open spec fn in_full(character: u8, no_spaces: bool) -> Seq<u8> {
    if code_of(character, no_spaces) == 15 {
        seq![character]
    } else {
        seq![]
    }
}

/// Two characters as they are packed: their codes in one byte, the first in its
/// low half, and then those that have no code of their own, in order.
pub open spec fn pair(first: u8, second: u8, no_spaces: bool) -> Seq<u8> {
    seq![(code_of(first, no_spaces) + 16 * code_of(second, no_spaces)) as u8] + in_full(
        first,
        no_spaces,
    ) + in_full(second, no_spaces)
}

/// Text as it is packed, two characters at a time. A line feed that would come
/// first in a pair stands alone, and what is beside it is `pad`.
pub open spec fn packed(text: Seq<u8>, no_spaces: bool, pad: u8) -> Seq<u8>
    decreases text.len(),
{
    if text.len() > 0 && text[0] == 0x0a {
        seq![(12 + 16 * pad) as u8] + packed(text.skip(1), no_spaces, pad)
    } else if text.len() < 2 {
        seq![]
    } else {
        pair(text[0], text[1], no_spaces) + packed(text.skip(2), no_spaces, pad)
    }
}

/// The bytes that turn packing on, and spaces off where they are left out.
pub open spec fn opening(no_spaces: bool) -> Seq<u8> {
    if no_spaces {
        seq![0xffu8, 0xff, 251, 0xff, 0xff, 247]
    } else {
        seq![0xffu8, 0xff, 251]
    }
}

/// A stream has been read to the end of a pair, packing on.
spec fn at_rest(stream: Seq<u8>, no_spaces: bool, characters: Seq<u8>) -> bool {
    let frame = meatpack::framed(stream);
    let state = meatpack::unpacked(frame.events);
    &&& !frame.signalled
    &&& !frame.commanded
    &&& state.packing
    &&& state.no_spaces == no_spaces
    &&& state.held is None
    &&& state.owed == 0
    &&& state.characters == characters
}

proof fn lemma_nibbles(low: u8, high: u8)
    by (bit_vector)
    requires
        low < 16,
        high < 16,
    ensures
        ((low + 16 * high) as u8) & 0x0f == low,
        ((low + 16 * high) as u8) >> 4 == high,
        ((low + 16 * high) as u8) == 0xff ==> low == 15 && high == 15,
{
}

proof fn lemma_code(character: u8, no_spaces: bool)
    ensures
        code_of(character, no_spaces) < 16,
        code_of(character, no_spaces) < 15 ==> meatpack::nibble_character(
            code_of(character, no_spaces),
            no_spaces,
        ) == character,
{
}

/// One more byte of data.
proof fn lemma_data(stream: Seq<u8>, byte: u8)
    requires
        !meatpack::framed(stream).commanded,
        byte != 0xff,
    ensures
        ({
            let before = meatpack::framed(stream);
            let after = meatpack::framed(stream.push(byte));
            &&& !after.signalled
            &&& !after.commanded
            &&& after.events == if before.signalled {
                before.events.push(Event::Data(0xff)).push(Event::Data(byte))
            } else {
                before.events.push(Event::Data(byte))
            }
        }),
{
    assert(stream.push(byte).drop_last() =~= stream);
}

proof fn lemma_signal(stream: Seq<u8>)
    requires
        !meatpack::framed(stream).signalled,
    ensures
        meatpack::framed(stream.push(0xff)) == (meatpack::Framing {
            signalled: true,
            ..meatpack::framed(stream)
        }),
{
    assert(stream.push(0xff).drop_last() =~= stream);
}

/// A command among the data.
proof fn lemma_command(stream: Seq<u8>, code: u8)
    requires
        !meatpack::framed(stream).signalled,
        !meatpack::framed(stream).commanded,
        code != 0xff,
    ensures
        meatpack::framed(stream + seq![0xffu8, 0xff, code]) == (meatpack::Framing {
            events: meatpack::framed(stream).events.push(Event::Command(code)),
            ..meatpack::framed(stream)
        }),
{
    let one = stream.push(0xff);
    let two = one.push(0xff);
    let three = two.push(code);
    lemma_signal(stream);
    assert(two.drop_last() =~= one);
    assert(meatpack::framed(two) == (meatpack::Framing {
        commanded: true,
        ..meatpack::framed(stream)
    }));
    assert(three.drop_last() =~= two);
    assert(three =~= stream + seq![0xffu8, 0xff, code]);
}

proof fn lemma_event(events: Seq<Event>, event: Event)
    ensures
        events.push(event).drop_last() == events,
        events.push(event).last() == event,
{
    assert(events.push(event).drop_last() =~= events);
}

#[verifier::rlimit(40)]
proof fn lemma_pair(stream: Seq<u8>, first: u8, second: u8, no_spaces: bool, characters: Seq<u8>)
    requires
        at_rest(stream, no_spaces, characters),
        first != 0x0a,
        first != 0xff,
        second != 0xff,
    ensures
        at_rest(
            stream + pair(first, second, no_spaces),
            no_spaces,
            characters.push(first).push(second),
        ),
{
    let low = code_of(first, no_spaces);
    let high = code_of(second, no_spaces);
    lemma_code(first, no_spaces);
    lemma_code(second, no_spaces);
    lemma_nibbles(low, high);
    let byte = (low + 16 * high) as u8;
    let events = meatpack::framed(stream).events;
    let opened = events.push(Event::Data(byte));
    lemma_event(events, Event::Data(byte));
    let whole = stream + pair(first, second, no_spaces);
    if byte == 0xff {
        lemma_signal(stream);
        lemma_data(stream.push(byte), first);
        lemma_data(stream.push(byte).push(first), second);
        lemma_event(opened, Event::Data(first));
        lemma_event(opened.push(Event::Data(first)), Event::Data(second));
        assert(meatpack::unpacked(opened).owed == 2);
        assert(meatpack::unpacked(opened.push(Event::Data(first))).owed == 1);
        assert(meatpack::unpacked(opened.push(Event::Data(first))).characters == characters.push(
            first,
        ));
        assert(whole =~= stream.push(byte).push(first).push(second));
    } else {
        lemma_data(stream, byte);
        if low == 15 {
            lemma_data(stream.push(byte), first);
            lemma_event(opened, Event::Data(first));
            assert(meatpack::unpacked(opened).owed == 1);
            assert(meatpack::unpacked(opened).held == Some(second));
            assert(whole =~= stream.push(byte).push(first));
        } else if high == 15 {
            lemma_data(stream.push(byte), second);
            lemma_event(opened, Event::Data(second));
            assert(meatpack::unpacked(opened).owed == 1);
            assert(meatpack::unpacked(opened).characters == characters.push(first));
            assert(whole =~= stream.push(byte).push(second));
        } else {
            assert(whole =~= stream.push(byte));
        }
    }
}

proof fn lemma_line_end(stream: Seq<u8>, no_spaces: bool, pad: u8, characters: Seq<u8>)
    requires
        at_rest(stream, no_spaces, characters),
        pad < 16,
    ensures
        at_rest(stream.push((12 + 16 * pad) as u8), no_spaces, characters.push(0x0a)),
{
    let byte = (12 + 16 * pad) as u8;
    lemma_nibbles(12, pad);
    lemma_data(stream, byte);
    lemma_event(meatpack::framed(stream).events, Event::Data(byte));
}

proof fn lemma_packed(
    stream: Seq<u8>,
    text: Seq<u8>,
    no_spaces: bool,
    pad: u8,
    characters: Seq<u8>,
)
    requires
        at_rest(stream, no_spaces, characters),
        pad < 16,
        forall|i: int| 0 <= i < text.len() ==> #[trigger] text[i] != 0xff,
        text.len() > 0 ==> text.last() == 0x0a,
    ensures
        at_rest(stream + packed(text, no_spaces, pad), no_spaces, characters + text),
    decreases text.len(),
{
    if text.len() == 0 {
        assert(stream + packed(text, no_spaces, pad) =~= stream);
        assert(characters + text =~= characters);
    } else if text[0] == 0x0a {
        let byte = (12 + 16 * pad) as u8;
        let rest = text.skip(1);
        lemma_line_end(stream, no_spaces, pad, characters);
        lemma_packed(stream.push(byte), rest, no_spaces, pad, characters.push(0x0a));
        assert(stream + (seq![byte] + packed(rest, no_spaces, pad)) =~= stream.push(byte) + packed(
            rest,
            no_spaces,
            pad,
        ));
        assert(characters.push(0x0a) + rest =~= characters + text);
    } else {
        assert(text.len() >= 2);
        let rest = text.skip(2);
        let piece = pair(text[0], text[1], no_spaces);
        lemma_pair(stream, text[0], text[1], no_spaces, characters);
        lemma_packed(
            stream + piece,
            rest,
            no_spaces,
            pad,
            characters.push(text[0]).push(text[1]),
        );
        assert(stream + (piece + packed(rest, no_spaces, pad)) =~= stream + piece + packed(
            rest,
            no_spaces,
            pad,
        ));
        assert(characters.push(text[0]).push(text[1]) + rest =~= characters + text);
    }
}

proof fn lemma_opening(no_spaces: bool)
    ensures
        at_rest(opening(no_spaces), no_spaces, seq![]),
{
    let none = Seq::<u8>::empty();
    let events = Seq::<Event>::empty();
    assert(meatpack::framed(none).events =~= events);
    assert(meatpack::unpacked(events).characters =~= seq![]);
    lemma_command(none, 251);
    lemma_event(events, Event::Command(251));
    let on = none + seq![0xffu8, 0xff, 251];
    assert(meatpack::unpacked(events.push(Event::Command(251))).packing);
    if no_spaces {
        lemma_command(on, 247);
        lemma_event(events.push(Event::Command(251)), Event::Command(247));
        assert(opening(true) =~= on + seq![0xffu8, 0xff, 247]);
    } else {
        assert(opening(false) =~= on);
    }
}

/// The characters of a packed stream are the text it was packed from, in its
/// order: any two that share a byte, whichever of them follow in full.
pub proof fn packed_characters_come_out_in_order(text: Seq<u8>, no_spaces: bool, pad: u8)
    requires
        pad < 16,
        forall|i: int| 0 <= i < text.len() ==> #[trigger] text[i] != 0xff,
        text.len() > 0 ==> text.last() == 0x0a,
    ensures
        ({
            let stream = opening(no_spaces) + packed(text, no_spaces, pad);
            let frame = meatpack::framed(stream);
            &&& !frame.signalled
            &&& !frame.commanded
            &&& meatpack::unpacked(frame.events).characters == text
            &&& meatpack::decoded(stream) == meatpack::spaced(text).text
        }),
{
    lemma_opening(no_spaces);
    lemma_packed(opening(no_spaces), text, no_spaces, pad, seq![]);
    assert(Seq::<u8>::empty() + text =~= text);
}

/// Text behind the bytes that turn packing off again stands for itself.
pub proof fn text_behind_packing_stands_for_itself(
    text: Seq<u8>,
    plain: Seq<u8>,
    no_spaces: bool,
    pad: u8,
)
    requires
        pad < 16,
        forall|i: int| 0 <= i < text.len() ==> #[trigger] text[i] != 0xff,
        forall|i: int| 0 <= i < plain.len() ==> #[trigger] plain[i] != 0xff,
        text.len() > 0 ==> text.last() == 0x0a,
    ensures
        ({
            let stream = opening(no_spaces) + packed(text, no_spaces, pad) + seq![0xffu8, 0xff, 250]
                + plain;
            meatpack::unpacked(meatpack::framed(stream).events).characters == text + plain
        }),
{
    packed_characters_come_out_in_order(text, no_spaces, pad);
    lemma_opening(no_spaces);
    lemma_packed(opening(no_spaces), text, no_spaces, pad, seq![]);
    let stream = opening(no_spaces) + packed(text, no_spaces, pad);
    lemma_command(stream, 250);
    lemma_event(meatpack::framed(stream).events, Event::Command(250));
    let off = stream + seq![0xffu8, 0xff, 250];
    assert(Seq::<u8>::empty() + text =~= text);
    lemma_plain(off, plain, text);
}

proof fn lemma_plain(stream: Seq<u8>, plain: Seq<u8>, characters: Seq<u8>)
    requires
        ({
            let frame = meatpack::framed(stream);
            let state = meatpack::unpacked(frame.events);
            &&& !frame.signalled
            &&& !frame.commanded
            &&& !state.packing
            &&& state.characters == characters
        }),
        forall|i: int| 0 <= i < plain.len() ==> #[trigger] plain[i] != 0xff,
    ensures
        ({
            let frame = meatpack::framed(stream + plain);
            let state = meatpack::unpacked(frame.events);
            &&& !frame.signalled
            &&& !frame.commanded
            &&& !state.packing
            &&& state.characters == characters + plain
        }),
    decreases plain.len(),
{
    if plain.len() == 0 {
        assert(stream + plain =~= stream);
        assert(characters + plain =~= characters);
    } else {
        let less = plain.drop_last();
        lemma_plain(stream, less, characters);
        lemma_data(stream + less, plain.last());
        lemma_event(meatpack::framed(stream + less).events, Event::Data(plain.last()));
        assert((stream + less).push(plain.last()) =~= stream + plain);
        assert((characters + less).push(plain.last()) =~= characters + plain);
    }
}

/// A character that is neither a space nor a line feed.
pub open spec fn solid(character: u8) -> bool {
    character != 0x20 && character != 0x0a
}

/// A text without its spaces and line feeds.
pub open spec fn solids(text: Seq<u8>) -> Seq<u8> {
    text.filter(|c: u8| solid(c))
}

proof fn lemma_solids(text: Seq<u8>, last: u8)
    ensures
        solids(text.push(last)) == if solid(last) {
            solids(text).push(last)
        } else {
            solids(text)
        },
{
    reveal(Seq::filter);
    assert(text.push(last).drop_last() =~= text);
}

/// Putting spaces back changes nothing but spaces and empty lines: every other
/// character stays, in its order.
pub proof fn only_spaces_and_empty_lines_change(characters: Seq<u8>)
    ensures
        solids(meatpack::spaced(characters).text) == solids(characters),
    decreases characters.len(),
{
    if characters.len() > 0 {
        let less = characters.drop_last();
        only_spaces_and_empty_lines_change(less);
        let text = meatpack::spaced(less).text;
        let last = characters.last();
        lemma_solids(text, last);
        lemma_solids(text, 0x20);
        lemma_solids(text.push(0x20), last);
        lemma_solids(less, last);
        assert(less.push(last) =~= characters);
    } else {
        assert(meatpack::spaced(characters).text =~= characters);
    }
}

/// A letter that opens a word: one of `XYZEFIJRSGPWHCA`.
pub open spec fn word_letter(character: u8) -> bool {
    seq![
        0x58u8,
        0x59,
        0x5a,
        0x45,
        0x46,
        0x49,
        0x4a,
        0x52,
        0x53,
        0x47,
        0x50,
        0x57,
        0x48,
        0x43,
        0x41,
    ].contains(character)
}

/// Place `i` of a text is on a line that opens with `G` at place `start`.
pub open spec fn on_a_command(text: Seq<u8>, start: int, i: int) -> bool {
    &&& 0 <= start <= i < text.len()
    &&& text[start] == 0x47
    &&& start == 0 || text[start - 1] == 0x0a
    &&& forall|j: int| start <= j <= i ==> #[trigger] text[j] != 0x0a
}

/// The words of a line that opens with `G` are set apart: a space stands before
/// every letter that opens one, the first aside.
pub proof fn words_of_a_command_are_set_apart(characters: Seq<u8>, start: int, i: int)
    requires
        on_a_command(meatpack::spaced(characters).text, start, i),
        start < i,
        word_letter(meatpack::spaced(characters).text[i]),
    ensures
        meatpack::spaced(characters).text[i - 1] == 0x20,
    decreases characters.len(),
{
    let now = meatpack::spaced(characters);
    if characters.len() > 0 {
        let less = characters.drop_last();
        let before = meatpack::spaced(less);
        if i < before.text.len() {
            assert(on_a_command(before.text, start, i)) by {
                assert forall|j: int| start <= j <= i implies #[trigger] before.text[j] != 0x0a by {
                    assert(now.text[j] == before.text[j]);
                }
                if start > 0 {
                    assert(now.text[start - 1] == before.text[start - 1]);
                }
            }
            words_of_a_command_are_set_apart(less, start, i);
        } else {
            let last = before.text.len() - 1;
            assert(now.text[i] == characters.last() || now.text[i] == 0x20);
            if start <= last {
                assert(on_a_command(before.text, start, last)) by {
                    assert forall|j: int| start <= j <= last implies #[trigger] before.text[j]
                        != 0x0a by {
                        assert(now.text[j] == before.text[j]);
                    }
                }
                lemma_apart(less, start);
                lemma_word_letter(characters.last());
            }
        }
    }
}

proof fn lemma_word_letter(character: u8)
    ensures
        word_letter(character) == meatpack::opens_word(character),
{
    let letters = seq![
        0x58u8,
        0x59,
        0x5a,
        0x45,
        0x46,
        0x49,
        0x4a,
        0x52,
        0x53,
        0x47,
        0x50,
        0x57,
        0x48,
        0x43,
        0x41,
    ];
    if meatpack::opens_word(character) {
        assert(letters[0] == character || letters[1] == character || letters[2] == character
            || letters[3] == character || letters[4] == character || letters[5] == character
            || letters[6] == character || letters[7] == character || letters[8] == character
            || letters[9] == character || letters[10] == character || letters[11] == character
            || letters[12] == character || letters[13] == character || letters[14] == character);
    }
}

/// Whatever is written last on a line that opens with `G`, the next word is set
/// apart.
proof fn lemma_apart(characters: Seq<u8>, start: int)
    requires
        on_a_command(
            meatpack::spaced(characters).text,
            start,
            meatpack::spaced(characters).text.len() - 1,
        ),
    ensures
        meatpack::spaced(characters).apart,
    decreases characters.len(),
{
    let now = meatpack::spaced(characters);
    let less = characters.drop_last();
    let before = meatpack::spaced(less);
    let last = now.text.len() - 1;
    assert(now.text[last] != 0x0a);
    assert(now.text[last] == characters.last());
    if start < before.text.len() {
        assert(on_a_command(before.text, start, before.text.len() - 1)) by {
            assert forall|j: int| start <= j <= before.text.len() - 1 implies #[trigger]
                before.text[j] != 0x0a by {
                assert(now.text[j] == before.text[j]);
            }
            assert(now.text[start] == before.text[start]);
            if start > 0 {
                assert(now.text[start - 1] == before.text[start - 1]);
            }
        }
        lemma_apart(less, start);
    } else if start > 0 && before.text.len() > 0 {
        assert(now.text[start] == 0x47);
    }
}

/// Where no line opens with `G` and none is empty, text is left as it is.
pub proof fn other_lines_are_left_as_they_are(characters: Seq<u8>)
    requires
        forall|i: int|
            0 <= i < characters.len() && (#[trigger] characters[i] == 0x47 || characters[i] == 0x0a)
                ==> i > 0 && characters[i - 1] != 0x0a,
    ensures
        meatpack::spaced(characters).text == characters,
        !meatpack::spaced(characters).apart,
    decreases characters.len(),
{
    if characters.len() > 0 {
        let less = characters.drop_last();
        assert forall|i: int|
            0 <= i < less.len() && (#[trigger] less[i] == 0x47 || less[i] == 0x0a) implies i > 0
            && less[i - 1] != 0x0a by {
            assert(less[i] == characters[i]);
        }
        other_lines_are_left_as_they_are(less);
        assert(characters.last() == characters[characters.len() - 1]);
        assert(less.push(characters.last()) =~= characters);
    } else {
        assert(meatpack::spaced(characters).text =~= characters);
    }
}

} // verus!
