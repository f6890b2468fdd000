//! MeatPack, the G-code text encoding used inside binary G-code blocks.
//!
//! Fifteen characters cover most of a G-code stream, so each is packed into a
//! nibble and two share a byte; the sixteenth nibble value escapes to a
//! following full-width byte. Two `0xFF` bytes introduce a command that toggles
//! packing, which is how comment lines survive in the "keep comments" variant.
//!
//! Encoding is deliberately absent. It drops whitespace and inline comments, so
//! rewritten G-code is stored unencoded rather than passed through a second
//! lossy round.
//!
//! What a stream says is stated in three layers, each a fold over the one
//! below: [`framed`] tells commands from data, [`unpacked`] turns data into
//! characters, and [`spaced`] puts back the spaces the encoding drops.

use vstd::prelude::*;

verus! {

pub const SIGNAL: u8 = 0xFF;

pub const ENABLE_PACKING: u8 = 251;

pub const DISABLE_PACKING: u8 = 250;

pub const RESET_ALL: u8 = 249;

pub const ENABLE_NO_SPACES: u8 = 247;

pub const DISABLE_NO_SPACES: u8 = 246;

/// What one step of the outer framing amounts to.
pub enum Event {
    /// A byte of the packed stream.
    Data(u8),
    /// The byte after two signals in a row.
    Command(u8),
}

/// The outer framing of a stream's leading bytes.
pub struct Framing {
    /// A signal byte has come that may yet turn out to be data.
    pub signalled: bool,
    /// The next byte that is not a signal is a command.
    pub commanded: bool,
    pub events: Seq<Event>,
}

/// Two signals in a row make a command of the next other byte; a signal that
/// another byte follows was data after all.
pub open spec fn framed(source: Seq<u8>) -> Framing
    decreases source.len(),
{
    if source.len() == 0 {
        Framing { signalled: false, commanded: false, events: seq![] }
    } else {
        let before = framed(source.drop_last());
        let byte = source.last();
        if byte == SIGNAL {
            if before.signalled {
                Framing { signalled: false, commanded: true, ..before }
            } else {
                Framing { signalled: true, ..before }
            }
        } else if before.commanded {
            Framing { commanded: false, events: before.events.push(Event::Command(byte)), ..before }
        } else if before.signalled {
            Framing {
                signalled: false,
                events: before.events.push(Event::Data(SIGNAL)).push(Event::Data(byte)),
                ..before
            }
        } else {
            Framing { events: before.events.push(Event::Data(byte)), ..before }
        }
    }
}

/// The character a nibble below fifteen stands for.
pub open spec fn nibble_character(nibble: u8, no_spaces: bool) -> u8 {
    if nibble <= 9 {
        (nibble + 0x30) as u8
    } else if nibble == 10 {
        0x2e
    } else if nibble == 11 {
        if no_spaces {
            0x45
        } else {
            0x20
        }
    } else if nibble == 12 {
        0x0a
    } else if nibble == 13 {
        0x47
    } else if nibble == 14 {
        0x58
    } else {
        0
    }
}

/// How far a run of events has been unpacked.
pub struct Unpacking {
    pub packing: bool,
    pub no_spaces: bool,
    /// Second character of a pair, held back until its escaped partner arrives.
    pub held: Option<u8>,
    /// Full-width bytes still owed by escapes already seen.
    pub owed: nat,
    pub characters: Seq<u8>,
}

/// The characters a run of events holds: each data byte is itself while packing
/// is off or an escape is owed, and a pair of nibbles otherwise, the low one
/// first. A line feed in the low nibble leaves the high one as padding.
pub open spec fn unpacked(events: Seq<Event>) -> Unpacking
    decreases events.len(),
{
    if events.len() == 0 {
        Unpacking {
            packing: false,
            no_spaces: false,
            held: None,
            owed: 0,
            characters: seq![],
        }
    } else {
        let before = unpacked(events.drop_last());
        match events.last() {
            Event::Command(code) => Unpacking {
                packing: if code == ENABLE_PACKING {
                    true
                } else if code == DISABLE_PACKING || code == RESET_ALL {
                    false
                } else {
                    before.packing
                },
                no_spaces: if code == ENABLE_NO_SPACES {
                    true
                } else if code == DISABLE_NO_SPACES {
                    false
                } else {
                    before.no_spaces
                },
                ..before
            },
            Event::Data(byte) => {
                let low = byte & 0x0f;
                let high = byte >> 4;
                let first = nibble_character(low, before.no_spaces);
                let second = nibble_character(high, before.no_spaces);
                if !before.packing {
                    Unpacking { characters: before.characters.push(byte), ..before }
                } else if before.owed > 0 {
                    Unpacking {
                        held: None,
                        owed: (before.owed - 1) as nat,
                        characters: match before.held {
                            Some(held) => before.characters.push(byte).push(held),
                            None => before.characters.push(byte),
                        },
                        ..before
                    }
                } else if low == 0x0f && high == 0x0f {
                    Unpacking { owed: before.owed + 2, ..before }
                } else if low == 0x0f {
                    Unpacking { owed: before.owed + 1, held: Some(second), ..before }
                } else if first == 0x0a {
                    Unpacking { characters: before.characters.push(first), ..before }
                } else if high == 0x0f {
                    Unpacking {
                        owed: before.owed + 1,
                        characters: before.characters.push(first),
                        ..before
                    }
                } else {
                    Unpacking {
                        characters: before.characters.push(first).push(second),
                        ..before
                    }
                }
            },
        }
    }
}

/// A letter that opens a word of a G-code command.
pub open spec fn opens_word(character: u8) -> bool {
    ||| character == 0x58
    ||| character == 0x59
    ||| character == 0x5a
    ||| character == 0x45
    ||| character == 0x46
    ||| character == 0x49
    ||| character == 0x4a
    ||| character == 0x52
    ||| character == 0x53
    ||| character == 0x47
    ||| character == 0x50
    ||| character == 0x57
    ||| character == 0x48
    ||| character == 0x43
    ||| character == 0x41
}

/// Text as it stands once some characters have been emitted.
pub struct Spacing {
    /// The line being written opened with a `G`, so its words are set apart.
    pub apart: bool,
    pub text: Seq<u8>,
}

/// The text some characters make: on a line that opens with `G`, a space goes
/// before every letter that opens a word unless one stands there already, and
/// a line feed that follows a line feed is dropped.
pub open spec fn spaced(characters: Seq<u8>) -> Spacing
    decreases characters.len(),
{
    if characters.len() == 0 {
        Spacing { apart: false, text: seq![] }
    } else {
        let before = spaced(characters.drop_last());
        let character = characters.last();
        let starts_line = before.text.len() == 0 || before.text.last() == 0x0a;
        let after_space = before.text.len() > 0 && before.text.last() == 0x20;
        if character == 0x47 && starts_line {
            Spacing { apart: true, text: before.text.push(character) }
        } else if character == 0x0a {
            Spacing {
                apart: false,
                text: if before.text.len() > 0 && before.text.last() == 0x0a {
                    before.text
                } else {
                    before.text.push(character)
                },
            }
        } else if before.apart && !after_space && opens_word(character) {
            Spacing { text: before.text.push(0x20).push(character), ..before }
        } else {
            Spacing { text: before.text.push(character), ..before }
        }
    }
}

/// The text a MeatPack stream holds.
pub open spec fn decoded(source: Seq<u8>) -> Seq<u8> {
    spaced(unpacked(framed(source).events).characters).text
}

/// The text a MeatPack stream holds.
pub fn decode(source: &[u8]) -> (text: Vec<u8>)
    ensures
        text@ == decoded(source@),
{
    let mut state = Unpacker::new();
    let mut out = Emitter::new();
    let mut signalled = false;
    let mut commanded = false;
    let mut i: usize = 0;
    let ghost mut events: Seq<Event> = seq![];
    while i < source.len()
        invariant
            i <= source.len(),
            framed(source@.take(i as int)) == (Framing { signalled, commanded, events }),
            state.follows(events),
            out.follows(unpacked(events).characters),
        decreases source.len() - i,
    {
        let byte = source[i];
        let ghost before = source@.take(i as int);
        let ghost after = source@.take(i + 1);
        assert(after.drop_last() =~= before);
        i += 1;
        if byte == SIGNAL {
            if signalled {
                commanded = true;
                signalled = false;
            } else {
                signalled = true;
            }
        } else if commanded {
            state.command(byte, Ghost(events));
            commanded = false;
            proof {
                assert(events.push(Event::Command(byte)).drop_last() =~= events);
                events = events.push(Event::Command(byte));
            }
        } else {
            // A lone signal byte was literal data after all.
            if signalled {
                state.receive(SIGNAL, &mut out, Ghost(events));
                signalled = false;
                proof {
                    events = events.push(Event::Data(SIGNAL));
                }
            }
            state.receive(byte, &mut out, Ghost(events));
            proof {
                events = events.push(Event::Data(byte));
            }
        }
    }
    assert(source@.take(source@.len() as int) =~= source@);
    out.out
}

struct Unpacker {
    packing: bool,
    no_spaces: bool,
    held: Option<u8>,
    owed: u8,
}

impl Unpacker {
    spec fn follows(self, events: Seq<Event>) -> bool {
        let state = unpacked(events);
        &&& state.packing == self.packing
        &&& state.no_spaces == self.no_spaces
        &&& state.held == self.held
        &&& state.owed == self.owed
        &&& self.owed <= 2
    }

    fn new() -> (state: Self)
        ensures
            state.follows(seq![]),
    {
        Unpacker { packing: false, no_spaces: false, held: None, owed: 0 }
    }

    fn command(&mut self, code: u8, Ghost(events): Ghost<Seq<Event>>)
        requires
            old(self).follows(events),
        ensures
            final(self).follows(events.push(Event::Command(code))),
            unpacked(events.push(Event::Command(code))).characters == unpacked(events).characters,
    {
        assert(events.push(Event::Command(code)).drop_last() =~= events);
        if code == ENABLE_PACKING {
            self.packing = true;
        } else if code == DISABLE_PACKING || code == RESET_ALL {
            self.packing = false;
        } else if code == ENABLE_NO_SPACES {
            self.no_spaces = true;
        } else if code == DISABLE_NO_SPACES {
            self.no_spaces = false;
        }
    }

    fn character(&self, nibble: u8) -> (character: u8)
        ensures
            character == nibble_character(nibble, self.no_spaces),
    {
        if nibble <= 9 {
            nibble + 0x30
        } else if nibble == 10 {
            0x2e
        } else if nibble == 11 {
            if self.no_spaces {
                0x45
            } else {
                0x20
            }
        } else if nibble == 12 {
            0x0a
        } else if nibble == 13 {
            0x47
        } else if nibble == 14 {
            0x58
        } else {
            0
        }
    }

    fn receive(&mut self, byte: u8, out: &mut Emitter, Ghost(events): Ghost<Seq<Event>>)
        requires
            old(self).follows(events),
            old(out).follows(unpacked(events).characters),
        ensures
            final(self).follows(events.push(Event::Data(byte))),
            final(out).follows(unpacked(events.push(Event::Data(byte))).characters),
    {
        let ghost characters = unpacked(events).characters;
        assert(events.push(Event::Data(byte)).drop_last() =~= events);
        if !self.packing {
            out.push(byte, Ghost(characters));
            return;
        }
        if self.owed > 0 {
            out.push(byte, Ghost(characters));
            match self.held {
                Some(held) => {
                    out.push(held, Ghost(characters.push(byte)));
                },
                None => {},
            }
            self.held = None;
            self.owed = self.owed - 1;
            return;
        }
        let low = byte & 0x0f;
        let high = byte >> 4;
        if low == 0x0f {
            if high == 0x0f {
                self.owed = self.owed + 2;
            } else {
                self.owed = self.owed + 1;
                self.held = Some(self.character(high));
            }
        } else {
            let first = self.character(low);
            out.push(first, Ghost(characters));
            // A newline ends the line, so its partner nibble is padding.
            if first != 0x0a {
                if high == 0x0f {
                    self.owed = self.owed + 1;
                } else {
                    let second = self.character(high);
                    out.push(second, Ghost(characters.push(first)));
                }
            }
        }
    }
}

/// Puts back the spaces the encoding drops.
struct Emitter {
    out: Vec<u8>,
    apart: bool,
}

impl Emitter {
    spec fn follows(self, characters: Seq<u8>) -> bool {
        spaced(characters) == (Spacing { apart: self.apart, text: self.out@ })
    }

    fn new() -> (emitter: Self)
        ensures
            emitter.follows(seq![]),
    {
        let emitter = Emitter { out: Vec::new(), apart: false };
        assert(emitter.out@ =~= seq![]);
        emitter
    }

    /// The last byte written is this one.
    fn ends_with(&self, byte: u8) -> (ends: bool)
        ensures
            ends == (self.out@.len() > 0 && self.out@.last() == byte),
    {
        let length = self.out.len();
        length > 0 && self.out[length - 1] == byte
    }

    fn push(&mut self, character: u8, Ghost(characters): Ghost<Seq<u8>>)
        requires
            old(self).follows(characters),
        ensures
            final(self).follows(characters.push(character)),
    {
        assert(characters.push(character).drop_last() =~= characters);
        let mut opened = false;
        if character == 0x47 && (self.out.len() == 0 || self.ends_with(0x0a)) {
            self.apart = true;
            opened = true;
        } else if character == 0x0a {
            self.apart = false;
        }
        if !opened && self.apart && !self.ends_with(0x20) && is_word(character) {
            self.out.push(0x20);
        }
        if character != 0x0a || !self.ends_with(0x0a) {
            self.out.push(character);
        }
    }
}

/// A letter that opens a word of a G-code command.
pub fn is_word(character: u8) -> (word: bool)
    ensures
        word == opens_word(character),
{
    matches!(
        character,
        0x58 | 0x59 | 0x5a | 0x45 | 0x46 | 0x49 | 0x4a | 0x52 | 0x53 | 0x47 | 0x50 | 0x57 | 0x48
            | 0x43 | 0x41
    )
}

/// A decoded stream never holds an empty line: no line feed follows another.
pub proof fn no_line_feed_follows_another(characters: Seq<u8>, i: int)
    requires
        0 <= i,
        i + 1 < spaced(characters).text.len(),
    ensures
        !(spaced(characters).text[i] == 0x0a && spaced(characters).text[i + 1] == 0x0a),
    decreases characters.len(),
{
    if characters.len() > 0 {
        let before = spaced(characters.drop_last());
        if i + 1 < before.text.len() {
            no_line_feed_follows_another(characters.drop_last(), i);
        }
    }
}

/// A stream without a signal byte holds its own bytes as characters, because
/// nothing ever turns packing on.
pub proof fn plain_bytes_are_characters(source: Seq<u8>)
    requires
        forall|i: int| 0 <= i < source.len() ==> source[i] != SIGNAL,
    ensures
        !framed(source).signalled,
        !framed(source).commanded,
        !unpacked(framed(source).events).packing,
        unpacked(framed(source).events).characters == source,
    decreases source.len(),
{
    if source.len() > 0 {
        plain_bytes_are_characters(source.drop_last());
        let before = framed(source.drop_last());
        assert(before.events.push(Event::Data(source.last())).drop_last() =~= before.events);
        assert(source.drop_last().push(source.last()) =~= source);
    }
}

/// Text with no signal byte, no empty line and no line that opens with `G`
/// decodes to itself.
pub proof fn plain_text_decodes_to_itself(source: Seq<u8>)
    requires
        forall|i: int| 0 <= i < source.len() ==> source[i] != SIGNAL,
        forall|i: int|
            0 <= i < source.len() && (#[trigger] source[i] == 0x0a || source[i] == 0x47) ==> i > 0
                && source[i - 1] != 0x0a || i == 0 && source[i] == 0x0a,
    ensures
        decoded(source) == source,
{
    plain_bytes_are_characters(source);
    lemma_spaced_plain(source);
}

proof fn lemma_spaced_plain(source: Seq<u8>)
    requires
        forall|i: int|
            0 <= i < source.len() && (#[trigger] source[i] == 0x0a || source[i] == 0x47) ==> i > 0
                && source[i - 1] != 0x0a || i == 0 && source[i] == 0x0a,
    ensures
        spaced(source) == (Spacing { apart: false, text: source }),
    decreases source.len(),
{
    if source.len() > 0 {
        let before = source.drop_last();
        assert forall|i: int|
            0 <= i < before.len() && (#[trigger] before[i] == 0x0a || before[i] == 0x47) implies i
            > 0 && before[i - 1] != 0x0a || i == 0 && before[i] == 0x0a by {
            assert(before[i] == source[i]);
        }
        lemma_spaced_plain(before);
        assert(source.last() == source[source.len() - 1]);
        assert(before.push(source.last()) =~= source);
    } else {
        assert(source =~= seq![]);
    }
}

} // verus!
