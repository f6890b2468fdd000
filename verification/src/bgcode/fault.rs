//! What can be wrong with a container, and how it is told.

use crate::text;
use vstd::prelude::*;
use vstd::string::*;

verus! {

/// The newest container version there is a reader for.
pub const VERSION: u32 = 1;

/// A way for a container to be unreadable.
pub enum Fault {
    /// The file does not start with a container's header.
    Magic,
    Version(u32),
    ChecksumType(u16),
    CompressionType(u16),
    BlockType(u16),
    /// The file ends inside the block that starts at this byte.
    Truncated(nat),
    /// The block that starts at this byte does not add up.
    Checksum(nat),
    /// The reason a deflate stream would not unpack.
    Deflate(Seq<char>),
    Heatshrink,
    /// A block unpacked to another length than its header promised.
    Length(nat, nat),
    Encoding(u16),
}

/// The words a fault is told in.
pub open spec fn told(fault: Fault) -> Seq<char> {
    match fault {
        Fault::Magic => "missing GCDE magic number"@,
        Fault::Version(version) => "version "@ + text::decimal(version as nat) + " is newer than "@
            + text::decimal(VERSION as nat),
        Fault::ChecksumType(code) => "unknown checksum type "@ + text::decimal(code as nat),
        Fault::CompressionType(code) => "unknown compression type "@ + text::decimal(code as nat),
        Fault::BlockType(kind) => "unknown block type "@ + text::decimal(kind as nat),
        Fault::Truncated(at) => "file ends inside the block at byte "@ + text::decimal(at),
        Fault::Checksum(at) => "checksum mismatch in the block at byte "@ + text::decimal(at),
        Fault::Deflate(reason) => "deflate stream: "@ + reason,
        Fault::Heatshrink => "heatshrink stream ends early"@,
        Fault::Length(held, promised) => "block holds "@ + text::decimal(held)
            + " bytes but its header promised "@ + text::decimal(promised),
        Fault::Encoding(code) => "unknown G-code encoding "@ + text::decimal(code as nat),
    }
}

/// The words for a fault met while a block is being decoded, which surfaces
/// mid-pass rather than when the file was opened, so it says what it is about.
pub open spec fn damage(fault: Fault) -> Seq<char> {
    "not valid binary G-code: "@ + told(fault)
}

/// Tells a reason apart from the pass it surfaces in.
pub fn damaged(reason: &String) -> (said: String)
    ensures
        said@ == "not valid binary G-code: "@ + reason@,
{
    let mut said = String::from_str("not valid binary G-code: ");
    said.append(reason.as_str());
    said
}

/// The words for a version this library has no reader for.
pub fn newer_version(version: u32) -> (said: String)
    ensures
        said@ == told(Fault::Version(version)),
{
    let mut said = text::phrase("version ", version as u64);
    said.append(" is newer than ");
    text::push_decimal(&mut said, VERSION as u64);
    said
}

/// The words for a deflate stream that would not unpack.
pub fn bad_deflate(reason: &String) -> (said: String)
    ensures
        said@ == told(Fault::Deflate(reason@)),
{
    let mut said = String::from_str("deflate stream: ");
    said.append(reason.as_str());
    said
}

/// The words for a block that unpacked to another length than promised.
pub fn wrong_length(held: usize, promised: usize) -> (said: String)
    ensures
        said@ == told(Fault::Length(held as nat, promised as nat)),
{
    let mut said = text::phrase("block holds ", held as u64);
    said.append(" bytes but its header promised ");
    text::push_decimal(&mut said, promised as u64);
    said
}

} // verus!
