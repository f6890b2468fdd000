//! How the payload of a block is packed.

use super::fault;
use super::fault::Fault;
use super::heatshrink;
use vstd::prelude::*;
use vstd::string::*;

verus! {

#[derive(Clone, Copy, Debug, PartialEq, Eq, Structural)]
pub enum Compression {
    /// Kept as it is.
    Stored,
    Deflate,
    Heatshrink11,
    Heatshrink12,
}

impl Compression {
    /// The number a block header names this compression by.
    pub open spec fn number(self) -> u16 {
        match self {
            Compression::Stored => 0,
            Compression::Deflate => 1,
            Compression::Heatshrink11 => 2,
            Compression::Heatshrink12 => 3,
        }
    }

    /// The compression a block header names.
    pub open spec fn numbered(code: u16) -> Option<Self> {
        if code == 0 {
            Some(Compression::Stored)
        } else if code == 1 {
            Some(Compression::Deflate)
        } else if code == 2 {
            Some(Compression::Heatshrink11)
        } else if code == 3 {
            Some(Compression::Heatshrink12)
        } else {
            None
        }
    }

    pub fn from_code(code: u16) -> (packing: Option<Self>)
        ensures
            packing == Self::numbered(code),
    {
        match code {
            0 => Some(Compression::Stored),
            1 => Some(Compression::Deflate),
            2 => Some(Compression::Heatshrink11),
            3 => Some(Compression::Heatshrink12),
            _ => None,
        }
    }

    pub fn code(self) -> (code: u16)
        ensures
            code == self.number(),
            Self::numbered(code) == Some(self),
    {
        match self {
            Compression::Stored => 0,
            Compression::Deflate => 1,
            Compression::Heatshrink11 => 2,
            Compression::Heatshrink12 => 3,
        }
    }
}

/// What a zlib stream inflates to, or the reason it does not.
pub uninterp spec fn inflated(stored: Seq<u8>) -> Result<Seq<u8>, Seq<char>>;

/// The zlib stream some bytes deflate to at the best level.
pub uninterp spec fn deflated(data: Seq<u8>) -> Seq<u8>;

/// Reads a `flate2::read::ZlibDecoder` over `stored` to its end. What comes out,
/// or the text of the error that stopped it, depends on the stored bytes alone;
/// bytes after the end of the stream are not looked at.
#[verifier::external_body]
fn inflate(stored: &[u8]) -> (made: Result<Vec<u8>, String>)
    ensures
        made is Ok == inflated(stored@) is Ok,
        made is Ok ==> inflated(stored@)->Ok_0 == made->Ok_0@,
        made is Err ==> inflated(stored@)->Err_0 == made->Err_0@,
{
    let mut data = Vec::new();
    let mut decoder = flate2::read::ZlibDecoder::new(stored);
    match std::io::Read::read_to_end(&mut decoder, &mut data) {
        Ok(_) => Ok(data),
        Err(error) => Err(error.to_string()),
    }
}

/// Reads a `flate2::read::ZlibEncoder` over `data`, at the best level, to its
/// end. Reading a slice and deflating it cannot fail. The stream depends on the
/// data alone, and inflates to it.
#[verifier::external_body]
fn deflate(data: &[u8]) -> (stored: Vec<u8>)
    ensures
        stored@ == deflated(data@),
        inflated(stored@) is Ok && inflated(stored@)->Ok_0 == data@,
{
    let mut stored = Vec::new();
    let mut encoder = flate2::read::ZlibEncoder::new(data, flate2::Compression::best());
    std::io::Read::read_to_end(&mut encoder, &mut stored).expect("deflating a slice cannot fail");
    stored
}

/// What a payload unpacks to before its length is held against the header.
pub open spec fn loosened(stored: Seq<u8>, packing: Compression, expected: nat) -> Result<
    Seq<u8>,
    Fault,
> {
    match packing {
        Compression::Stored => Ok(stored),
        Compression::Deflate => match inflated(stored) {
            Ok(data) => Ok(data),
            Err(reason) => Err(Fault::Deflate(reason)),
        },
        Compression::Heatshrink11 => match heatshrink::unpacked(
            stored,
            heatshrink::Params::W11,
            expected,
        ) {
            Some(data) => Ok(data),
            None => Err(Fault::Heatshrink),
        },
        Compression::Heatshrink12 => match heatshrink::unpacked(
            stored,
            heatshrink::Params::W12,
            expected,
        ) {
            Some(data) => Ok(data),
            None => Err(Fault::Heatshrink),
        },
    }
}

/// What a payload unpacks to: exactly the bytes the header promised, or a fault.
pub open spec fn unpacked(stored: Seq<u8>, packing: Compression, expected: nat) -> Result<
    Seq<u8>,
    Fault,
> {
    match loosened(stored, packing, expected) {
        Ok(data) => if data.len() == expected {
            Ok(data)
        } else {
            Err(Fault::Length(data.len(), expected))
        },
        Err(fault) => Err(fault),
    }
}

/// The payload some bytes are stored as.
pub open spec fn packed(data: Seq<u8>, packing: Compression) -> Seq<u8> {
    match packing {
        Compression::Stored => data,
        Compression::Deflate => deflated(data),
        Compression::Heatshrink11 => heatshrink::packed(data, heatshrink::Params::W11),
        Compression::Heatshrink12 => heatshrink::packed(data, heatshrink::Params::W12),
    }
}

/// Unpacks a payload whose header promised `expected` bytes.
pub fn decompress(stored: &[u8], packing: Compression, expected: usize) -> (data: Result<
    Vec<u8>,
    String,
>)
    ensures
        match data {
            Ok(data) => unpacked(stored@, packing, expected as nat) == Ok::<Seq<u8>, Fault>(data@),
            Err(reason) => {
                &&& unpacked(stored@, packing, expected as nat) is Err
                &&& reason@ == fault::told(unpacked(stored@, packing, expected as nat)->Err_0)
            },
        },
{
    let data: Vec<u8> = match packing {
        Compression::Stored => {
            let mut data = Vec::new();
            data.extend_from_slice(stored);
            assert(data@ =~= stored@);
            data
        },
        Compression::Deflate => match inflate(stored) {
            Ok(data) => data,
            Err(reason) => {
                return Err(fault::bad_deflate(&reason));
            },
        },
        Compression::Heatshrink11 => match heatshrink::decode(
            stored,
            heatshrink::Params::W11,
            expected,
        ) {
            Some(data) => data,
            None => {
                return Err(String::from_str("heatshrink stream ends early"));
            },
        },
        Compression::Heatshrink12 => match heatshrink::decode(
            stored,
            heatshrink::Params::W12,
            expected,
        ) {
            Some(data) => data,
            None => {
                return Err(String::from_str("heatshrink stream ends early"));
            },
        },
    };
    if data.len() != expected {
        return Err(fault::wrong_length(data.len(), expected));
    }
    Ok(data)
}

/// Packs bytes into a payload that unpacks to them.
pub fn compress(data: &[u8], packing: Compression) -> (stored: Vec<u8>)
    ensures
        stored@ == packed(data@, packing),
        unpacked(stored@, packing, data@.len()) == Ok::<Seq<u8>, Fault>(data@),
{
    match packing {
        Compression::Stored => {
            let mut stored = Vec::new();
            stored.extend_from_slice(data);
            assert(stored@ =~= data@);
            stored
        },
        Compression::Deflate => deflate(data),
        Compression::Heatshrink11 => heatshrink::encode(data, heatshrink::Params::W11),
        Compression::Heatshrink12 => heatshrink::encode(data, heatshrink::Params::W12),
    }
}

} // verus!
