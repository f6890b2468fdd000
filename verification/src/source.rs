//! A G-code file, and which container a rewrite of it has to go back into.

use crate::bgcode;
use crate::bgcode::chain;
use crate::bgcode::fault;
use crate::bgcode::Container;
use crate::double::Double;
use crate::error::Error;
use crate::text;
use vstd::prelude::*;
use vstd::string::*;

verus! {

/// A G-code file: where to read it from, and which container a rewrite has to
/// go back into.
///
/// The transform needs a survey of the whole file before it can rewrite any of
/// it, so the input is read twice. Plain text is re-read from the disk and never
/// held in memory. Binary G-code is decoded once and kept, because its blocks
/// have to be unpacked before a single line can be read; that costs the size of
/// the decoded G-code and nothing more, since the rewrite still streams back
/// out.
#[derive(Clone, Debug)]
pub struct Source {
    pub path: String,
    pub kind: Kind,
}

#[derive(Clone, Debug)]
pub enum Kind {
    Text,
    Binary { container: Container, gcode: String },
}

impl Source {
    /// Opens a file by its first bytes: as text where they are not a container's
    /// magic number, and otherwise as the container that all of its bytes make
    /// up.
    pub fn open(path: String, bytes: &[u8]) -> (source: Result<Self, Error>)
        ensures
            source is Ok == (!chain::magic(bytes@) || (bgcode::opened(bytes@) is Ok
                && bgcode::gcode(bytes@, (bgcode::opened(bytes@)->Ok_0).1).1 is None)),
            source is Ok ==> {
                &&& source->Ok_0.path@ == path@
                &&& source->Ok_0.kind is Text == !chain::magic(bytes@)
                &&& source->Ok_0.kind matches Kind::Binary { container, gcode } ==> {
                    let raw = bgcode::gcode(bytes@, container.checksums).0;
                    &&& container.version == (bgcode::opened(bytes@)->Ok_0).0
                    &&& container.checksums == (bgcode::opened(bytes@)->Ok_0).1
                    &&& container.kept() == (bgcode::opened(bytes@)->Ok_0).2
                    &&& container.sound()
                    &&& gcode@ == text::repaired(raw)
                    &&& vstd::utf8::valid_utf8(raw) ==> gcode@ == vstd::utf8::decode_utf8(raw)
                }
            },
            source is Err ==> {
                &&& source->Err_0 matches Error::Bgcode { path: named, reason }
                &&& named@ == path@
                &&& reason@ == match bgcode::opened(bytes@) {
                    Err(fault) => fault::told(fault),
                    Ok((_, checksums, _)) => fault::damage(bgcode::gcode(bytes@, checksums).1->0),
                }
            },
    {
        if !bgcode::is_binary(bytes) {
            return Ok(Source { path, kind: Kind::Text });
        }
        match bgcode::parse(bytes) {
            Ok((container, gcode)) => Ok(Source { path, kind: Kind::Binary { container, gcode } }),
            Err(reason) => Err(Error::Bgcode { path, reason }),
        }
    }

    pub fn path(&self) -> (path: &str)
        ensures
            path@ == self.path@,
    {
        self.path.as_str()
    }

    pub fn is_binary(&self) -> (binary: bool)
        ensures
            binary == self.kind is Binary,
    {
        matches!(self.kind, Kind::Binary { .. })
    }

    /// The container the file came in, for a binary file only.
    pub fn container(&self) -> (container: Option<&Container>)
        ensures
            container == match self.kind {
                Kind::Text => None,
                Kind::Binary { container, .. } => Some(&container),
            },
    {
        match &self.kind {
            Kind::Text => None,
            Kind::Binary { container, .. } => Some(container),
        }
    }

    /// The decoded G-code, for a binary container only.
    pub fn decoded(&self) -> (gcode: Option<&str>)
        ensures
            gcode is Some == self.kind is Binary,
            self.kind matches Kind::Binary { gcode: held, .. } ==> gcode->0@ == held@,
    {
        match &self.kind {
            Kind::Text => None,
            Kind::Binary { gcode, .. } => Some(gcode.as_str()),
        }
    }
}

/// Which of some values is the first that is a height.
pub open spec fn first_height(values: Seq<Option<Double>>, from: int) -> Option<Double>
    decreases values.len() - from,
{
    if !(0 <= from < values.len()) {
        None
    } else if values[from] is Some && values[from]->0.height() {
        values[from]
    } else {
        first_height(values, from + 1)
    }
}

/// The layer height a file states about itself, given the numbers its metadata
/// blocks state in turn. Plain G-code carries it as a comment the survey already
/// sees; binary G-code keeps it in a metadata block, outside the G-code stream.
/// A value that is not a height is no better than a missing one.
pub fn layer_height(stated: &Vec<Option<Double>>) -> (height: Option<Double>)
    ensures
        height == first_height(stated@, 0),
{
    let mut i: usize = 0;
    while i < stated.len()
        invariant
            i <= stated@.len(),
            first_height(stated@, 0) == first_height(stated@, i as int),
        decreases stated@.len() - i,
    {
        match stated[i] {
            Some(value) => {
                if value.is_a_height() {
                    return Some(value);
                }
            },
            None => {},
        }
        i = i + 1;
    }
    None
}

} // verus!
