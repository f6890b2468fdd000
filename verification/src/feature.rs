//! Slicer dialect handling.
//!
//! PrusaSlicer, SuperSlicer, OrcaSlicer, Bambu Studio and Cura all label the
//! same regions differently. Classifying the label directly means no slicer
//! detection pass and no per-slicer marker tables.

use crate::text;
use vstd::prelude::*;
use vstd::string::*;

verus! {

/// The regions this post-processor treats differently.
#[derive(Clone, Copy, Debug, Default, PartialEq, Eq, Structural)]
pub enum Feature {
    /// The visible outermost loop.
    ExternalPerimeter,
    /// Any hidden loop inside the external perimeter.
    InternalPerimeter,
    /// A stretch of wall printed over air. Slicers label it in place of the
    /// wall it belongs to, so it names a condition, never which wall this is,
    /// and it must not decide that a loop is the visible one.
    Overhang,
    /// Sparse internal infill.
    SparseInfill,
    /// Solid, top and bottom surfaces.
    SolidInfill,
    #[default]
    Other,
}

/// What follows `TYPE:` or `FEATURE:` in the text of a comment that starts
/// with one of them, whatever its case, white space before it aside.
pub open spec fn label(comment: Seq<u8>) -> Option<Seq<u8>> {
    let said = text::trim_start(comment);
    if text::at_fold(said, 0, text::bytes("TYPE:"@)) {
        Some(said.skip(text::bytes("TYPE:"@).len() as int))
    } else if text::at_fold(said, 0, text::bytes("FEATURE:"@)) {
        Some(said.skip(text::bytes("FEATURE:"@).len() as int))
    } else {
        None
    }
}

/// The region a label names, by the words in it.
pub open spec fn named(label: Seq<u8>) -> Feature {
    let says = |word: &str| text::has_fold(label, text::bytes(word@));
    if says("overhang") {
        Feature::Overhang
    } else if says("external perimeter") || says("outer wall") || says("wall-outer") {
        Feature::ExternalPerimeter
    } else if says("inner wall") || says("wall-inner") || says("perimeter") {
        Feature::InternalPerimeter
    } else if says("solid") || says("top surface") || says("bottom surface") || says("bridge")
        || says("skin") {
        Feature::SolidInfill
    } else if says("infill") || says("fill") {
        Feature::SparseInfill
    } else {
        Feature::Other
    }
}

/// The region the text of a comment marks.
pub open spec fn marked(comment: Seq<u8>) -> Option<Feature> {
    match label(comment) {
        Some(label) => Some(named(label)),
        None => None,
    }
}

/// The text after the `;` of a line that holds nothing but white space before
/// it.
pub open spec fn bare_comment(line: Seq<u8>) -> Option<Seq<u8>> {
    let said = text::trim_start(line);
    if said.len() > 0 && said[0] == 0x3b {
        Some(said.skip(1))
    } else {
        None
    }
}

/// The text of a comment marks a layer change: `LAYER_CHANGE` or
/// `CHANGE_LAYER` and nothing after it, or `LAYER:` and something after it.
pub open spec fn changes_layer(comment: Seq<u8>) -> bool {
    let said = text::trim_start(comment);
    ||| text::same_fold(said, text::bytes("LAYER_CHANGE"@))
    ||| text::same_fold(said, text::bytes("CHANGE_LAYER"@))
    ||| text::at_fold(said, 0, text::bytes("LAYER:"@)) && said.len() > text::bytes("LAYER:"@).len()
}

impl Feature {
    /// Classifies a `;TYPE:`, `; FEATURE:` or Cura `;TYPE:` region comment.
    /// Returns `None` for lines that are not region markers.
    pub fn from_comment(line: &str) -> (region: Option<Self>)
        ensures
            region == match bare_comment(text::bytes(line@)) {
                Some(comment) => marked(comment),
                None => None,
            },
    {
        let bytes = line.as_bytes();
        let at = text::skip_space(bytes, 0);
        if at < bytes.len() && bytes[at] == 0x3b {
            let comment = &bytes[at + 1..bytes.len()];
            assert(comment@ =~= text::trim_start(bytes@).skip(1));
            from_bytes(comment)
        } else {
            None
        }
    }

    /// Classifies a region marker from the text after its `;`.
    pub fn from_marker(comment: &str) -> (region: Option<Self>)
        ensures
            region == marked(text::bytes(comment@)),
    {
        from_bytes(comment.as_bytes())
    }

    pub fn is_perimeter(self) -> (wall: bool)
        ensures
            wall == (self is ExternalPerimeter || self is InternalPerimeter || self is Overhang),
    {
        matches!(
            self,
            Feature::ExternalPerimeter | Feature::InternalPerimeter | Feature::Overhang
        )
    }
}

/// The region the text of a comment marks.
pub fn from_bytes(comment: &[u8]) -> (region: Option<Feature>)
    ensures
        region == marked(comment@),
{
    match region_label(comment) {
        Some(label) => Some(classify(label)),
        None => None,
    }
}

/// What follows the key of a region marker.
pub fn region_label(comment: &[u8]) -> (found: Option<&[u8]>)
    ensures
        found is Some == label(comment@) is Some,
        found is Some ==> found->0@ == label(comment@)->0,
{
    let at = text::skip_space(comment, 0);
    let said = &comment[at..comment.len()];
    assert(said@ =~= text::trim_start(comment@));
    let key = "TYPE:".as_bytes();
    if text::stands_at(said, 0, key) {
        let tail = &said[key.len()..said.len()];
        assert(tail@ =~= said@.skip(key@.len() as int));
        return Some(tail);
    }
    let key = "FEATURE:".as_bytes();
    if text::stands_at(said, 0, key) {
        let tail = &said[key.len()..said.len()];
        assert(tail@ =~= said@.skip(key@.len() as int));
        return Some(tail);
    }
    None
}

/// The region a label names.
pub fn classify(label: &[u8]) -> (region: Feature)
    ensures
        region == named(label@),
{
    // Before the wall tests: `Overhang perimeter` carries both words.
    if text::holds(label, "overhang") {
        Feature::Overhang
    } else if text::holds(label, "external perimeter") || text::holds(label, "outer wall")
        || text::holds(label, "wall-outer") {
        Feature::ExternalPerimeter
    } else if text::holds(label, "inner wall") || text::holds(label, "wall-inner") || text::holds(
        label,
        "perimeter",
    ) {
        Feature::InternalPerimeter
    } else if text::holds(label, "solid") || text::holds(label, "top surface") || text::holds(
        label,
        "bottom surface",
    ) || text::holds(label, "bridge") || text::holds(label, "skin") {
        Feature::SolidInfill
    } else if text::holds(label, "infill") || text::holds(label, "fill") {
        Feature::SparseInfill
    } else {
        Feature::Other
    }
}

/// True for the layer-change markers emitted by common slicers: `;LAYER_CHANGE`
/// (PrusaSlicer, OrcaSlicer), `; CHANGE_LAYER` (Bambu Studio) and `;LAYER:<n>`
/// (Cura).
pub fn is_layer_change(line: &str) -> (changes: bool)
    ensures
        changes == match bare_comment(text::bytes(line@)) {
            Some(comment) => changes_layer(comment),
            None => false,
        },
{
    let bytes = line.as_bytes();
    let at = text::skip_space(bytes, 0);
    if at < bytes.len() && bytes[at] == 0x3b {
        let comment = &bytes[at + 1..bytes.len()];
        assert(comment@ =~= text::trim_start(bytes@).skip(1));
        marks_layer(comment)
    } else {
        false
    }
}

/// True for a layer-change marker given the text after its `;`.
pub fn is_layer_marker(comment: &str) -> (marks: bool)
    ensures
        marks == changes_layer(text::bytes(comment@)),
{
    marks_layer(comment.as_bytes())
}

/// True for a layer-change marker given the bytes after its `;`.
pub fn marks_layer(comment: &[u8]) -> (marks: bool)
    ensures
        marks == changes_layer(comment@),
{
    let at = text::skip_space(comment, 0);
    let said = &comment[at..comment.len()];
    assert(said@ =~= text::trim_start(comment@));
    let key = "LAYER:".as_bytes();
    text::equals_fold(said, "LAYER_CHANGE".as_bytes()) || text::equals_fold(
        said,
        "CHANGE_LAYER".as_bytes(),
    ) || (text::stands_at(said, 0, key) && said.len() > key.len())
}

/// The case a slicer writes a label in never changes the region it names.
pub proof fn case_never_decides_a_region(a: Seq<u8>, b: Seq<u8>)
    requires
        text::same_fold(a, b),
    ensures
        named(a) == named(b),
{
    assert forall|word: Seq<u8>| text::has_fold(a, word) == text::has_fold(b, word) by {
        if text::has_fold(a, word) {
            text::lemma_fold_moves(a, b, word);
        }
        if text::has_fold(b, word) {
            text::lemma_fold_moves(b, a, word);
        }
    }
}

/// A whole line that starts with its `;` says what the text after the `;`
/// says, both of a region and of a layer.
pub proof fn a_line_says_what_its_marker_says(line: Seq<u8>)
    requires
        line.len() > 0,
        line[0] == 0x3b,
    ensures
        bare_comment(line) == Some(line.skip(1)),
{
    assert(line.skip(0) =~= line);
}

} // verus!
