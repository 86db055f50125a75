//! Which files make up a burst.
use crate::burst::same_text;
use crate::burst::BurstFrame;
use vstd::prelude::*;

verus! {

/// The least number of frames that makes a burst: a reference and an alternate.
pub const MIN_FRAMES: usize = 2;

/// What `str::to_lowercase` makes of a text.
pub uninterp spec fn lowercase(text: Seq<char>) -> Seq<char>;

/// Calls `str::to_lowercase`. Taken on trust: what comes out depends on the
/// text alone.
#[verifier::external_body]
fn to_lowercase(text: &str) -> (lower: String)
    ensures
        lower@ == lowercase(text@),
{
    text.to_lowercase()
}

/// Is this the extension of a raw file, in lower case?
pub open spec fn is_raw_suffix(suffix: Seq<char>) -> bool {
    ||| suffix == "dng"@
    ||| suffix == "cr2"@
    ||| suffix == "nef"@
    ||| suffix == "arw"@
    ||| suffix == "rw2"@
}

/// Is this the extension of a raw file, in lower case?
pub fn has_raw_suffix(suffix: &str) -> (b: bool)
    ensures
        b == is_raw_suffix(suffix@),
{
    same_text(suffix, "dng") || same_text(suffix, "cr2") || same_text(suffix, "nef") || same_text(
        suffix,
        "arw",
    ) || same_text(suffix, "rw2")
}

/// Is this the extension of a raw file, in any case?
pub fn is_raw_extension(extension: &str) -> (b: bool)
    ensures
        b == is_raw_suffix(lowercase(extension@)),
{
    has_raw_suffix(to_lowercase(extension).as_str())
}

/// Does a frame have another size than the reference?
pub open spec fn differs_in_size<T>(reference: BurstFrame<T>, frame: BurstFrame<T>) -> bool {
    frame.height != reference.height || frame.width != reference.width
}

/// `misfit` is the index of the first frame that has another size than the first one,
/// if there is one.
pub open spec fn is_first_misfit<T>(frames: Seq<BurstFrame<T>>, misfit: Option<usize>) -> bool {
    match misfit {
        Some(index) => exists|i: int|
            {
                &&& 0 < i < frames.len()
                &&& differs_in_size(frames[0], #[trigger] frames[i])
                &&& index == frames[i].frame_index
                &&& forall|j: int|
                    0 < j < i ==> !differs_in_size(frames[0], #[trigger] frames[j])
            },
        None => forall|j: int|
            0 < j < frames.len() ==> !differs_in_size(frames[0], #[trigger] frames[j]),
    }
}

/// The index of the first frame that has another size than the first one.
pub fn first_misfit<T>(frames: &[BurstFrame<T>]) -> (misfit: Option<usize>)
    requires
        frames@.len() >= 1,
    ensures
        is_first_misfit(frames@, misfit),
{
    let mut i: usize = 1;
    while i < frames.len()
        invariant
            1 <= i <= frames@.len(),
            forall|j: int| 0 < j < i ==> !differs_in_size(frames@[0], #[trigger] frames@[j]),
        decreases frames.len() - i,
    {
        if frames[i].height != frames[0].height || frames[i].width != frames[0].width {
            assert(differs_in_size(frames@[0], frames@[i as int]));
            return Some(frames[i].frame_index);
        }
        i = i + 1;
    }
    None
}

} // verus!
