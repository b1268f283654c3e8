//! Binary patches between single files.

use vstd::prelude::*;

verus! {

/// The patch that diffing `old` against `new` with default parameters
/// yields; a function of the two byte strings alone.
pub uninterp spec fn patch_of(old: Seq<u8>, new: Seq<u8>) -> Seq<u8>;

/// What applying a binary patch to a source yields, if anything; a function
/// of patch bytes and source bytes alone.
pub uninterp spec fn patch_apply_of(patch: Seq<u8>, source: Seq<u8>) -> Option<Seq<u8>>;

/// Relies on bidiff::simple_diff_with_params with default parameters (one
/// sort partition, unchunked): the patch is a function of the two inputs,
/// and applying it (through bipatch) to `old` reproduces `new`.
#[verifier::external_body]
pub fn make_patch(old: &Vec<u8>, new: &Vec<u8>) -> (r: Vec<u8>)
    ensures
        r@ == patch_of(old@, new@),
        patch_apply_of(r@, old@) == Some(new@),
{
    let mut patch = Vec::new();
    bidiff::simple_diff_with_params(
        old.as_slice(),
        new.as_slice(),
        &mut patch,
        &bidiff::DiffParams::default(),
    ).expect("generating diff failed");
    patch
}

/// Relies on bipatch::Reader: deterministic application of a patch to a
/// source, failing exactly when the patch does not decode against it.
#[verifier::external_body]
pub fn apply_patch(patch: &Vec<u8>, source: &Vec<u8>) -> (r: Option<Vec<u8>>)
    ensures
        match r {
            Some(v) => patch_apply_of(patch@, source@) == Some(v@),
            None => patch_apply_of(patch@, source@) is None,
        },
{
    let p = std::io::Cursor::new(patch.as_slice());
    let s = std::io::Cursor::new(source.as_slice());
    let mut reader = match bipatch::Reader::new(p, s) {
        Ok(x) => x,
        Err(_) => {
            return None;
        },
    };
    let mut out = Vec::new();
    match std::io::Read::read_to_end(&mut reader, &mut out) {
        Ok(_) => Some(out),
        Err(_) => None,
    }
}

} // verus!
