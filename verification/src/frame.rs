use crate::rect::Rect;
use vstd::prelude::*;

verus! {

/// Where one packed image ended up: its key, the rectangle it occupies in the
/// atlas, whether it was placed sideways, and its own full-extent rectangle
/// (always `(0, 0, width, height)` of the source image; trimming is out of
/// scope, so `trimmed` is always false).
#[derive(Clone, Debug, PartialEq, Eq)]
pub struct Frame {
    pub key: String,
    pub frame: Rect,
    pub rotated: bool,
    pub trimmed: bool,
    pub source: Rect,
}

} // verus!
