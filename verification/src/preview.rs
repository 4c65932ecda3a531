//! Single-slot memo for the interactive preview.
//!
//! The live view recomputes a difference image only when the cursor moved to
//! a new position; for unrelated control changes the cached image is reused.
//! The key is the cursor position alone: parameters that change the meaning
//! of the cached image (threshold, step, display mode) are not part of the
//! key, so every setter of those must invalidate the slot.
use crate::GrayImage;
use vstd::prelude::*;

verus! {

/// A single-slot cache holding the difference image last computed, keyed by
/// the cursor position it was computed for.
#[derive(Debug)]
pub struct PreviewCache {
    pub slot: Option<(usize, GrayImage)>,
}

impl PreviewCache {
    /// An empty cache.
    pub fn new() -> (r: PreviewCache)
        ensures
            r.slot.is_none(),
    {
        PreviewCache { slot: None }
    }

    /// The cached image: a hit exactly when the stored key equals
    /// `position`, and then the stored image itself.
    pub fn get(&self, position: usize) -> (r: Option<&GrayImage>)
        ensures
            r.is_some() <==> (self.slot.is_some() && self.slot.unwrap().0 == position),
            r.is_some() ==> *r.unwrap() == self.slot.unwrap().1,
    {
        match &self.slot {
            Some(entry) => {
                if entry.0 == position {
                    Some(&entry.1)
                } else {
                    None
                }
            },
            None => None,
        }
    }

    /// Stores the image computed for `position`, replacing whatever the
    /// slot held.
    pub fn store(&mut self, position: usize, image: GrayImage)
        ensures
            final(self).slot == Some((position, image)),
    {
        self.slot = Some((position, image));
    }

    /// Clears the slot unconditionally.  Callers invoke this whenever the
    /// threshold, the frame step or the display mode changes.
    pub fn invalidate(&mut self)
        ensures
            final(self).slot.is_none(),
    {
        self.slot = None;
    }
}

} // verus!
