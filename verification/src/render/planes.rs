//! Getting at a decoded picture's two planes.
//!
//! A decoder hands back the same few textures over and over, so the views onto a picture's planes
//! are built the first time it is seen and found again after that. A decoder that does not create
//! its textures for sampling never will, which is discovered once rather than attempted for every
//! frame: from then on pictures are copied into a texture that can be sampled.
//!
//! What is here decides; building views and copying belong to the drawing API.

use vstd::prelude::*;

verus! {

/// How to get at a picture's planes.
#[derive(Debug, Clone, Copy, PartialEq, Eq, Structural)]
pub enum PlaneChoice {
    /// The views were built before, in this place.
    Known(usize),
    /// Build views onto the picture where it lies, and say whether that worked.
    Bind,
    /// Copy the picture somewhere that can be sampled.
    Copy,
}

/// Which pictures views have been built for.
#[derive(Debug)]
pub struct PlaneCache {
    bound: Vec<(usize, u32)>,
    copying: bool,
}

impl PlaneCache {
    /// The pictures, each a texture and the slice of it that the picture occupies, in the order
    /// their views were built.
    pub closed spec fn pictures(&self) -> Seq<(usize, u32)> {
        self.bound@
    }

    /// Whether pictures are copied.
    pub closed spec fn spec_copying(&self) -> bool {
        self.copying
    }

    /// Makes a cache of nothing.
    #[must_use]
    pub fn new() -> (cache: Self)
        ensures
            cache.pictures() == Seq::<(usize, u32)>::empty(),
            !cache.spec_copying(),
    {
        PlaneCache { bound: Vec::new(), copying: false }
    }

    /// Decides how to get at the planes of a picture.
    #[must_use]
    pub fn choose_for(&self, texture: usize, index: u32) -> (choice: PlaneChoice)
        ensures
            match choice {
                PlaneChoice::Copy => self.spec_copying(),
                PlaneChoice::Bind => !self.spec_copying() && !self.pictures().contains(
                    (texture, index),
                ),
                PlaneChoice::Known(place) => {
                    &&& !self.spec_copying()
                    &&& place < self.pictures().len()
                    &&& self.pictures()[place as int] == (texture, index)
                    &&& forall|i: int|
                        0 <= i < place ==> #[trigger] self.pictures()[i] != (texture, index)
                },
            },
    {
        if self.copying {
            return PlaneChoice::Copy;
        }
        let mut i: usize = 0;
        while i < self.bound.len()
            invariant
                !self.copying,
                i <= self.bound.len(),
                forall|j: int| 0 <= j < i ==> #[trigger] self.bound@[j] != (texture, index),
            decreases self.bound.len() - i,
        {
            if self.bound[i].0 == texture && self.bound[i].1 == index {
                return PlaneChoice::Known(i);
            }
            i = i + 1;
        }
        PlaneChoice::Bind
    }

    /// Remembers that views were built for a picture, and returns the place they are found in.
    pub fn bound(&mut self, texture: usize, index: u32) -> (place: usize)
        ensures
            place == old(self).pictures().len(),
            final(self).pictures() == old(self).pictures().push((texture, index)),
            final(self).spec_copying() == old(self).spec_copying(),
    {
        let place: usize = self.bound.len();
        self.bound.push((texture, index));
        place
    }

    /// Remembers that views cannot be built, so that it is never tried again.
    pub fn refused(&mut self)
        ensures
            final(self).spec_copying(),
            final(self).pictures() == old(self).pictures(),
    {
        self.copying = true;
    }
}

impl Default for PlaneCache {
    fn default() -> (cache: Self)
        ensures
            cache.pictures() == Seq::<(usize, u32)>::empty(),
            !cache.spec_copying(),
    {
        PlaneCache::new()
    }
}

/// A length that is never nothing.
pub open spec fn something(length: u32) -> u32 {
    if length == 0 {
        1
    } else {
        length
    }
}

/// Returns the size a target is to be given, or `None` where it has it already. No target is
/// without area.
#[must_use]
pub fn resized(width: u32, height: u32, asked_width: u32, asked_height: u32) -> (size: Option<
    (u32, u32),
>)
    ensures
        size == (if something(asked_width) == width && something(asked_height) == height {
            None
        } else {
            Some((something(asked_width), something(asked_height)))
        }),
{
    let wide: u32 = if asked_width == 0 {
        1
    } else {
        asked_width
    };
    let tall: u32 = if asked_height == 0 {
        1
    } else {
        asked_height
    };
    if wide == width && tall == height {
        None
    } else {
        Some((wide, tall))
    }
}

/// Returns whether a bitmap of `len` bytes is the size its dimensions say, at four bytes a pixel.
#[must_use]
pub fn bitmap_fits(len: usize, width: u32, height: u32) -> (fits: bool)
    ensures
        fits == (len == width * height * 4),
{
    assert(width * height * 4 <= 0xffff_ffff * 0xffff_ffff * 4) by (nonlinear_arith)
        requires
            width <= 0xffff_ffff,
            height <= 0xffff_ffff,
    ;
    assert(width * height <= 0xffff_ffff * 0xffff_ffff) by (nonlinear_arith)
        requires
            width <= 0xffff_ffff,
            height <= 0xffff_ffff,
    ;
    len as u128 == width as u128 * height as u128 * 4
}

} // verus!
