//! Read-only RGBA8 pixel buffers and nearest-texel lookup.

use vstd::prelude::*;

verus! {

/// An RGBA8 image borrowed for the length of a render: `w` by `h` pixels,
/// row-major from the top-left corner, four bytes per pixel.
#[derive(Clone, Copy)]
pub struct Tex<'a> {
    pub pix: &'a [u8],
    pub w: u32,
    pub h: u32,
}

impl<'a> Tex<'a> {
    /// The buffer holds exactly the pixels that its dimensions declare.
    pub open spec fn dims_match(&self) -> bool {
        self.pix@.len() == 4 * self.w * self.h
    }

    /// Byte offset of the pixel at column `px` and row `py`.
    pub open spec fn texel_offset(&self, px: int, py: int) -> int {
        4 * (py * self.w + px)
    }

    /// The texel at column `px`, row `py` can be read: the buffer's length
    /// matches its dimensions and the pixel lies inside them.
    pub open spec fn has_texel(&self, px: int, py: int) -> bool {
        &&& self.dims_match()
        &&& 0 <= px < self.w
        &&& 0 <= py < self.h
    }

    /// RGB bytes of the texel at column `px`, row `py` (alpha is dropped),
    /// or `None` where that texel cannot be read and the caller falls back
    /// to its own colour.
    pub fn texel(&self, px: u32, py: u32) -> (r: Option<[u8; 3]>)
        ensures
            r is Some <==> self.has_texel(px as int, py as int),
            r matches Some(t) ==> t@ == self.pix@.subrange(
                self.texel_offset(px as int, py as int),
                self.texel_offset(px as int, py as int) + 3,
            ),
    {
        if px >= self.w || py >= self.h {
            return None;
        }
        let w = self.w as u64;
        let h = self.h as u64;
        assert(w * h <= 0xffff_ffff_ffff_ffff) by (nonlinear_arith)
            requires w <= 0xffff_ffff, h <= 0xffff_ffff;
        let pixels: u64 = w * h;
        let n: usize = self.pix.len();
        assert(4 * self.w * self.h == 4 * pixels) by (nonlinear_arith)
            requires pixels == w * h, w == self.w, h == self.h;
        if pixels > (usize::MAX / 4) as u64 {
            // no buffer in memory is that large
            assert(4 * pixels > usize::MAX);
            return None;
        }
        let len: usize = pixels as usize * 4;
        if n != len {
            return None;
        }
        let row: u64 = py as u64;
        let col: u64 = px as u64;
        assert(row * w + col < w * h) by (nonlinear_arith)
            requires row < h, col < w;
        let idx: usize = ((row * w + col) as usize) * 4;
        assert(idx + 3 < self.pix@.len());
        let t: [u8; 3] = [self.pix[idx], self.pix[idx + 1], self.pix[idx + 2]];
        assert(t@ =~= self.pix@.subrange(idx as int, idx + 3));
        Some(t)
    }
}

} // verus!
