//! A framebuffer addressed in centred coordinates.
use vstd::prelude::*;

verus! {

/// Pixels of `width * height` as `0x00RRGGBB` values, row after row from the
/// top.
pub struct Canvas {
    pub width: usize,
    pub height: usize,
    pub buffer: Vec<u32>,
}

/// Row of the buffer for centred `y` (up is positive).
pub open spec fn buffer_row(height: int, y: int) -> int {
    height - (y + height / 2)
}

/// Column of the buffer for centred `x`.
pub open spec fn buffer_column(width: int, x: int) -> int {
    x + width / 2
}

impl Canvas {
    pub open spec fn wf(&self) -> bool {
        self.buffer.len() == self.width * self.height
    }

    /// The buffer position of centred point `(x, y)`, if it lies on the
    /// canvas: `(0, 0)` is the centre, `y` grows upwards.
    pub open spec fn pixel_index(&self, x: int, y: int) -> Option<int> {
        let col = buffer_column(self.width as int, x);
        let row = buffer_row(self.height as int, y);
        if 0 <= col < self.width && 0 <= row < self.height {
            Some(row * self.width + col)
        } else {
            None
        }
    }

    /// A black canvas.
    pub fn new(width: usize, height: usize) -> (r: Canvas)
        requires
            width * height <= usize::MAX,
        ensures
            r.wf(),
            r.width == width,
            r.height == height,
            forall|i: int| 0 <= i < r.buffer.len() ==> r.buffer@[i] == 0,
    {
        Canvas { width, height, buffer: vec![0; width * height] }
    }

    /// Sets the pixel at centred point `(x, y)`; points off the canvas are
    /// ignored.
    pub fn put_pixel(&mut self, x: i32, y: i32, color: u32)
        requires
            old(self).wf(),
        ensures
            final(self).wf(),
            final(self).width == old(self).width,
            final(self).height == old(self).height,
            final(self).buffer@ == match old(self).pixel_index(x as int, y as int) {
                Some(i) => old(self).buffer@.update(i, color),
                None => old(self).buffer@,
            },
    {
        let w = self.width as i128;
        let h = self.height as i128;
        let col = x as i128 + w / 2;
        let row = h - (y as i128 + h / 2);
        if col < 0 || col >= w || row < 0 || row >= h {
            return;
        }
        let c = col as usize;
        let r = row as usize;
        proof {
            assert(r * self.width + c < self.width * self.height) by (nonlinear_arith)
                requires
                    r < self.height,
                    c < self.width,
            ;
        }
        self.buffer.set(r * self.width + c, color);
    }
}

} // verus!
