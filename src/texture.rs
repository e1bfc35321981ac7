use vstd::prelude::*;

verus! {

/// A decoded raster image used as a texture: `depth` channel bytes per
/// texel, texels row by row from the top.
pub struct ImageTexture {
    width: usize,
    height: usize,
    depth: usize,
    data: Vec<u8>,
}

/// Byte offset of texel `(x, y)` in an image `w` texels wide with `d`
/// channels.
pub open spec fn texel_offset(w: int, d: int, x: int, y: int) -> int {
    y * (w * d) + x * d
}

impl ImageTexture {
    pub closed spec fn spec_width(&self) -> usize {
        self.width
    }

    pub closed spec fn spec_height(&self) -> usize {
        self.height
    }

    pub closed spec fn spec_depth(&self) -> usize {
        self.depth
    }

    pub closed spec fn bytes(&self) -> Seq<u8> {
        self.data@
    }

    /// The image is non-empty and its bytes match its dimensions.
    pub open spec fn wf(&self) -> bool {
        &&& self.spec_width() > 0
        &&& self.spec_height() > 0
        &&& self.bytes().len() == self.spec_width() * self.spec_height() * self.spec_depth()
    }

    /// Wraps decoded pixels; `None` when the image is empty or `data` does not
    /// hold `width * height * depth` bytes.
    pub fn from_pixels(width: usize, height: usize, depth: usize, data: Vec<u8>) -> (r: Option<
        ImageTexture,
    >)
        ensures
            r is Some <==> (width > 0 && height > 0 && data@.len() == width * height * depth),
            r matches Some(t) ==> t.wf() && t.spec_width() == width && t.spec_height() == height
                && t.spec_depth() == depth && t.bytes() == data@,
    {
        if width == 0 || height == 0 {
            return None;
        }
        let len = data.len();
        match width.checked_mul(height) {
            None => {
                if depth > 0 {
                    proof {
                        assert(width * height * depth >= width * height) by (nonlinear_arith)
                            requires width > 0, height > 0, depth > 0;
                    }
                    None
                } else {
                    proof {
                        assert(width * height * depth == 0) by (nonlinear_arith)
                            requires depth == 0;
                    }
                    if len == 0 {
                        Some(ImageTexture { width, height, depth, data })
                    } else {
                        None
                    }
                }
            },
            Some(area) => match area.checked_mul(depth) {
                None => None,
                Some(n) => {
                    if n == len {
                        Some(ImageTexture { width, height, depth, data })
                    } else {
                        None
                    }
                },
            },
        }
    }

    pub fn width(&self) -> (r: usize)
        ensures
            r == self.spec_width(),
    {
        self.width
    }

    pub fn height(&self) -> (r: usize)
        ensures
            r == self.spec_height(),
    {
        self.height
    }

    /// The channel bytes of texel `pos`.
    pub fn get_color(&self, pos: (usize, usize)) -> (r: Vec<u8>)
        requires
            self.wf(),
            pos.0 < self.spec_width(),
            pos.1 < self.spec_height(),
        ensures
            ({
                let o = texel_offset(
                    self.spec_width() as int,
                    self.spec_depth() as int,
                    pos.0 as int,
                    pos.1 as int,
                );
                r@ == self.bytes().subrange(o, o + self.spec_depth())
            }),
    {
        let ghost (w, h, d) = (self.width as int, self.height as int, self.depth as int);
        let len = self.data.len();
        proof {
            let (x, y) = (pos.0 as int, pos.1 as int);
            assert(y * (w * d) + x * d + d <= w * h * d) by (nonlinear_arith)
                requires 0 <= x < w, 0 <= y < h, 0 <= d;
            assert(0 <= y * (w * d) && 0 <= x * d && 0 <= w * d) by (nonlinear_arith)
                requires 0 <= x, 0 <= y, 0 <= d, 0 <= w;
            assert(w * d <= w * h * d) by (nonlinear_arith)
                requires 0 < w, 0 < h, 0 <= d;
            assert(w * h * d <= usize::MAX);
        }
        let idx = pos.1 * (self.width * self.depth) + pos.0 * self.depth;
        let mut color: Vec<u8> = Vec::new();
        let mut i: usize = 0;
        while i < self.depth
            invariant
                self.wf(),
                d == self.depth,
                idx + d <= self.data@.len(),
                len == self.data@.len(),
                i <= d,
                color@ == self.data@.subrange(idx as int, idx + i),
            decreases d - i,
        {
            color.push(self.data[idx + i]);
            proof {
                assert(color@ =~= self.data@.subrange(idx as int, idx + i + 1));
            }
            i = i + 1;
        }
        color
    }

    /// The texel nearest to the raw texel coordinates `(i, j)`, clamped to
    /// the image.
    pub fn clamp_texel(&self, i: usize, j: usize) -> (r: (usize, usize))
        requires
            self.wf(),
        ensures
            r.0 == if i < self.spec_width() {
                i
            } else {
                (self.spec_width() - 1) as usize
            },
            r.1 == if j < self.spec_height() {
                j
            } else {
                (self.spec_height() - 1) as usize
            },
    {
        let x = if i < self.width {
            i
        } else {
            self.width - 1
        };
        let y = if j < self.height {
            j
        } else {
            self.height - 1
        };
        (x, y)
    }
}

} // verus!
