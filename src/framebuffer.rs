use vstd::prelude::*;

verus! {

/// A rectangular block of pixels: `size.0` columns starting at column
/// `pos.0`, `size.1` rows starting at row `pos.1`.
#[derive(Clone, Copy, Debug, PartialEq, Eq)]
pub struct Grid {
    pub pos: (u32, u32),
    pub size: (u32, u32),
}

impl Grid {
    /// The grid fits in the `u32` coordinate space.
    pub open spec fn wf(self) -> bool {
        self.pos.0 + self.size.0 <= u32::MAX && self.pos.1 + self.size.1 <= u32::MAX
    }

    /// Whether pixel `p` lies inside the grid.
    pub open spec fn contains(self, p: (u32, u32)) -> bool {
        &&& self.pos.0 <= p.0 < self.pos.0 + self.size.0
        &&& self.pos.1 <= p.1 < self.pos.1 + self.size.1
    }

    /// Number of pixels of the grid.
    pub open spec fn area(self) -> int {
        self.size.0 * self.size.1
    }

    /// The pixel at column offset `dx` and row offset `dy`.
    pub open spec fn cell(self, dx: int, dy: int) -> (u32, u32) {
        ((self.pos.0 + dx) as u32, (self.pos.1 + dy) as u32)
    }

    /// All pixels of the grid, column by column: the pixel at column offset
    /// `dx` and row offset `dy` comes at index `dx * size.1 + dy`.
    pub fn iter(&self) -> (r: Vec<(u32, u32)>)
        requires
            self.wf(),
        ensures
            r@.len() == self.area(),
            forall|dx: int, dy: int|
                0 <= dx < self.size.0 && 0 <= dy < self.size.1 ==> #[trigger] r@[dx * self.size.1 + dy]
                    == self.cell(dx, dy),
            forall|p: (u32, u32)| r@.contains(p) <==> self.contains(p),
    {
        let mut res: Vec<(u32, u32)> = Vec::new();
        let mut x: u32 = self.pos.0;
        let ghost h = self.size.1 as int;
        while x < self.pos.0 + self.size.0
            invariant
                self.wf(),
                h == self.size.1,
                self.pos.0 <= x <= self.pos.0 + self.size.0,
                res@.len() == (x - self.pos.0) * h,
                forall|dx: int, dy: int|
                    0 <= dx < x - self.pos.0 && 0 <= dy < h ==> #[trigger] res@[dx * h + dy]
                        == self.cell(dx, dy),
            decreases self.pos.0 + self.size.0 - x,
        {
            let ghost col = x - self.pos.0;
            let ghost before = res@;
            let mut y: u32 = self.pos.1;
            while y < self.pos.1 + self.size.1
                invariant
                    self.wf(),
                    h == self.size.1,
                    col == x - self.pos.0,
                    0 <= col < self.size.0,
                    self.pos.1 <= y <= self.pos.1 + self.size.1,
                    res@.len() == col * h + (y - self.pos.1),
                    res@.subrange(0, col * h) == before,
                    forall|dy: int| 0 <= dy < y - self.pos.1 ==> #[trigger] res@[col * h + dy] == self.cell(col, dy),
                decreases self.pos.1 + self.size.1 - y,
            {
                proof {
                    assert(before.len() == col * h);
                }
                res.push((x, y));
                proof {
                    assert(res@.subrange(0, col * h) =~= before);
                }
                y = y + 1;
            }
            proof {
                assert forall|dx: int, dy: int| 0 <= dx < col + 1 && 0 <= dy < h implies #[trigger] res@[dx * h + dy]
                    == self.cell(dx, dy) by {
                    if dx < col {
                        lemma_row_major_bound(dx, dy, col, h);
                        assert(res@[dx * h + dy] == res@.subrange(0, col * h)[dx * h + dy]);
                    }
                }
                assert(res@.len() == (col + 1) * h) by (nonlinear_arith)
                    requires res@.len() == col * h + h;
            }
            x = x + 1;
        }
        proof {
            assert(res@.len() == self.size.0 * h);
            assert forall|p: (u32, u32)| res@.contains(p) <==> self.contains(p) by {
                if res@.contains(p) {
                    let k = choose|k: int| 0 <= k < res@.len() && res@[k] == p;
                    lemma_split_index(k, self.size.0 as int, h);
                    assert(res@[(k / h) * h + k % h] == self.cell(k / h, k % h));
                }
                if self.contains(p) {
                    let dx = p.0 - self.pos.0;
                    let dy = p.1 - self.pos.1;
                    lemma_row_major_bound(dx, dy, self.size.0 as int, h);
                    assert(res@[dx * h + dy] == self.cell(dx, dy));
                }
            }
        }
        res
    }
}

/// In a row-major layout with rows of length `w`, an entry of an earlier
/// row lies before row `r`.
pub proof fn lemma_row_major_bound(i: int, j: int, r: int, w: int)
    requires
        0 <= i < r,
        0 <= j < w,
    ensures
        0 <= i * w + j < r * w,
{
    assert(0 <= i * w) by (nonlinear_arith)
        requires 0 <= i, 0 <= w;
    assert(i * w + w <= r * w) by (nonlinear_arith)
        requires i + 1 <= r, 0 <= w;
}


/// Number of tiles of side `ts` needed to cover `n` pixels along one axis.
pub open spec fn tiles_along(n: int, ts: int) -> int {
    (n + ts - 1) / ts
}

/// The pixels that tile `i` covers along an axis of `n` pixels, as the
/// start and the length: a full side `ts`, clipped at the image border.
pub open spec fn tile_len(n: int, ts: int, i: int) -> int {
    if ts < n - i * ts {
        ts
    } else {
        n - i * ts
    }
}

/// The tile in column `i` and row `j` of the tiling of a `w` x `h` image
/// into squares of side `ts`.
pub open spec fn tile_at(w: int, h: int, ts: int, i: int, j: int) -> Grid {
    Grid {
        pos: ((i * ts) as u32, (j * ts) as u32),
        size: (tile_len(w, ts, i) as u32, tile_len(h, ts, j) as u32),
    }
}

/// All tiles of a `w` x `h` image cut into squares of side `ts`, column of
/// tiles after column of tiles, each column top to bottom.
pub open spec fn tiling(w: int, h: int, ts: int) -> Seq<Grid> {
    let cy = tiles_along(h, ts);
    Seq::new((tiles_along(w, ts) * cy) as nat, |k: int| tile_at(w, h, ts, k / cy, k % cy))
}

/// An index below `a * b` splits into a row below `a` and a column below `b`.
pub proof fn lemma_split_index(k: int, a: int, b: int)
    requires
        0 <= a,
        0 <= k < a * b,
    ensures
        b > 0,
        0 <= k / b < a,
        0 <= k % b < b,
        k == (k / b) * b + k % b,
{
    if b <= 0 {
        assert(a * b <= 0) by (nonlinear_arith)
            requires b <= 0, 0 <= a;
    }
    vstd::arithmetic::div_mod::lemma_fundamental_div_mod(k, b);
    let q = k / b;
    let r = k % b;
    assert(q * b == b * q) by (nonlinear_arith);
    assert(0 <= q < a) by (nonlinear_arith)
        requires q * b + r == k, 0 <= r < b, 0 <= k < a * b, 0 < b;
}

/// A tile count along an axis is pinned down by the last tile start: the
/// `i` tiles reach the border and tile `i - 1` starts inside the image.
pub proof fn lemma_tiles_along(n: int, ts: int, i: int)
    requires
        0 <= n,
        0 < ts,
        0 <= i,
        n <= i * ts,
        i == 0 || (i - 1) * ts < n,
    ensures
        tiles_along(n, ts) == i,
{
    let q = (n + ts - 1) / ts;
    let r = (n + ts - 1) % ts;
    vstd::arithmetic::div_mod::lemma_fundamental_div_mod(n + ts - 1, ts);
    assert(0 <= r < ts);
    if i == 0 {
        assert(n == 0) by (nonlinear_arith)
            requires n <= i * ts, i == 0, 0 <= n;
        assert(q == 0) by (nonlinear_arith)
            requires q * ts + r == ts - 1, 0 <= r < ts, 0 < ts;
    } else {
        assert(i * ts <= q * ts + r < i * ts + ts) by (nonlinear_arith)
            requires
                q * ts + r == n + ts - 1,
                n <= i * ts,
                (i - 1) * ts < n,
                0 <= r < ts;
        if q < i {
            assert(q * ts + ts <= i * ts) by (nonlinear_arith)
                requires q + 1 <= i, 0 < ts;
        }
        if q > i {
            assert(i * ts + ts <= q * ts) by (nonlinear_arith)
                requires i + 1 <= q, 0 < ts;
        }
    }
}


/// Facts on one axis of a tiling: every tile starts inside the image and is
/// non-empty, and a pixel `p` lies in tile `i` exactly when `i == p / ts`.
pub proof fn lemma_tile_axis(n: int, ts: int, i: int, p: int)
    requires
        0 < ts,
        0 <= p < n,
        0 <= i < tiles_along(n, ts),
    ensures
        0 <= i * ts < n,
        0 < tile_len(n, ts, i) <= ts,
        (i * ts <= p < i * ts + tile_len(n, ts, i)) <==> i == p / ts,
        p / ts < tiles_along(n, ts),
{
    let c = tiles_along(n, ts);
    vstd::arithmetic::div_mod::lemma_fundamental_div_mod(n + ts - 1, ts);
    let r = (n + ts - 1) % ts;
    assert(c * ts + r == n + ts - 1);
    assert(0 <= i * ts) by (nonlinear_arith)
        requires 0 <= i, 0 < ts;
    assert(i * ts + ts <= c * ts) by (nonlinear_arith)
        requires i + 1 <= c, 0 < ts;
    vstd::arithmetic::div_mod::lemma_fundamental_div_mod(p, ts);
    let q = p / ts;
    let pr = p % ts;
    assert(q * ts + pr == p && 0 <= pr < ts);
    assert(0 <= q) by (nonlinear_arith)
        requires q * ts + pr == p, 0 <= p, pr < ts, 0 < ts;
    if q >= c {
        assert(c * ts <= q * ts) by (nonlinear_arith)
            requires c <= q, 0 < ts;
    }
    if i * ts <= p < i * ts + ts {
        if q < i {
            assert(q * ts + ts <= i * ts) by (nonlinear_arith)
                requires q + 1 <= i, 0 < ts;
        }
        if q > i {
            assert(i * ts + ts <= q * ts) by (nonlinear_arith)
                requires i + 1 <= q, 0 < ts;
        }
    }
}

/// The tiles of `split_to_tile` partition the image: pixel `(x, y)` lies in
/// tile `(i, j)` exactly when `i == x / ts` and `j == y / ts`, and that tile
/// exists. So no pixel is covered by two tiles, and none by no tile.
pub proof fn lemma_tiles_partition(w: u32, h: u32, ts: u32, x: u32, y: u32, i: int, j: int)
    requires
        ts > 0,
        x < w,
        y < h,
        0 <= i < tiles_along(w as int, ts as int),
        0 <= j < tiles_along(h as int, ts as int),
    ensures
        tile_at(w as int, h as int, ts as int, i, j).contains((x, y)) <==> (i == x / ts && j == y / ts),
        (x / ts) < tiles_along(w as int, ts as int),
        (y / ts) < tiles_along(h as int, ts as int),
{
    lemma_tile_axis(w as int, ts as int, i, x as int);
    lemma_tile_axis(h as int, ts as int, j, y as int);
}

#[verifier::external_type_specification]
#[verifier::external_body]
pub struct ExPpm(geefr_ppm::Ppm);

/// The bytes of a PPM image, three per pixel (red, green, blue), row by row.
pub uninterp spec fn ppm_bytes(p: geefr_ppm::Ppm) -> Seq<u8>;

/// The width in pixels that a PPM image was made with.
pub uninterp spec fn ppm_width(p: geefr_ppm::Ppm) -> nat;

/// Relies on geefr_ppm::Ppm::new: an image of `width` x `height` pixels whose
/// bytes are all zero.
pub assume_specification[ geefr_ppm::Ppm::new ](width: usize, height: usize) -> (r: geefr_ppm::Ppm)
    requires
        width * height * 3 <= usize::MAX,
    ensures
        ppm_width(r) == width,
        ppm_bytes(r) == Seq::new((width * height * 3) as nat, |i: int| 0u8),
;

/// Relies on geefr_ppm::Ppm::set_pixel: the three bytes at offset
/// `(y * width + x) * 3` become `r`, `g` and `b`; nothing else changes.
pub assume_specification[ geefr_ppm::Ppm::set_pixel ](
    ppm: &mut geefr_ppm::Ppm,
    x: usize,
    y: usize,
    r: u8,
    g: u8,
    b: u8,
)
    requires
        y * ppm_width(*old(ppm)) * 3 + x * 3 + 2 < ppm_bytes(*old(ppm)).len(),
    ensures
        ppm_width(*final(ppm)) == ppm_width(*old(ppm)),
        ppm_bytes(*final(ppm)) == ppm_bytes(*old(ppm)).update(
            y * ppm_width(*old(ppm)) * 3 + x * 3,
            r,
        ).update(y * ppm_width(*old(ppm)) * 3 + x * 3 + 1, g).update(
            y * ppm_width(*old(ppm)) * 3 + x * 3 + 2,
            b,
        ),
;

/// The image being rendered; pixel `(0, 0)` is the upper-left corner.
pub struct FrameBuffer {
    width: u32,
    height: u32,
    ppm: geefr_ppm::Ppm,
}

/// Byte offset of the red channel of pixel `(x, y)` in an image `w` wide.
pub open spec fn pixel_offset(w: int, x: int, y: int) -> int {
    (y * w + x) * 3
}

impl FrameBuffer {
    pub closed spec fn spec_width(&self) -> u32 {
        self.width
    }

    pub closed spec fn spec_height(&self) -> u32 {
        self.height
    }

    /// The encoded pixels, three bytes each, row by row.
    pub closed spec fn bytes(&self) -> Seq<u8> {
        ppm_bytes(self.ppm)
    }

    /// The pixel store matches the dimensions.
    pub closed spec fn wf(&self) -> bool {
        &&& ppm_width(self.ppm) == self.width
        &&& ppm_bytes(self.ppm).len() == self.width * self.height * 3
    }

    /// A black image of `width` x `height` pixels.
    pub fn new(width: u32, height: u32) -> (r: FrameBuffer)
        requires
            width * height * 3 <= usize::MAX,
        ensures
            r.wf(),
            r.spec_width() == width,
            r.spec_height() == height,
            r.bytes() == Seq::new((width * height * 3) as nat, |i: int| 0u8),
    {
        let ppm = geefr_ppm::Ppm::new(width as usize, height as usize);
        FrameBuffer { width, height, ppm }
    }

    pub fn width(&self) -> (r: u32)
        ensures
            r == self.spec_width(),
    {
        self.width
    }

    pub fn height(&self) -> (r: u32)
        ensures
            r == self.spec_height(),
    {
        self.height
    }

    /// The underlying image, for writing it out.
    pub fn ppm(&self) -> (r: &geefr_ppm::Ppm)
        ensures
            ppm_bytes(*r) == self.bytes(),
    {
        &self.ppm
    }

    /// Every pixel once, row by row: pixel `(x, y)` comes at index
    /// `y * width + x`.
    pub fn pixel_iter(&self) -> (r: Vec<(u32, u32)>)
        ensures
            r@.len() == self.spec_width() * self.spec_height(),
            forall|x: int, y: int|
                0 <= x < self.spec_width() && 0 <= y < self.spec_height() ==> #[trigger] r@[y
                    * self.spec_width() + x] == (x as u32, y as u32),
            forall|p: (u32, u32)|
                r@.contains(p) <==> p.0 < self.spec_width() && p.1 < self.spec_height(),
    {
        let mut res: Vec<(u32, u32)> = Vec::new();
        let ghost w = self.width as int;
        let mut y: u32 = 0;
        while y < self.height
            invariant
                w == self.width,
                y <= self.height,
                res@.len() == y * w,
                forall|x: int, yy: int|
                    0 <= x < w && 0 <= yy < y ==> #[trigger] res@[yy * w + x] == (x as u32, yy as u32),
            decreases self.height - y,
        {
            let ghost before = res@;
            let mut x: u32 = 0;
            while x < self.width
                invariant
                    w == self.width,
                    y < self.height,
                    x <= self.width,
                    res@.len() == y * w + x,
                    res@.subrange(0, y * w) == before,
                    before.len() == y * w,
                    forall|xx: int| 0 <= xx < x ==> #[trigger] res@[y * w + xx] == (xx as u32, y),
                decreases self.width - x,
            {
                res.push((x, y));
                proof {
                    assert(res@.subrange(0, y * w) =~= before);
                }
                x = x + 1;
            }
            proof {
                assert forall|xx: int, yy: int| 0 <= xx < w && 0 <= yy < y + 1 implies #[trigger] res@[yy * w
                    + xx] == (xx as u32, yy as u32) by {
                    if yy < y {
                        lemma_row_major_bound(yy, xx, y as int, w);
                        assert(res@[yy * w + xx] == res@.subrange(0, y * w)[yy * w + xx]);
                    }
                }
                assert(res@.len() == (y + 1) * w) by (nonlinear_arith)
                    requires res@.len() == y * w + w;
            }
            y = y + 1;
        }
        proof {
            assert(res@.len() == w * self.height) by (nonlinear_arith)
                requires res@.len() == y * w, y == self.height;
            assert forall|p: (u32, u32)| res@.contains(p) <==> p.0 < w && p.1 < self.height by {
                if res@.contains(p) {
                    let k = choose|k: int| 0 <= k < res@.len() && res@[k] == p;
                    lemma_split_index(k, self.height as int, w);
                    assert(res@[(k / w) * w + k % w] == ((k % w) as u32, (k / w) as u32));
                }
                if p.0 < w && p.1 < self.height {
                    lemma_row_major_bound(p.1 as int, p.0 as int, self.height as int, w);
                    assert(res@[p.1 * w + p.0] == (p.0, p.1));
                }
            }
        }
        res
    }

    /// Cuts the image into square tiles of side `tile_size`, the last tile of
    /// each row and column clipped to the border. Tile `(i, j)`, the `i`-th
    /// from the left and `j`-th from the top, comes at index
    /// `i * tiles_along(height, tile_size) + j`.
    pub fn split_to_tile(&self, tile_size: u32) -> (r: Vec<Grid>)
        requires
            tile_size > 0,
        ensures
            ({
                let (w, h, ts) = (self.spec_width() as int, self.spec_height() as int, tile_size as int);
                &&& r@ == tiling(w, h, ts)
                &&& r@.len() == tiles_along(w, ts) * tiles_along(h, ts)
                &&& forall|i: int, j: int|
                    0 <= i < tiles_along(w, ts) && 0 <= j < tiles_along(h, ts) ==> #[trigger] r@[i
                        * tiles_along(h, ts) + j] == tile_at(w, h, ts, i, j)
            }),
    {
        let ghost w = self.width as int;
        let ghost h = self.height as int;
        let ghost ts = tile_size as int;
        let ghost cy = tiles_along(h, ts);
        let mut tiles: Vec<Grid> = Vec::new();
        let mut x: u32 = 0;
        let ghost mut i: int = 0;
        while x < self.width
            invariant
                w == self.width,
                h == self.height,
                ts == tile_size,
                ts > 0,
                cy == tiles_along(h, ts),
                0 <= i,
                x <= self.width,
                x < self.width ==> x == i * ts,
                x == self.width ==> w <= i * ts,
                i == 0 || (i - 1) * ts < w,
                tiles@.len() == i * cy,
                forall|ii: int, j: int|
                    0 <= ii < i && 0 <= j < cy ==> #[trigger] tiles@[ii * cy + j] == tile_at(w, h, ts, ii, j),
            decreases self.width - x,
        {
            let ghost before = tiles@;
            let tile_width = if tile_size < self.width - x {
                tile_size
            } else {
                self.width - x
            };
            let mut y: u32 = 0;
            let ghost mut j: int = 0;
            while y < self.height
                invariant
                    w == self.width,
                    h == self.height,
                    ts == tile_size,
                    ts > 0,
                    cy == tiles_along(h, ts),
                    0 <= i,
                    x < self.width,
                    x == i * ts,
                    tile_width == tile_len(w, ts, i),
                    0 <= j,
                    y <= self.height,
                    y < self.height ==> y == j * ts,
                    y == self.height ==> h <= j * ts,
                    j == 0 || (j - 1) * ts < h,
                    before.len() == i * cy,
                    tiles@.len() == i * cy + j,
                    tiles@.subrange(0, i * cy) == before,
                    forall|jj: int| 0 <= jj < j ==> #[trigger] tiles@[i * cy + jj] == tile_at(w, h, ts, i, jj),
                decreases self.height - y,
            {
                let tile_height = if tile_size < self.height - y {
                    tile_size
                } else {
                    self.height - y
                };
                tiles.push(Grid { pos: (x, y), size: (tile_width, tile_height) });
                proof {
                    assert(tiles@.subrange(0, i * cy) =~= before);
                    assert(tiles@[i * cy + j] == tile_at(w, h, ts, i, j));
                    assert((j + 1) * ts == j * ts + ts) by (nonlinear_arith);
                }
                y = y + tile_height;
                proof {
                    j = j + 1;
                }
            }
            proof {
                lemma_tiles_along(h, ts, j);
                assert forall|ii: int, jj: int| 0 <= ii < i + 1 && 0 <= jj < cy implies #[trigger] tiles@[ii
                    * cy + jj] == tile_at(w, h, ts, ii, jj) by {
                    if ii < i {
                        lemma_row_major_bound(ii, jj, i, cy);
                        assert(tiles@[ii * cy + jj] == tiles@.subrange(0, i * cy)[ii * cy + jj]);
                    }
                }
                assert(tiles@.len() == (i + 1) * cy) by (nonlinear_arith)
                    requires tiles@.len() == i * cy + cy;
                assert((i + 1) * ts == i * ts + ts) by (nonlinear_arith);
            }
            x = x + tile_width;
            proof {
                i = i + 1;
            }
        }
        proof {
            lemma_tiles_along(w, ts, i);
            let cx = tiles_along(w, ts);
            assert forall|k: int| 0 <= k < cx * cy implies tiles@[k] == #[trigger] tiling(w, h, ts)[k] by {
                lemma_split_index(k, cx, cy);
                assert(tiles@[(k / cy) * cy + k % cy] == tile_at(w, h, ts, k / cy, k % cy));
            }
            assert(tiles@ =~= tiling(w, h, ts));
        }
        tiles
    }

    /// Stores the 8-bit encoded color `rgb` at pixel `pos`.
    pub fn put_rgb(&mut self, pos: (u32, u32), rgb: (u8, u8, u8))
        requires
            old(self).wf(),
            pos.0 < old(self).spec_width(),
            pos.1 < old(self).spec_height(),
        ensures
            final(self).wf(),
            final(self).spec_width() == old(self).spec_width(),
            final(self).spec_height() == old(self).spec_height(),
            ({
                let o = pixel_offset(old(self).spec_width() as int, pos.0 as int, pos.1 as int);
                final(self).bytes() == old(self).bytes().update(o, rgb.0).update(o + 1, rgb.1).update(
                    o + 2,
                    rgb.2,
                )
            }),
    {
        proof {
            let w = self.width as int;
            let h = self.height as int;
            let x = pos.0 as int;
            let y = pos.1 as int;
            assert(y * w * 3 + x * 3 + 2 < w * h * 3) by (nonlinear_arith)
                requires 0 <= x < w, 0 <= y < h;
            assert(y * w * 3 + x * 3 == (y * w + x) * 3) by (nonlinear_arith);
        }
        self.ppm.set_pixel(pos.0 as usize, pos.1 as usize, rgb.0, rgb.1, rgb.2);
    }
}

} // verus!
