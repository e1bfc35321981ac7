use crate::framebuffer::{
    lemma_split_index, lemma_tiles_partition, tiles_along, tiling, FrameBuffer, Grid,
};
use vstd::prelude::*;

verus! {

/// How a material answered a ray that hit it.
#[derive(Clone, Copy, Debug, PartialEq, Eq, Structural)]
pub enum Scattered {
    /// No scattered ray: only the emitted light is seen.
    Absorbed,
    /// One deterministic reflected or refracted ray.
    Specular,
    /// A density over directions to draw the next ray from.
    Diffuse,
}

/// The next move of the radiance estimator for one ray.
#[derive(Clone, Copy, Debug, PartialEq, Eq, Structural)]
pub enum RadianceStep {
    /// The bounce budget is spent: the ray carries no light.
    Zero,
    /// The ray hit nothing: it carries the background.
    Background,
    /// The ray carries what the surface emits, nothing more.
    Emitted,
    /// Follow the specular ray and scale by the attenuation.
    FollowSpecular,
    /// Draw the next direction from an even mixture of the light sources'
    /// density and the material's density.
    SampleMixture,
    /// Draw the next direction from the material's density alone.
    SampleMaterial,
}

/// Decides how the estimator continues a ray that has `depth` bounces left,
/// given whether it hit a surface, how that surface scattered it, and
/// whether light sources are given to aim at.
pub fn radiance_step(depth: i32, hit: bool, scattered: Scattered, has_lights: bool) -> (r: RadianceStep)
    ensures
        depth <= 0 ==> r == RadianceStep::Zero,
        depth > 0 && !hit ==> r == RadianceStep::Background,
        depth > 0 && hit && scattered == Scattered::Absorbed ==> r == RadianceStep::Emitted,
        depth > 0 && hit && scattered == Scattered::Specular ==> r == RadianceStep::FollowSpecular,
        depth > 0 && hit && scattered == Scattered::Diffuse && has_lights ==> r
            == RadianceStep::SampleMixture,
        depth > 0 && hit && scattered == Scattered::Diffuse && !has_lights ==> r
            == RadianceStep::SampleMaterial,
{
    if depth <= 0 {
        RadianceStep::Zero
    } else if !hit {
        RadianceStep::Background
    } else {
        match scattered {
            Scattered::Absorbed => RadianceStep::Emitted,
            Scattered::Specular => RadianceStep::FollowSpecular,
            Scattered::Diffuse => {
                if has_lights {
                    RadianceStep::SampleMixture
                } else {
                    RadianceStep::SampleMaterial
                }
            },
        }
    }
}

/// Deals `items` out to `n` workers in turn: item `k` goes to worker `k % n`,
/// which receives its items in their original order.
pub fn round_robin<T: Copy>(items: &Vec<T>, n: usize) -> (r: Vec<Vec<T>>)
    requires
        n > 0,
    ensures
        r@.len() == n,
        forall|t: int|
            0 <= t < n ==> #[trigger] r@[t]@.len() * n + t >= items@.len() && (r@[t]@.len() == 0 || (
            r@[t]@.len() - 1) * n + t < items@.len()),
        forall|t: int, m: int|
            0 <= t < n && 0 <= m < r@[t]@.len() ==> #[trigger] r@[t]@[m] == items@[m * n + t],
{
    let mut res: Vec<Vec<T>> = Vec::new();
    let mut t: usize = 0;
    while t < n
        invariant
            n > 0,
            t <= n,
            res@.len() == t,
            forall|s: int|
                0 <= s < t ==> #[trigger] res@[s]@.len() * n + s >= items@.len() && (res@[s]@.len() == 0 || (
                res@[s]@.len() - 1) * n + s < items@.len()),
            forall|s: int, m: int|
                0 <= s < t && 0 <= m < res@[s]@.len() ==> #[trigger] res@[s]@[m] == items@[m * n + s],
        decreases n - t,
    {
        let mut share: Vec<T> = Vec::new();
        let mut k: usize = if t < items.len() {
            t
        } else {
            items.len()
        };
        let ghost mut m: int = 0;
        while k < items.len()
            invariant
                n > 0,
                t < n,
                0 <= m,
                k <= items@.len(),
                k < items@.len() ==> k == m * n + t,
                k == items@.len() ==> m * n + t >= items@.len(),
                share@.len() == m,
                m > 0 ==> (m - 1) * n + t < items@.len(),
                forall|mm: int| 0 <= mm < m ==> #[trigger] share@[mm] == items@[mm * n + t],
            decreases items@.len() - k,
        {
            let ghost prev = share@;
            share.push(items[k]);
            proof {
                assert forall|mm: int| 0 <= mm < m + 1 implies #[trigger] share@[mm] == items@[mm * n + t] by {
                    if mm < m {
                        assert(share@[mm] == prev[mm]);
                    }
                }
                assert((m + 1) * n + t == m * n + t + n) by (nonlinear_arith);
                m = m + 1;
            }
            if items.len() - k <= n {
                k = items.len();
            } else {
                k = k + n;
            }
        }
        let ghost done = res@;
        let ghost sh = share@;
        res.push(share);
        proof {
            assert(res@[t as int]@ == sh);
            assert forall|s: int, mm: int| 0 <= s < t + 1 && 0 <= mm < res@[s]@.len() implies #[trigger] res@[s]@[mm]
                == items@[mm * n + s] by {
                if s < t {
                    assert(res@[s] == done[s]);
                    assert(done[s]@[mm] == items@[mm * n + s]);
                } else {
                    assert(sh[mm] == items@[mm * n + t]);
                }
            }
            assert forall|s: int| 0 <= s < t + 1 implies #[trigger] res@[s]@.len() * n + s >= items@.len() && (
            res@[s]@.len() == 0 || (res@[s]@.len() - 1) * n + s < items@.len()) by {
                if s < t {
                    assert(res@[s] == done[s]);
                }
            }
        }
        t = t + 1;
    }
    res
}

/// In a round-robin deal to `n` workers, item `k` has exactly one place:
/// position `k / n` of worker `k % n`. So no two workers share an item.
pub proof fn lemma_round_robin_place(k: int, n: int, t: int, m: int)
    requires
        0 < n,
        0 <= k,
        0 <= t < n,
        0 <= m,
    ensures
        (m * n + t == k) <==> (t == k % n && m == k / n),
{
    if m * n + t == k {
        vstd::arithmetic::div_mod::lemma_fundamental_div_mod_converse(k, n, m, t);
    }
    if t == k % n && m == k / n {
        vstd::arithmetic::div_mod::lemma_fundamental_div_mod(k, n);
        assert(n * (k / n) == m * n) by (nonlinear_arith)
            requires m == k / n;
    }
}

/// In the multi-threaded work plan every pixel is rendered exactly once: pixel
/// `(x, y)` lies in the tile at position `m` of worker `t` exactly when that
/// tile is number `k = (x / ts) * tiles_along(h, ts) + y / ts` of the tiling
/// and `(t, m) == (k % n, k / n)`.
pub proof fn lemma_pixel_owner(w: u32, h: u32, ts: u32, n: int, x: u32, y: u32, t: int, m: int)
    requires
        ts > 0,
        n > 0,
        x < w,
        y < h,
        0 <= t < n,
        0 <= m,
        m * n + t < tiling(w as int, h as int, ts as int).len(),
    ensures
        ({
            let cy = tiles_along(h as int, ts as int);
            let k = (x / ts) * cy + y / ts;
            tiling(w as int, h as int, ts as int)[m * n + t].contains((x, y)) <==> (t == k % n && m == k / n)
        }),
{
    let cx = tiles_along(w as int, ts as int);
    let cy = tiles_along(h as int, ts as int);
    let big_k = m * n + t;
    let k = (x / ts) * cy + y / ts;
    assert(0 <= cx) by {
        vstd::arithmetic::div_mod::lemma_fundamental_div_mod(w + ts - 1, ts as int);
        if cx < 0 {
            assert(cx * ts < 0) by (nonlinear_arith)
                requires cx < 0, ts > 0;
        }
    }
    assert(0 <= m * n) by (nonlinear_arith)
        requires 0 <= m, 0 < n;
    lemma_split_index(big_k, cx, cy);
    let i = big_k / cy;
    let j = big_k % cy;
    lemma_tiles_partition(w, h, ts, x, y, i, j);
    assert(0 <= x / ts && 0 <= y / ts);
    if i == x / ts && j == y / ts {
        assert(big_k == k);
    }
    if big_k == k {
        vstd::arithmetic::div_mod::lemma_fundamental_div_mod_converse(big_k, cy, (x / ts) as int, (y / ts) as int);
    }
    assert(0 <= k) by (nonlinear_arith)
        requires k == (x / ts) * cy + y / ts, 0 <= x / ts, 0 <= y / ts, 0 <= cy;
    lemma_round_robin_place(k, n, t, m);
}

/// The integer knobs of a render, shared read-only by all workers during a
/// pass.
pub struct RenderSettings {
    samples: u32,
    max_depth: i32,
    thread_num: u32,
    tile_size: u32,
}

impl RenderSettings {    pub closed spec fn spec_samples(&self) -> u32 {
        self.samples
    }

    pub closed spec fn spec_max_depth(&self) -> i32 {
        self.max_depth
    }

    pub closed spec fn spec_thread_num(&self) -> u32 {
        self.thread_num
    }

    pub closed spec fn spec_tile_size(&self) -> u32 {
        self.tile_size
    }

    /// 32 samples per pixel, at most 32 bounces, 8 workers, tiles of 32
    /// pixels.
    pub fn new() -> (r: RenderSettings)
        ensures
            r.spec_samples() == 32,
            r.spec_max_depth() == 32,
            r.spec_thread_num() == 8,
            r.spec_tile_size() == 32,
    {
        RenderSettings { samples: 32, max_depth: 32, thread_num: 8, tile_size: 32 }
    }

    /// Sets the samples per pixel and the bounce budget of each ray.
    pub fn set_quality(&mut self, samples: u32, max_depth: u32)
        ensures
            final(self).spec_samples() == samples,
            final(self).spec_max_depth() == max_depth as i32,
            final(self).spec_thread_num() == old(self).spec_thread_num(),
            final(self).spec_tile_size() == old(self).spec_tile_size(),
    {
        self.samples = samples;
        self.max_depth = max_depth as i32;
    }

    /// Sets the number of worker threads and the side of a tile.
    pub fn set_performance(&mut self, thread_num: u32, tile_size: u32)
        ensures
            final(self).spec_samples() == old(self).spec_samples(),
            final(self).spec_max_depth() == old(self).spec_max_depth(),
            final(self).spec_thread_num() == thread_num,
            final(self).spec_tile_size() == tile_size,
    {
        self.thread_num = thread_num;
        self.tile_size = tile_size;
    }

    pub fn samples(&self) -> (r: u32)
        ensures
            r == self.spec_samples(),
    {
        self.samples
    }

    pub fn max_depth(&self) -> (r: i32)
        ensures
            r == self.spec_max_depth(),
    {
        self.max_depth
    }

    pub fn thread_num(&self) -> (r: u32)
        ensures
            r == self.spec_thread_num(),
    {
        self.thread_num
    }

    pub fn tile_size(&self) -> (r: u32)
        ensures
            r == self.spec_tile_size(),
    {
        self.tile_size
    }

    /// The static work plan of a multi-threaded render: the framebuffer's
    /// tiles dealt out in turn to `thread_num` workers, tile `k` to worker
    /// `k % thread_num`.
    pub fn generate_tasks(framebuffer: &FrameBuffer, thread_num: u32, tile_size: u32) -> (r: Vec<Vec<Grid>>)
        requires
            thread_num > 0,
            tile_size > 0,
        ensures
            ({
                let tiles = tiling(
                    framebuffer.spec_width() as int,
                    framebuffer.spec_height() as int,
                    tile_size as int,
                );
                let n = thread_num as int;
                &&& r@.len() == n
                &&& forall|t: int|
                    0 <= t < n ==> #[trigger] r@[t]@.len() * n + t >= tiles.len() && (r@[t]@.len() == 0 || (
                    r@[t]@.len() - 1) * n + t < tiles.len())
                &&& forall|t: int, m: int|
                    0 <= t < n && 0 <= m < r@[t]@.len() ==> #[trigger] r@[t]@[m] == tiles[m * n + t]
            }),
    {
        let tiles = framebuffer.split_to_tile(tile_size);
        round_robin(&tiles, thread_num as usize)
    }
}

} // verus!
