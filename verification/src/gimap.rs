//! Irradiance maps: for every texel of an object's texture space the
//! triangle it belongs to, fixed once, and an intensity that a bake pass
//! renews while the renderer reads it.

use vstd::prelude::*;
use std::sync::atomic::{AtomicU32, Ordering};
use crate::binary32::{index_of, to_usize, ONE};
use crate::raster::{has_fragment, is_coverage, raster_triangle, Fragment, Triangle, Weights};

verus! {

/// Where a texel of an irradiance map comes from: the triangle that fills
/// it, and the texel's weights in that triangle, from which its position on
/// the surface follows. All weights are zero where no triangle fills the
/// texel.
#[derive(Clone, Copy, Debug)]
pub struct GITextureVertex {
    pub weights: Weights,
    pub triangle_id: u32,
}

/// A baked irradiance map: for every texel its provenance, fixed at
/// construction, and an intensity that a bake pass may publish at any time
/// while others read.
pub struct GIMap {
    pub obj_id: u32,
    pub width: usize,
    pub height: usize,
    /// One cell a texel, row by row. A cell holds the bit pattern of a
    /// number and is read and written whole, in relaxed order.
    pub values: Vec<Vec<AtomicU32>>,
    pub vertices: Vec<Vec<GITextureVertex>>,
}

/// The index of the last triangle of the sequence that covers `(x, y)`, or
/// `-1` where none does.
pub open spec fn last_covering(triangles: Seq<Triangle>, x: int, y: int) -> int
    decreases triangles.len(),
{
    if triangles.len() == 0 {
        -1
    } else if triangles.last().covers(x, y) {
        triangles.len() - 1
    } else {
        last_covering(triangles.drop_last(), x, y)
    }
}

/// The provenance of texel `(x, y)` under a sequence of triangles in texel
/// space: later triangles replace earlier ones.
pub open spec fn texel_source(triangles: Seq<Triangle>, x: int, y: int) -> GITextureVertex {
    let k = last_covering(triangles, x, y);
    if k < 0 {
        GITextureVertex::unfilled()
    } else {
        GITextureVertex::filled(k, triangles[k], x, y)
    }
}

impl GITextureVertex {
    pub open spec fn unfilled() -> GITextureVertex {
        GITextureVertex { weights: Weights { a: 0, b: 0, c: 0 }, triangle_id: 0 }
    }

    pub open spec fn filled(k: int, t: Triangle, x: int, y: int) -> GITextureVertex {
        GITextureVertex {
            weights: Weights {
                a: t.weight_a(x, y) as i128,
                b: t.weight_b(x, y) as i128,
                c: t.weight_c(x, y) as i128,
            },
            triangle_id: k as u32,
        }
    }
}

impl Default for GITextureVertex {
    fn default() -> (v: GITextureVertex)
        ensures
            v == GITextureVertex::unfilled(),
    {
        GITextureVertex { weights: Weights { a: 0, b: 0, c: 0 }, triangle_id: 0 }
    }
}

impl GIMap {
    /// Both grids have `height` rows of `width` texels.
    pub open spec fn wf(&self) -> bool {
        &&& self.values@.len() == self.height
        &&& self.vertices@.len() == self.height
        &&& forall|y: int| 0 <= y < self.height ==> (#[trigger] self.values@[y])@.len() == self.width
        &&& forall|y: int|
            0 <= y < self.height ==> (#[trigger] self.vertices@[y])@.len() == self.width
    }

    /// The intensity grid has a cell for texel `(x, y)`.
    pub open spec fn has_cell(&self, x: usize, y: usize) -> bool {
        y < self.values@.len() && x < self.values@[y as int]@.len()
    }

    /// The intensity grid has a cell for the texel that the numbers `x`
    /// and `y` fall into.
    pub open spec fn has_cell_at(&self, x: u32, y: u32) -> bool {
        self.has_cell(index_of(x), index_of(y))
    }

    /// The provenance grid has an entry for texel `(x, y)`.
    pub open spec fn has_source(&self, x: usize, y: usize) -> bool {
        y < self.vertices@.len() && x < self.vertices@[y as int]@.len()
    }

    /// The provenance of texel `(x, y)`.
    pub open spec fn source(&self, x: int, y: int) -> GITextureVertex {
        self.vertices@[y]@[x]
    }

    /// The intensity that a bake pass gives texel `(x, y)`: that of the
    /// triangle the texel comes from.
    pub open spec fn baked(&self, intensities: Seq<u32>, x: int, y: int) -> u32 {
        intensities[self.source(x, y).triangle_id as int]
    }

    /// Every texel names a triangle below `count`.
    pub open spec fn sources_below(&self, count: int) -> bool {
        forall|x: int, y: int|
            0 <= x < self.width && 0 <= y < self.height ==> (#[trigger] self.source(
                x,
                y,
            )).triangle_id < count
    }

    /// Builds the map of an object: an intensity grid of `height` rows of
    /// `width` texels, every cell at one, and the provenance of every
    /// texel under the object's triangles, given in texel space. Where
    /// triangles share a texel the last of them stays.
    pub fn new(obj_id: u32, width: i32, height: i32, triangles: &[Triangle]) -> (map: GIMap)
        requires
            triangles@.len() <= 0x1_0000_0000,
        ensures
            map.wf(),
            map.obj_id == obj_id,
            map.width == texels(width as int),
            map.height == texels(height as int),
            forall|x: int, y: int|
                0 <= x < width && 0 <= y < height ==> #[trigger] map.source(x, y) == texel_source(
                    triangles@,
                    x,
                    y,
                ),
            map.sources_below(
                if triangles@.len() == 0 {
                    1
                } else {
                    triangles@.len() as int
                },
            ),
    {
        let w: usize = if width > 0 {
            width as usize
        } else {
            0
        };
        let h: usize = if height > 0 {
            height as usize
        } else {
            0
        };
        let mut values: Vec<Vec<AtomicU32>> = Vec::new();
        let mut vertices: Vec<Vec<GITextureVertex>> = Vec::new();
        let mut y: usize = 0;
        while y < h
            invariant
                y <= h,
                values@.len() == y,
                vertices@.len() == y,
                forall|j: int| 0 <= j < y ==> (#[trigger] values@[j])@.len() == w,
                forall|j: int| 0 <= j < y ==> (#[trigger] vertices@[j])@.len() == w,
                forall|i: int, j: int|
                    0 <= i < w && 0 <= j < y ==> #[trigger] vertices@[j]@[i]
                        == GITextureVertex::unfilled(),
            decreases h - y,
        {
            let mut cells: Vec<AtomicU32> = Vec::new();
            let mut sources: Vec<GITextureVertex> = Vec::new();
            let mut x: usize = 0;
            while x < w
                invariant
                    x <= w,
                    cells@.len() == x,
                    sources@.len() == x,
                    forall|i: int| 0 <= i < x ==> #[trigger] sources@[i] == GITextureVertex::unfilled(),
                decreases w - x,
            {
                cells.push(AtomicU32::new(ONE));
                sources.push(GITextureVertex::default());
                x += 1;
            }
            values.push(cells);
            vertices.push(sources);
            y += 1;
        }
        let n: usize = triangles.len();
        let mut k: usize = 0;
        while k < n
            invariant
                n == triangles@.len(),
                n <= 0x1_0000_0000,
                k <= n,
                w == texels(width as int),
                h == texels(height as int),
                is_grid(vertices@, width as int, height as int),
                forall|x: int, y: int|
                    0 <= x < width && 0 <= y < height ==> #[trigger] vertices@[y]@[x]
                        == texel_source(triangles@.take(k as int), x, y),
            decreases n - k,
        {
            let ghost before = vertices@;
            record_triangle(&mut vertices, width, height, &triangles[k], k as u32);
            proof {
                let shorter = triangles@.take(k as int);
                let longer = triangles@.take(k + 1);
                assert(longer.drop_last() == shorter);
                assert(longer.last() == triangles@[k as int]);
                assert forall|x: int, y: int| 0 <= x < width && 0 <= y < height implies #[trigger]
                    vertices@[y]@[x] == texel_source(longer, x, y) by {
                    assert(before[y]@[x] == texel_source(shorter, x, y));
                    if !triangles@[k as int].covers(x, y) {
                        lemma_last_covering(shorter, x, y);
                        let found = last_covering(shorter, x, y);
                        if found >= 0 {
                            assert(longer[found] == shorter[found]);
                        }
                    }
                }
            }
            k += 1;
        }
        proof {
            assert(triangles@.take(n as int) == triangles@);
            assert forall|x: int, y: int| 0 <= x < w && 0 <= y < h implies (
            #[trigger] vertices@[y]@[x]).triangle_id < (if n == 0 {
                1
            } else {
                n as int
            }) by {
                lemma_last_covering(triangles@, x, y);
            }
        }
        GIMap { obj_id, width: w, height: h, values, vertices }
    }

    /// One bake pass: publishes for every texel the intensity of the
    /// triangle it comes from. `intensities` holds one number a triangle.
    pub fn update(&self, intensities: &[u32])
        requires
            self.wf(),
            self.sources_below(intensities@.len() as int),
    {
        let mut y: usize = 0;
        while y < self.height
            invariant
                self.wf(),
                self.sources_below(intensities@.len() as int),
            decreases self.height - y,
        {
            let mut x: usize = 0;
            while x < self.width
                invariant
                    self.wf(),
                    self.sources_below(intensities@.len() as int),
                    y < self.height,
                decreases self.width - x,
            {
                assert(self.source(x as int, y as int).triangle_id < intensities@.len());
                let v = self.texel_intensity(intensities, x, y);
                self.set_value(x, y, v);
                x += 1;
            }
            y += 1;
        }
    }

    /// Reads the intensity of the texel that the numbers `x` and `y` fall
    /// into, rounded toward zero: the pattern that the latest store to the
    /// cell left there, or one, the initial value.
    pub fn get_value(&self, x: u32, y: u32) -> u32
        requires
            self.has_cell_at(x, y),
    {
        self.values[to_usize(y)][to_usize(x)].load(Ordering::Relaxed)
    }

    /// Publishes an intensity for texel `(x, y)`, without waiting for
    /// readers.
    pub fn set_value(&self, x: usize, y: usize, v: u32)
        requires
            self.has_cell(x, y),
    {
        self.values[y][x].store(v, Ordering::Relaxed)
    }

    /// The intensity that a bake pass gives texel `(x, y)`.
    pub fn texel_intensity(&self, intensities: &[u32], x: usize, y: usize) -> (v: u32)
        requires
            self.has_source(x, y),
            self.source(x as int, y as int).triangle_id < intensities@.len(),
        ensures
            v == self.baked(intensities@, x as int, y as int),
    {
        let id: u32 = self.vertices[y][x].triangle_id;
        intensities[id as usize]
    }
}

/// What `last_covering` finds: a triangle that covers the point and after
/// which none does, or `-1` where no triangle covers it.
pub proof fn lemma_last_covering(triangles: Seq<Triangle>, x: int, y: int)
    ensures
        -1 <= last_covering(triangles, x, y) < triangles.len(),
        last_covering(triangles, x, y) >= 0 ==> triangles[last_covering(triangles, x, y)].covers(
            x,
            y,
        ),
        forall|j: int|
            last_covering(triangles, x, y) < j < triangles.len() ==> !(#[trigger] triangles[j]).covers(
                x,
                y,
            ),
    decreases triangles.len(),
{
    if triangles.len() > 0 && !triangles.last().covers(x, y) {
        lemma_last_covering(triangles.drop_last(), x, y);
        assert forall|j: int|
            last_covering(triangles, x, y) < j < triangles.len() implies !(
        #[trigger] triangles[j]).covers(x, y) by {
            if j < triangles.len() - 1 {
                assert(triangles.drop_last()[j] == triangles[j]);
            }
        }
    }
}

/// What a bake pass publishes for a texel whose provenance is that of
/// `triangles`: the intensity of the last triangle that covers the texel,
/// and where none covers it, that of the first triangle.
pub proof fn lemma_baked_intensity(
    map: GIMap,
    triangles: Seq<Triangle>,
    intensities: Seq<u32>,
    x: int,
    y: int,
)
    requires
        triangles.len() <= 0x1_0000_0000,
        map.source(x, y) == texel_source(triangles, x, y),
    ensures
        last_covering(triangles, x, y) >= 0 ==> map.baked(intensities, x, y)
            == intensities[last_covering(triangles, x, y)],
        last_covering(triangles, x, y) < 0 ==> map.baked(intensities, x, y) == intensities[0],
{
    lemma_last_covering(triangles, x, y);
}

/// The number of texels along a side that is `side` long; a negative side
/// has none.
pub open spec fn texels(side: int) -> int {
    if side > 0 {
        side
    } else {
        0
    }
}

/// A provenance grid of `height` rows of `width` texels.
pub open spec fn is_grid(vertices: Seq<Vec<GITextureVertex>>, width: int, height: int) -> bool {
    &&& vertices.len() == texels(height)
    &&& forall|y: int| 0 <= y < vertices.len() ==> (#[trigger] vertices[y])@.len() == texels(width)
}

/// Whether a fragment stands at `(x, y)` grows by exactly the fragment
/// appended.
proof fn lemma_has_fragment_step(fragments: Seq<Fragment>, m: int, x: int, y: int)
    requires
        0 <= m < fragments.len(),
    ensures
        has_fragment(fragments.take(m + 1), x, y) <==> has_fragment(fragments.take(m), x, y) || (
        fragments[m].x == x && fragments[m].y == y),
{
    let shorter = fragments.take(m);
    let longer = fragments.take(m + 1);
    if has_fragment(shorter, x, y) {
        let i = choose|i: int|
            0 <= i < shorter.len() && (#[trigger] shorter[i]).x == x && shorter[i].y == y;
        assert(longer[i] == shorter[i]);
    }
    if fragments[m].x == x && fragments[m].y == y {
        assert(longer[m] == fragments[m]);
    }
    if has_fragment(longer, x, y) {
        let i = choose|i: int|
            0 <= i < longer.len() && (#[trigger] longer[i]).x == x && longer[i].y == y;
        if i < m {
            assert(shorter[i] == longer[i]);
        }
    }
}

/// Writes one triangle into a provenance grid: every texel that the
/// triangle covers now names it, with the texel's weights; the others keep
/// what they had.
fn record_triangle(
    vertices: &mut Vec<Vec<GITextureVertex>>,
    width: i32,
    height: i32,
    triangle: &Triangle,
    triangle_id: u32,
)
    requires
        is_grid(old(vertices)@, width as int, height as int),
    ensures
        is_grid(final(vertices)@, width as int, height as int),
        forall|x: int, y: int|
            0 <= x < width && 0 <= y < height ==> #[trigger] final(vertices)@[y]@[x] == (
            if triangle.covers(x, y) {
                GITextureVertex::filled(triangle_id as int, *triangle, x, y)
            } else {
                old(vertices)@[y]@[x]
            }),
{
    let fragments = raster_triangle(width, height, triangle);
    let n: usize = fragments.len();
    let mut m: usize = 0;
    while m < n
        invariant
            n == fragments@.len(),
            m <= n,
            is_coverage(fragments@, width as int, height as int, *triangle),
            is_grid(vertices@, width as int, height as int),
            forall|x: int, y: int|
                0 <= x < width && 0 <= y < height ==> #[trigger] vertices@[y]@[x] == (
                if has_fragment(fragments@.take(m as int), x, y) {
                    GITextureVertex::filled(triangle_id as int, *triangle, x, y)
                } else {
                    old(vertices)@[y]@[x]
                }),
        decreases n - m,
    {
        let f = fragments[m];
        let ghost before = vertices@;
        vertices[f.y as usize][f.x as usize] = GITextureVertex {
            weights: f.weights,
            triangle_id,
        };
        proof {
            assert forall|x: int, y: int| 0 <= x < width && 0 <= y < height implies #[trigger]
                vertices@[y]@[x] == (if has_fragment(fragments@.take(m + 1), x, y) {
                GITextureVertex::filled(triangle_id as int, *triangle, x, y)
            } else {
                old(vertices)@[y]@[x]
            }) by {
                lemma_has_fragment_step(fragments@, m as int, x, y);
                if !(x == f.x && y == f.y) {
                    assert(vertices@[y]@[x] == before[y]@[x]);
                }
            }
        }
        m += 1;
    }
    proof {
        assert(fragments@.take(n as int) == fragments@);
        assert forall|x: int, y: int| 0 <= x < width && 0 <= y < height implies (has_fragment(
            fragments@,
            x,
            y,
        ) <==> #[trigger] triangle.covers(x, y)) by {
            if has_fragment(fragments@, x, y) {
                let i = choose|i: int|
                    0 <= i < fragments@.len() && (#[trigger] fragments@[i]).x == x
                        && fragments@[i].y == y;
                assert(triangle.covers(fragments@[i].x as int, fragments@[i].y as int));
            }
        }
    }
}

} // verus!
