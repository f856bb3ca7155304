use vstd::prelude::*;

use crate::error::{debug_text, Error};

verus! {

/// Declares `glam::Vec2`, a point of the plane, so that the diagram can carry
/// centroids and corners. Nothing is claimed of it: the library never looks
/// inside a point, it only stores and hands back the values it was given.
#[verifier::external_type_specification]
#[verifier::external_body]
pub struct ExVec2(glam::Vec2);

// ---------------------------------------------------------------------------
// Cells and their adjacency
// ---------------------------------------------------------------------------

/// What fills a cell of the diagram.
#[derive(Debug, Clone, Copy, PartialEq, Eq)]
pub enum Cell {
    Air,
    Dirt,
    Stone,
}

impl Cell {
    /// The filling that a random number draws: air, dirt and stone in turn by
    /// its remainder modulo 3.
    pub fn from_random(r: u32) -> (c: Cell)
        ensures
            c == (if r % 3 == 0 {
                Cell::Air
            } else if r % 3 == 1 {
                Cell::Dirt
            } else {
                Cell::Stone
            }),
    {
        match r % 3 {
            0 => Cell::Air,
            1 => Cell::Dirt,
            _ => Cell::Stone,
        }
    }
}

/** used for the rendering and placement of anything that's in-between the voronoi cells */
#[derive(Debug, Clone, Copy)]
pub struct Corner {
    pub pos: glam::Vec2,
    pub nodes: [usize; 3],
}

/** used for the cellular automata */
///
/// Two neighbouring cells, the smaller index first, and the magnitude of their
/// adjacency: the bit pattern (`f32::to_bits`) of the length of the edge of
/// the voronoi diagram between them.
#[derive(Debug, Clone, Copy, PartialEq, Eq)]
pub struct Adjacency {
    pub nodes: [usize; 2],
    pub magnitude_bits: u32,
}

/**
The voronoi diagram is kind of the dual of a delaunay triangulation.
We model the delaunay triangulation with simplicial complexes.

|         | delaunay triangulation | voronoi diagram         |
|---------+------------------------+-------------------------|
| 1-faces | centroids              | cell                    |
| 2-faces | edges                  | cells adjacencies       |
| 3-faces | triangle               | vertices of the diagram  |

We store:
+ The centroids (called nodes), with what fills their cell.
+ The vertices of the diagram (their positions, and for each cell the indices
  of the vertices around it). (called corners)
+ The adjacencies relationship, each pair of neighbouring cells once, and for
  each cell the list of its neighbours.
Everything is calculated from the centroids of the voronoi diagram.
*/
#[derive(Debug)]
pub struct Voronoi {
    pub nodes_values: Vec<Cell>,
    pub nodes_pos: Vec<glam::Vec2>,
    pub nodes_ngh: Vec<Vec<usize>>,
    pub adjacency: Vec<Adjacency>,
    pub nodes_corner: Vec<Vec<usize>>,
    pub corners_pos: Vec<glam::Vec2>,
}

/// The three vertex indices of a triangle, in increasing order.
pub open spec fn sort3(a: usize, b: usize, c: usize) -> (usize, usize, usize) {
    if a <= b {
        if b <= c {
            (a, b, c)
        } else if a <= c {
            (a, c, b)
        } else {
            (c, a, b)
        }
    } else {
        if a <= c {
            (b, a, c)
        } else if b <= c {
            (b, c, a)
        } else {
            (c, b, a)
        }
    }
}

/// The triangles of a triangulation given as consecutive triples of vertex
/// indices (an incomplete last triple is ignored), each sorted.
pub open spec fn triangles_of(raw: Seq<usize>) -> Seq<(usize, usize, usize)> {
    Seq::new(raw.len() / 3, |t: int| sort3(raw[3 * t], raw[3 * t + 1], raw[3 * t + 2]))
}

/// The indices of the triangles that have `v` as a vertex, in increasing
/// order, a triangle appearing once per corner at `v`.
pub open spec fn corners_of(tris: Seq<(usize, usize, usize)>, v: usize) -> Seq<usize>
    decreases tris.len(),
{
    if tris.len() == 0 {
        Seq::empty()
    } else {
        let t = (tris.len() - 1) as usize;
        let (i, j, k) = tris.last();
        corners_of(tris.drop_last(), v) + (if i == v {
            seq![t]
        } else {
            Seq::empty()
        }) + (if j == v {
            seq![t]
        } else {
            Seq::empty()
        }) + (if k == v {
            seq![t]
        } else {
            Seq::empty()
        })
    }
}

/// The three edges `(i, j)`, `(i, k)`, `(j, k)` of each sorted triangle
/// `(i, j, k)`, triangle after triangle.
pub open spec fn triangle_edges(tris: Seq<(usize, usize, usize)>) -> Seq<(usize, usize)>
    decreases tris.len(),
{
    if tris.len() == 0 {
        Seq::empty()
    } else {
        let (i, j, k) = tris.last();
        triangle_edges(tris.drop_last()) + seq![(i, j), (i, k), (j, k)]
    }
}

/// The number of corners of the first `cells` cells.
pub open spec fn corner_total(corners: Seq<Vec<usize>>, cells: int) -> int
    decreases cells,
{
    if cells <= 0 {
        0
    } else {
        corner_total(corners, cells - 1) + corners[cells - 1]@.len()
    }
}

/// The triangles that fan out from the first of `n` vertices numbered from
/// `start`: `(start, start + k - 1, start + k)` for `k` from 2 to `n - 1`, as
/// consecutive index triples.
pub open spec fn fan(start: int, n: int) -> Seq<int>
    decreases n,
{
    if n < 3 {
        Seq::empty()
    } else {
        fan(start, n - 1) + seq![start, start + n - 2, start + n - 1]
    }
}

/// The fans of the first `cells` cells, each over its corners, the vertices of
/// all cells numbered one after the other.
pub open spec fn fans(corners: Seq<Vec<usize>>, cells: int) -> Seq<int>
    decreases cells,
{
    if cells <= 0 {
        Seq::empty()
    } else {
        fans(corners, cells - 1) + fan(corner_total(corners, cells - 1), corners[cells - 1]@.len() as int)
    }
}

/// The sorted triangle `tri` has `e` among its edges `(i, j)`, `(i, k)`,
/// `(j, k)`.
pub open spec fn has_edge(tri: (usize, usize, usize), e: (usize, usize)) -> bool {
    e == (tri.0, tri.1) || e == (tri.0, tri.2) || e == (tri.1, tri.2)
}

/// The indices of the triangles that have `e` among their edges, in
/// increasing order: the two triangles on either side of an inner edge of a
/// triangulation, the one triangle of an edge on its hull.
pub open spec fn edge_triangles(tris: Seq<(usize, usize, usize)>, e: (usize, usize)) -> Seq<usize>
    decreases tris.len(),
{
    if tris.len() == 0 {
        Seq::empty()
    } else {
        edge_triangles(tris.drop_last(), e) + (if has_edge(tris.last(), e) {
            seq![(tris.len() - 1) as usize]
        } else {
            Seq::empty()
        })
    }
}

/// The pairs of cells that an adjacency list names, in its order.
pub open spec fn adjacency_pairs(adj: Seq<Adjacency>) -> Seq<(usize, usize)> {
    adj.map_values(|a: Adjacency| (a.nodes[0], a.nodes[1]))
}

/// The neighbours of `v` that a list of pairs gives, in its order: the other
/// end of each pair that has `v` at one end (both ends when both are `v`).
pub open spec fn neighbours_of(pairs: Seq<(usize, usize)>, v: usize) -> Seq<usize>
    decreases pairs.len(),
{
    if pairs.len() == 0 {
        Seq::empty()
    } else {
        let (a, b) = pairs.last();
        neighbours_of(pairs.drop_last(), v) + (if a == v {
            seq![b]
        } else {
            Seq::empty()
        }) + (if b == v {
            seq![a]
        } else {
            Seq::empty()
        })
    }
}

/// The corners and adjacencies of `v`, a diagram of `n` cells, are those of the
/// triangulation `raw` (consecutive triples of cell indices) whose triangles
/// have the circumcenters `circs`: corner `t` is the circumcenter of triangle
/// `t`; each cell lists the triangles around it in increasing order; each pair
/// of cells sharing a triangle edge is listed once; each cell's neighbours are
/// the other ends of the pairs that name it, in the order of the pairs.
pub open spec fn is_topology_of(v: Voronoi, n: nat, raw: Seq<usize>, circs: Seq<glam::Vec2>) -> bool {
    let tris = triangles_of(raw);
    let pairs = adjacency_pairs(v.adjacency@);
    &&& v.corners_pos@ == circs
    &&& v.nodes_corner@.len() == n
    &&& forall|c: int| 0 <= c < n ==> #[trigger] v.nodes_corner@[c]@ == corners_of(tris, c as usize)
    &&& pairs.no_duplicates()
    &&& forall|e: (usize, usize)| pairs.contains(e) <==> triangle_edges(tris).contains(e)
    &&& v.nodes_ngh@.len() == n
    &&& forall|c: int| 0 <= c < n ==> #[trigger] v.nodes_ngh@[c]@ == neighbours_of(pairs, c as usize)
}

/// Sorts the three vertex indices of a triangle.
fn sort_triangle(a: usize, b: usize, c: usize) -> (r: (usize, usize, usize))
    ensures
        r == sort3(a, b, c),
{
    if a <= b {
        if b <= c {
            (a, b, c)
        } else if a <= c {
            (a, c, b)
        } else {
            (c, a, b)
        }
    } else {
        if a <= c {
            (b, a, c)
        } else if b <= c {
            (b, c, a)
        } else {
            (c, b, a)
        }
    }
}

/// The triangles of a triangulation given as consecutive triples of vertex
/// indices, each with its indices sorted; an incomplete last triple is ignored.
pub fn sorted_triangles(triangles: &Vec<usize>) -> (r: Vec<(usize, usize, usize)>)
    ensures
        r@ == triangles_of(triangles@),
{
    let n = triangles.len() / 3;
    let mut out: Vec<(usize, usize, usize)> = Vec::new();
    let mut t: usize = 0;
    while t < n
        invariant
            n == triangles@.len() / 3,
            t <= n,
            out@ =~= triangles_of(triangles@).subrange(0, t as int),
        decreases n - t,
    {
        assert(3 * t + 2 < triangles.len()) by (nonlinear_arith)
            requires
                t < n,
                n == triangles.len() / 3,
        ;
        out.push(sort_triangle(triangles[3 * t], triangles[3 * t + 1], triangles[3 * t + 2]));
        t = t + 1;
    }
    out
}

/// `by_low` indexes `edges` by their first end: bucket `v` holds the
/// positions of exactly the edges whose first end is `v`.
pub open spec fn edges_indexed(edges: Seq<(usize, usize)>, by_low: Seq<Vec<usize>>) -> bool {
    &&& forall|v: int, k: int|
        0 <= v < by_low.len() && 0 <= k < by_low[v]@.len() ==> #[trigger] by_low[v]@[k] < edges.len()
            && edges[by_low[v]@[k] as int].0 == v
    &&& forall|m: int|
        0 <= m < edges.len() ==> (#[trigger] edges[m]).0 < by_low.len() && by_low[edges[m].0 as int]@.contains(
            m as usize,
        )
}

/// Records that triangle `t` has the edge `e`: an edge not seen yet is added
/// at the end of `edges` (and in the bucket of its first end), with `t` as
/// both the first and the last triangle having it; an edge seen before gets
/// `t` as its last triangle. Only the bucket of `e`'s first end is searched.
fn record_edge(
    edges: &mut Vec<(usize, usize)>,
    by_low: &mut Vec<Vec<usize>>,
    firsts: &mut Vec<usize>,
    lasts: &mut Vec<usize>,
    e: (usize, usize),
    t: usize,
)
    requires
        old(edges)@.no_duplicates(),
        edges_indexed(old(edges)@, old(by_low)@),
        e.0 < old(by_low)@.len(),
        old(firsts)@.len() == old(edges)@.len(),
        old(lasts)@.len() == old(edges)@.len(),
    ensures
        final(edges)@.no_duplicates(),
        edges_indexed(final(edges)@, final(by_low)@),
        final(by_low)@.len() == old(by_low)@.len(),
        final(edges)@ == (if old(edges)@.contains(e) {
            old(edges)@
        } else {
            old(edges)@.push(e)
        }),
        forall|x: (usize, usize)| final(edges)@.contains(x) <==> (old(edges)@.contains(x) || x == e),
        final(firsts)@ == (if old(edges)@.contains(e) {
            old(firsts)@
        } else {
            old(firsts)@.push(t)
        }),
        final(lasts)@.len() == final(edges)@.len(),
        forall|m: int|
            0 <= m < final(edges)@.len() ==> #[trigger] final(lasts)@[m] == (if final(edges)@[m] == e {
                t
            } else {
                old(lasts)@[m]
            }),
{
    let low = e.0;
    let mut k: usize = 0;
    while k < by_low[low].len()
        invariant
            edges@ == old(edges)@,
            by_low@ == old(by_low)@,
            firsts@ == old(firsts)@,
            lasts@ == old(lasts)@,
            old(edges)@.no_duplicates(),
            edges_indexed(old(edges)@, old(by_low)@),
            low == e.0,
            low < by_low@.len(),
            old(lasts)@.len() == old(edges)@.len(),
            k <= by_low@[low as int]@.len(),
            forall|q: int| 0 <= q < k ==> edges@[#[trigger] by_low@[low as int]@[q] as int] != e,
        decreases by_low@[low as int]@.len() - k,
    {
        let m = by_low[low][k];
        proof {
            assert(by_low@[low as int]@[k as int] == m);
        }
        let (a, b) = edges[m];
        if a == e.0 && b == e.1 {
            lasts.set(m, t);
            proof {
                assert(edges@.contains(e)) by {
                    assert(edges@[m as int] == e);
                }
                assert forall|q: int| 0 <= q < edges@.len() implies #[trigger] lasts@[q] == (if edges@[q] == e {
                    t
                } else {
                    old(lasts)@[q]
                }) by {
                    if q != m && edges@[q] == e {
                        assert(edges@[q] == edges@[m as int]);
                    }
                }
            }
            return;
        }
        k = k + 1;
    }
    let ghost before = edges@;
    let ghost buckets = by_low@;
    let count = edges.len();
    proof {
        assert(before.len() == count);
        assert(!before.contains(e)) by {
            if before.contains(e) {
                let m = choose|m: int| 0 <= m < before.len() && before[m] == e;
                assert(buckets[low as int]@.contains(m as usize));
                let q = choose|q: int| 0 <= q < buckets[low as int]@.len() && buckets[low as int]@[q] == m as usize;
                assert(edges@[buckets[low as int]@[q] as int] != e);
            }
        }
    }
    let position = count;
    edges.push(e);
    firsts.push(t);
    lasts.push(t);
    by_low[low].push(position);
    proof {
        assert forall|x: (usize, usize)| edges@.contains(x) <==> (before.contains(x) || x == e) by {
            if edges@.contains(x) {
                let m = choose|m: int| 0 <= m < edges@.len() && edges@[m] == x;
                if m < before.len() {
                    assert(before[m] == x);
                }
            }
            if before.contains(x) {
                let m = choose|m: int| 0 <= m < before.len() && before[m] == x;
                assert(edges@[m] == x);
            }
            if x == e {
                assert(edges@[before.len() as int] == e);
            }
        }
        assert forall|m: int| 0 <= m < edges@.len() implies #[trigger] lasts@[m] == (if edges@[m] == e {
            t
        } else {
            old(lasts)@[m]
        }) by {
            if m < before.len() {
                assert(edges@[m] == before[m]);
                assert(before[m] != e);
            }
        }
        assert forall|v: int, k2: int|
            0 <= v < by_low@.len() && 0 <= k2 < by_low@[v]@.len() implies #[trigger] by_low@[v]@[k2]
                < edges@.len() && edges@[by_low@[v]@[k2] as int].0 == v by {
            if v == low && k2 == buckets[v]@.len() {
            } else {
                assert(by_low@[v]@[k2] == buckets[v]@[k2]);
            }
        }
        assert forall|m: int| 0 <= m < edges@.len() implies (#[trigger] edges@[m]).0 < by_low@.len()
            && by_low@[edges@[m].0 as int]@.contains(m as usize) by {
            if m < before.len() {
                let v = before[m].0 as int;
                assert(buckets[v]@.contains(m as usize));
                let q = choose|q: int| 0 <= q < buckets[v]@.len() && buckets[v]@[q] == m as usize;
                assert(by_low@[v]@[q] == m as usize);
            } else {
                assert(by_low@[low as int]@[buckets[low as int]@.len() as int] == m as usize);
            }
        }
    }
}

impl Default for Voronoi {
    /// An empty diagram.
    fn default() -> (r: Self)
        ensures
            r.nodes_values@ == Seq::<Cell>::empty(),
            r.nodes_pos@ == Seq::<glam::Vec2>::empty(),
            r.nodes_ngh@ == Seq::<Vec<usize>>::empty(),
            r.adjacency@ == Seq::<Adjacency>::empty(),
            r.nodes_corner@ == Seq::<Vec<usize>>::empty(),
            r.corners_pos@ == Seq::<glam::Vec2>::empty(),
    {
        Voronoi::new()
    }
}

impl Voronoi {
    /// An empty diagram.
    pub fn new() -> (r: Self)
        ensures
            r.nodes_values@ == Seq::<Cell>::empty(),
            r.nodes_pos@ == Seq::<glam::Vec2>::empty(),
            r.nodes_ngh@ == Seq::<Vec<usize>>::empty(),
            r.adjacency@ == Seq::<Adjacency>::empty(),
            r.nodes_corner@ == Seq::<Vec<usize>>::empty(),
            r.corners_pos@ == Seq::<glam::Vec2>::empty(),
    {
        Voronoi {
            nodes_values: Vec::new(),
            nodes_pos: Vec::new(),
            nodes_ngh: Vec::new(),
            adjacency: Vec::new(),
            nodes_corner: Vec::new(),
            corners_pos: Vec::new(),
        }
    }

    /// Adds a cell filled with `cell` whose centroid is `pos`; the adjacencies
    /// and corners are left as they are until they are recomputed.
    pub fn add_cell(&mut self, cell: Cell, pos: glam::Vec2)
        ensures
            final(self).nodes_values@ == old(self).nodes_values@.push(cell),
            final(self).nodes_pos@ == old(self).nodes_pos@.push(pos),
            final(self).nodes_ngh@ == old(self).nodes_ngh@,
            final(self).adjacency@ == old(self).adjacency@,
            final(self).nodes_corner@ == old(self).nodes_corner@,
            final(self).corners_pos@ == old(self).corners_pos@,
    {
        self.nodes_values.push(cell);
        self.nodes_pos.push(pos);
    }

    /// The number of cells that have a value, a centroid and a neighbour list.
    pub open spec fn described_cells(&self) -> nat {
        let a = self.nodes_values@.len();
        let b = self.nodes_pos@.len();
        let c = self.nodes_ngh@.len();
        if a <= b && a <= c {
            a
        } else if b <= c {
            b
        } else {
            c
        }
    }

    /// For each cell that has a value, a centroid and a neighbour list, in
    /// order: its value and centroid, and the values of its neighbours, in the
    /// order of its neighbour list.
    pub fn iterate_nghs(&self) -> (r: Vec<((&Cell, &glam::Vec2), Vec<&Cell>)>)
        requires
            forall|i: int, k: int|
                0 <= i < self.described_cells() && 0 <= k < self.nodes_ngh@[i]@.len()
                    ==> #[trigger] self.nodes_ngh@[i]@[k] < self.nodes_values@.len(),
        ensures
            r@.len() == self.described_cells(),
            forall|i: int|
                0 <= i < r@.len() ==> {
                    &&& *(#[trigger] r@[i]).0.0 == self.nodes_values@[i]
                    &&& *r@[i].0.1 == self.nodes_pos@[i]
                    &&& r@[i].1@.len() == self.nodes_ngh@[i]@.len()
                    &&& forall|k: int|
                        0 <= k < r@[i].1@.len() ==> *(#[trigger] r@[i].1@[k])
                            == self.nodes_values@[self.nodes_ngh@[i]@[k] as int]
                },
    {
        let count = if self.nodes_values.len() <= self.nodes_pos.len() && self.nodes_values.len()
            <= self.nodes_ngh.len() {
            self.nodes_values.len()
        } else if self.nodes_pos.len() <= self.nodes_ngh.len() {
            self.nodes_pos.len()
        } else {
            self.nodes_ngh.len()
        };
        let mut out: Vec<((&Cell, &glam::Vec2), Vec<&Cell>)> = Vec::new();
        let mut i: usize = 0;
        while i < count
            invariant
                count == self.described_cells(),
                i <= count,
                out@.len() == i,
                forall|i: int, k: int|
                    0 <= i < self.described_cells() && 0 <= k < self.nodes_ngh@[i]@.len()
                        ==> #[trigger] self.nodes_ngh@[i]@[k] < self.nodes_values@.len(),
                forall|j: int|
                    0 <= j < i ==> {
                        &&& *(#[trigger] out@[j]).0.0 == self.nodes_values@[j]
                        &&& *out@[j].0.1 == self.nodes_pos@[j]
                        &&& out@[j].1@.len() == self.nodes_ngh@[j]@.len()
                        &&& forall|k: int|
                            0 <= k < out@[j].1@.len() ==> *(#[trigger] out@[j].1@[k])
                                == self.nodes_values@[self.nodes_ngh@[j]@[k] as int]
                    },
            decreases count - i,
        {
            let ngh = &self.nodes_ngh[i];
            let mut values: Vec<&Cell> = Vec::new();
            let mut k: usize = 0;
            while k < ngh.len()
                invariant
                    i < self.described_cells(),
                    ngh@ == self.nodes_ngh@[i as int]@,
                    k <= ngh@.len(),
                    values@.len() == k,
                    forall|k2: int|
                        0 <= k2 < ngh@.len() ==> #[trigger] ngh@[k2] < self.nodes_values@.len(),
                    forall|k2: int|
                        0 <= k2 < k ==> *(#[trigger] values@[k2]) == self.nodes_values@[ngh@[k2] as int],
                decreases ngh@.len() - k,
            {
                values.push(&self.nodes_values[ngh[k]]);
                k = k + 1;
            }
            out.push(((&self.nodes_values[i], &self.nodes_pos[i]), values));
            i = i + 1;
        }
        out
    }

    /// The index buffer that draws each cell as a fan of triangles over its
    /// corners, the corners of all cells being numbered one after the other,
    /// cell after cell.
    pub fn fan_indices(&self) -> (r: Vec<u32>)
        requires
            self.nodes_corner@.len() >= self.nodes_values@.len(),
            corner_total(self.nodes_corner@, self.nodes_values@.len() as int) <= u32::MAX,
        ensures
            r@.map_values(|x: u32| x as int) == fans(self.nodes_corner@, self.nodes_values@.len() as int),
    {
        let mut indices: Vec<u32> = Vec::new();
        let mut start: u32 = 0;
        let mut i: usize = 0;
        while i < self.nodes_values.len()
            invariant
                i <= self.nodes_values@.len(),
                self.nodes_corner@.len() >= self.nodes_values@.len(),
                corner_total(self.nodes_corner@, self.nodes_values@.len() as int) <= u32::MAX,
                start == corner_total(self.nodes_corner@, i as int),
                indices@.map_values(|x: u32| x as int) =~= fans(self.nodes_corner@, i as int),
            decreases self.nodes_values@.len() - i,
        {
            proof {
                lemma_corner_total_monotone(self.nodes_corner@, i + 1, self.nodes_values@.len() as int);
            }
            let n = self.nodes_corner[i].len() as u32;
            let ghost base = indices@.map_values(|x: u32| x as int);
            let mut k: u32 = 2;
            while k < n
                invariant
                    2 <= k,
                    k <= n || k == 2,
                    start + n <= u32::MAX,
                    indices@.map_values(|x: u32| x as int) =~= base + fan(start as int, k as int),
                decreases n - k,
            {
                let ghost before = indices@;
                indices.push(start);
                indices.push(start + k - 1);
                indices.push(start + k);
                proof {
                    assert(indices@.map_values(|x: u32| x as int) =~= before.map_values(|x: u32| x as int)
                        + seq![start as int, start + k - 1, start + k]);
                    assert(fan(start as int, k + 1) == fan(start as int, k as int) + seq![
                        start as int,
                        start + k - 1,
                        start + k,
                    ]);
                }
                k = k + 1;
            }
            proof {
                if n >= 2 {
                    assert(k == n);
                } else {
                    assert(fan(start as int, n as int) =~= Seq::empty());
                    assert(fan(start as int, k as int) =~= Seq::empty());
                }
                assert(fans(self.nodes_corner@, i + 1) == fans(self.nodes_corner@, i as int) + fan(
                    start as int,
                    n as int,
                ));
            }
            start = start + n;
            i = i + 1;
        }
        indices
    }

    /// Recomputes the corners and the adjacencies of the diagram from a Delaunay
    /// triangulation of its centroids, given as consecutive triples of centroid
    /// indices, and from the circumcenters of its triangles (the vertices of
    /// the diagram), one per triangle, each triangle's indices taken in
    /// increasing order.
    ///
    /// Corner `t` is the circumcenter of triangle `t`; each cell lists the
    /// corners of the triangles around it, in the order of the triangles (to be
    /// sorted by angle by whoever knows the positions). Each pair of cells that
    /// share a triangle edge is listed once in `adjacency`, in no promised order,
    /// and each cell's neighbours follow the order of `adjacency`. The magnitude
    /// of an adjacency is what `edge_length` gives for the corners of the first
    /// and the last triangle that have the pair as an edge: the two ends of the
    /// diagram edge between the two cells (one and the same corner for an edge
    /// on the hull).
    #[verifier::spinoff_prover]
    pub fn recompute_all<F>(
        &mut self,
        triangles: &Vec<usize>,
        circumcenters: Vec<glam::Vec2>,
        edge_length: F,
    ) where F: Fn(&glam::Vec2, &glam::Vec2) -> u32
        requires
            circumcenters@.len() == triangles@.len() / 3,
            forall|t: int|
                0 <= t < triangles@.len() / 3 * 3 ==> #[trigger] triangles@[t] < old(self).nodes_pos@.len(),
            forall|p: glam::Vec2, q: glam::Vec2| call_requires(edge_length, (&p, &q)),
        ensures
            final(self).nodes_values@ == old(self).nodes_values@,
            final(self).nodes_pos@ == old(self).nodes_pos@,
            is_topology_of(*final(self), old(self).nodes_pos@.len(), triangles@, circumcenters@),
            forall|m: int|
                0 <= m < final(self).adjacency@.len() ==> {
                    let a = #[trigger] final(self).adjacency@[m];
                    let ts = edge_triangles(triangles_of(triangles@), (a.nodes[0], a.nodes[1]));
                    &&& ts.len() > 0
                    &&& call_ensures(
                        edge_length,
                        (&circumcenters@[ts[0] as int], &circumcenters@[ts.last() as int]),
                        a.magnitude_bits,
                    )
                },
    {
        let tris = sorted_triangles(triangles);
        let n = self.nodes_pos.len();
        let ghost all = tris@;
        proof {
            assert forall|t: int| 0 <= t < all.len() implies (#[trigger] all[t]).0 < n && all[t].1 < n
                && all[t].2 < n by {
                assert(3 * t + 2 < triangles@.len() / 3 * 3);
                assert(triangles@[3 * t] < n);
                assert(triangles@[3 * t + 1] < n);
                assert(triangles@[3 * t + 2] < n);
            }
        }
        let mut nodes_corner: Vec<Vec<usize>> = Vec::new();
        let mut v: usize = 0;
        while v < n
            invariant
                v <= n,
                nodes_corner@.len() == v,
                forall|w: int| 0 <= w < v ==> (#[trigger] nodes_corner@[w])@ == Seq::<usize>::empty(),
            decreases n - v,
        {
            nodes_corner.push(Vec::new());
            v = v + 1;
        }
        proof {
            assert forall|w: int| 0 <= w < n implies (#[trigger] nodes_corner@[w])@ == corners_of(
                all.take(0),
                w as usize,
            ) by {
                assert(all.take(0).len() == 0);
            }
            assert forall|x: (usize, usize)| !triangle_edges(all.take(0)).contains(x) by {
                assert(all.take(0).len() == 0);
            }
        }
        let mut by_low: Vec<Vec<usize>> = Vec::new();
        let mut v: usize = 0;
        while v < n
            invariant
                v <= n,
                by_low@.len() == v,
                forall|w: int| 0 <= w < v ==> (#[trigger] by_low@[w])@ == Seq::<usize>::empty(),
            decreases n - v,
        {
            by_low.push(Vec::new());
            v = v + 1;
        }
        let mut edges: Vec<(usize, usize)> = Vec::new();
        let mut firsts: Vec<usize> = Vec::new();
        let mut lasts: Vec<usize> = Vec::new();
        let mut t: usize = 0;
        while t < tris.len()
            invariant
                tris@ == all,
                n == old(self).nodes_pos@.len(),
                t <= all.len(),
                forall|u: int| 0 <= u < all.len() ==> (#[trigger] all[u]).0 < n && all[u].1 < n && all[u].2 < n,
                nodes_corner@.len() == n,
                forall|w: int| 0 <= w < n ==> (#[trigger] nodes_corner@[w])@ == corners_of(
                    all.take(t as int),
                    w as usize,
                ),
                edges@.no_duplicates(),
                by_low@.len() == n,
                edges_indexed(edges@, by_low@),
                forall|x: (usize, usize)|
                    edges@.contains(x) <==> triangle_edges(all.take(t as int)).contains(x),
                forall|m: int| 0 <= m < edges@.len() ==> (#[trigger] edges@[m]).0 < n && edges@[m].1 < n,
                firsts@.len() == edges@.len(),
                lasts@.len() == edges@.len(),
                forall|m: int|
                    0 <= m < edges@.len() ==> {
                        let ts = edge_triangles(all.take(t as int), #[trigger] edges@[m]);
                        &&& ts.len() > 0
                        &&& firsts@[m] == ts[0]
                        &&& lasts@[m] == ts.last()
                        &&& firsts@[m] < t
                        &&& lasts@[m] < t
                    },
            decreases all.len() - t,
        {
            let (i, j, k) = tris[t];
            let ghost prev_edges = edges@;
            let ghost prev_firsts = firsts@;
            let ghost prev_lasts = lasts@;
            record_edge(&mut edges, &mut by_low, &mut firsts, &mut lasts, (i, j), t);
            let ghost e1 = edges@;
            let ghost l1 = lasts@;
            record_edge(&mut edges, &mut by_low, &mut firsts, &mut lasts, (i, k), t);
            let ghost e2 = edges@;
            let ghost l2 = lasts@;
            record_edge(&mut edges, &mut by_low, &mut firsts, &mut lasts, (j, k), t);
            nodes_corner[i].push(t);
            nodes_corner[j].push(t);
            nodes_corner[k].push(t);
            proof {
                let next = all.take(t + 1);
                let cur = all.take(t as int);
                assert(next.drop_last() =~= cur);
                assert(next.last() == (i, j, k));
                assert forall|w: int| 0 <= w < n implies (#[trigger] nodes_corner@[w])@ == corners_of(
                    next,
                    w as usize,
                ) by {
                    assert(nodes_corner@[w]@ =~= corners_of(cur, w as usize) + (if i == w {
                        seq![t]
                    } else {
                        Seq::empty()
                    }) + (if j == w {
                        seq![t]
                    } else {
                        Seq::empty()
                    }) + (if k == w {
                        seq![t]
                    } else {
                        Seq::empty()
                    }));
                }
                let tail = seq![(i, j), (i, k), (j, k)];
                let old_part = triangle_edges(cur);
                assert(triangle_edges(next) == old_part + tail);
                assert forall|x: (usize, usize)| edges@.contains(x) <==> triangle_edges(next).contains(x) by {
                    if (old_part + tail).contains(x) {
                        let m = choose|m: int| 0 <= m < (old_part + tail).len() && (old_part + tail)[m] == x;
                        if m < old_part.len() {
                            assert(old_part[m] == x);
                        } else {
                            assert(tail[m - old_part.len()] == x);
                        }
                    }
                    if x == (i, j) {
                        assert((old_part + tail)[old_part.len() as int] == x);
                    }
                    if x == (i, k) {
                        assert((old_part + tail)[old_part.len() as int + 1] == x);
                    }
                    if x == (j, k) {
                        assert((old_part + tail)[old_part.len() as int + 2] == x);
                    }
                    if old_part.contains(x) {
                        let m = choose|m: int| 0 <= m < old_part.len() && old_part[m] == x;
                        assert((old_part + tail)[m] == x);
                    }
                }
                assert forall|m: int| 0 <= m < edges@.len() implies (#[trigger] edges@[m]).0 < n && edges@[m].1 < n by {
                    assert(edges@.contains(edges@[m]));
                    if prev_edges.contains(edges@[m]) {
                        let q = choose|q: int| 0 <= q < prev_edges.len() && prev_edges[q] == edges@[m];
                        assert(prev_edges[q].0 < n);
                    }
                }
                assert forall|m: int| 0 <= m < edges@.len() implies {
                    let ts = edge_triangles(next, #[trigger] edges@[m]);
                    &&& ts.len() > 0
                    &&& firsts@[m] == ts[0]
                    &&& lasts@[m] == ts.last()
                    &&& firsts@[m] < t + 1
                    &&& lasts@[m] < t + 1
                } by {
                    let e = edges@[m];
                    let ts_old = edge_triangles(cur, e);
                    assert(edge_triangles(next, e) == ts_old + (if has_edge((i, j, k), e) {
                        seq![t]
                    } else {
                        Seq::empty()
                    }));
                    assert(lasts@[m] == (if e == (j, k) {
                        t
                    } else {
                        l2[m]
                    }));
                    if m < prev_edges.len() {
                        assert(e1[m] == prev_edges[m]);
                        assert(e2[m] == prev_edges[m]);
                        assert(edges@[m] == prev_edges[m]);
                        assert(l1[m] == (if e == (i, j) {
                            t
                        } else {
                            prev_lasts[m]
                        }));
                        assert(l2[m] == (if e == (i, k) {
                            t
                        } else {
                            l1[m]
                        }));
                        assert(firsts@[m] == prev_firsts[m]);
                    } else {
                        assert(!prev_edges.contains(e)) by {
                            if prev_edges.contains(e) {
                                let q = choose|q: int| 0 <= q < prev_edges.len() && prev_edges[q] == e;
                                assert(edges@[q] == e);
                            }
                        }
                        assert(!triangle_edges(cur).contains(e));
                        lemma_edge_triangles(cur, e);
                        assert(ts_old.len() == 0);
                        assert(e == (i, j) || e == (i, k) || e == (j, k)) by {
                            assert(edges@.contains(e));
                        }
                        assert(ts_old + seq![t] =~= seq![t]);
                        if m < e1.len() {
                            assert(e1[m] == e);
                            assert(l1[m] == t);
                            assert(firsts@[m] == t);
                        } else if m < e2.len() {
                            assert(e2[m] == e);
                            assert(l2[m] == t);
                            assert(firsts@[m] == t);
                        } else {
                            assert(firsts@[m] == t);
                        }
                    }
                }
            }
            t = t + 1;
        }
        proof {
            assert(all.take(all.len() as int) =~= all);
            assert forall|q: int| 0 <= q < edges@.len() implies {
                let ts = edge_triangles(all, #[trigger] edges@[q]);
                &&& ts.len() > 0
                &&& firsts@[q] == ts[0]
                &&& lasts@[q] == ts.last()
                &&& firsts@[q] < all.len()
                &&& lasts@[q] < all.len()
            } by {
                assert(edge_triangles(all.take(t as int), edges@[q]) == edge_triangles(all, edges@[q]));
            }
        }
        let mut adjacency: Vec<Adjacency> = Vec::new();
        let mut nodes_ngh: Vec<Vec<usize>> = Vec::new();
        let mut v: usize = 0;
        while v < n
            invariant
                v <= n,
                nodes_ngh@.len() == v,
                forall|w: int| 0 <= w < v ==> (#[trigger] nodes_ngh@[w])@ == Seq::<usize>::empty(),
            decreases n - v,
        {
            nodes_ngh.push(Vec::new());
            v = v + 1;
        }
        proof {
            assert forall|w: int| 0 <= w < n implies (#[trigger] nodes_ngh@[w])@ == neighbours_of(
                edges@.take(0),
                w as usize,
            ) by {
                assert(edges@.take(0).len() == 0);
            }
        }
        let mut m: usize = 0;
        while m < edges.len()
            invariant
                m <= edges@.len(),
                circumcenters@.len() == all.len(),
                forall|p: glam::Vec2, q: glam::Vec2| call_requires(edge_length, (&p, &q)),
                forall|q: int| 0 <= q < edges@.len() ==> (#[trigger] edges@[q]).0 < n && edges@[q].1 < n,
                firsts@.len() == edges@.len(),
                lasts@.len() == edges@.len(),
                forall|q: int|
                    0 <= q < edges@.len() ==> {
                        let ts = edge_triangles(all, #[trigger] edges@[q]);
                        &&& ts.len() > 0
                        &&& firsts@[q] == ts[0]
                        &&& lasts@[q] == ts.last()
                        &&& firsts@[q] < all.len()
                        &&& lasts@[q] < all.len()
                    },
                adjacency_pairs(adjacency@) =~= edges@.take(m as int),
                forall|q: int|
                    0 <= q < adjacency@.len() ==> call_ensures(
                        edge_length,
                        (&circumcenters@[firsts@[q] as int], &circumcenters@[lasts@[q] as int]),
                        (#[trigger] adjacency@[q]).magnitude_bits,
                    ),
                nodes_ngh@.len() == n,
                forall|w: int| 0 <= w < n ==> (#[trigger] nodes_ngh@[w])@ == neighbours_of(
                    edges@.take(m as int),
                    w as usize,
                ),
            decreases edges@.len() - m,
        {
            let (a, b) = edges[m];
            let magnitude_bits = edge_length(&circumcenters[firsts[m]], &circumcenters[lasts[m]]);
            adjacency.push(Adjacency { nodes: [a, b], magnitude_bits });
            nodes_ngh[a].push(b);
            nodes_ngh[b].push(a);
            proof {
                let next = edges@.take(m + 1);
                assert(next.drop_last() =~= edges@.take(m as int));
                assert(next.last() == (a, b));
                assert(adjacency_pairs(adjacency@) =~= next);
                assert forall|w: int| 0 <= w < n implies (#[trigger] nodes_ngh@[w])@ == neighbours_of(
                    next,
                    w as usize,
                ) by {
                    assert(nodes_ngh@[w]@ =~= neighbours_of(edges@.take(m as int), w as usize) + (if a
                        == w {
                        seq![b]
                    } else {
                        Seq::empty()
                    }) + (if b == w {
                        seq![a]
                    } else {
                        Seq::empty()
                    }));
                }
            }
            m = m + 1;
        }
        proof {
            assert(edges@.take(edges@.len() as int) =~= edges@);
            assert(adjacency_pairs(adjacency@) =~= edges@);
            assert forall|q: int| 0 <= q < adjacency@.len() implies {
                let a = #[trigger] adjacency@[q];
                let ts = edge_triangles(all, (a.nodes[0], a.nodes[1]));
                &&& ts.len() > 0
                &&& call_ensures(
                    edge_length,
                    (&circumcenters@[ts[0] as int], &circumcenters@[ts.last() as int]),
                    a.magnitude_bits,
                )
            } by {
                assert(adjacency_pairs(adjacency@)[q] == edges@[q]);
            }
        }
        self.nodes_corner = nodes_corner;
        self.corners_pos = circumcenters;
        self.adjacency = adjacency;
        self.nodes_ngh = nodes_ngh;
    }
}

// ---------------------------------------------------------------------------
// The layered tree
// ---------------------------------------------------------------------------

/// A node of a [`Tree`]: a parent knows where its children start in the next
/// layer and how many of them there are; a leaf has no children yet.
#[derive(Debug, Clone, Copy, PartialEq, Eq)]
pub enum TreeNode<T> {
    Parent { val: T, start: usize, len: usize },
    Leaf { val: T },
}

/// The position of a node in a [`Tree`]: its layer, then its index in that layer.
#[derive(Debug, Clone, Copy, PartialEq, Eq)]
pub struct TreeIndex(pub usize, pub usize);

/**
Tree is stored layer per layer. When constructing the children of a node, all
its siblings are constructed simultaneously. Therefore the children of a node
are designated by the index of the first one in the children's layer and by
the number of children.
*/
#[derive(Debug)]
pub struct Tree<T> {
    layers: Vec<Vec<TreeNode<T>>>,
}

impl<T> TreeNode<T> {
    /// The value carried by the node, whatever its kind.
    pub open spec fn value(self) -> T {
        match self {
            TreeNode::Parent { val, .. } => val,
            TreeNode::Leaf { val } => val,
        }
    }
}

/// The node at `id`, if the layers hold one there.
pub open spec fn node_at<T>(layers: Seq<Seq<TreeNode<T>>>, id: TreeIndex) -> Option<TreeNode<T>> {
    if id.0 < layers.len() && id.1 < layers[id.0 as int].len() {
        Some(layers[id.0 as int][id.1 as int])
    } else {
        None
    }
}

/// The indices `(layer, start)`, `(layer, start + 1)`, ... of `len` consecutive nodes.
pub open spec fn index_range(layer: int, start: int, len: nat) -> Seq<TreeIndex> {
    Seq::new(len, |k: int| TreeIndex(layer as usize, (start + k) as usize))
}

/// The children of the node at `id`, in order; none for a leaf or a missing node.
pub open spec fn child_indices<T>(layers: Seq<Seq<TreeNode<T>>>, id: TreeIndex) -> Seq<TreeIndex> {
    match node_at(layers, id) {
        Some(TreeNode::Parent { start, len, .. }) => index_range(id.0 + 1, start as int, len as nat),
        _ => Seq::empty(),
    }
}

/// Every parent's children lie in the next layer.
pub open spec fn layers_wf<T>(layers: Seq<Seq<TreeNode<T>>>) -> bool {
    forall|l: int, i: int|
        0 <= l < layers.len() && 0 <= i < layers[l].len() ==> match #[trigger] layers[l][i] {
            TreeNode::Parent { start, len, .. } => l + 1 < layers.len() && start + len <= layers[l
                + 1].len(),
            TreeNode::Leaf { .. } => true,
        }
}

/// The parent at `p` in `parents` has the node at `i` of the next layer among
/// its children.
pub open spec fn covers<T>(parents: Seq<TreeNode<T>>, p: int, i: int) -> bool {
    0 <= p < parents.len() && match parents[p] {
        TreeNode::Parent { start, len, .. } => start <= i < start + len,
        TreeNode::Leaf { .. } => false,
    }
}

/// The node at `i` of the next layer is the child of exactly one parent in
/// `parents`.
pub open spec fn has_one_parent<T>(parents: Seq<TreeNode<T>>, i: int) -> bool {
    &&& exists|p: int| #[trigger] covers(parents, p, i)
    &&& forall|p1: int, p2: int|
        #[trigger] covers(parents, p1, i) && #[trigger] covers(parents, p2, i) ==> p1 == p2
}

/// Every node below the first layer is the child of exactly one parent of the
/// layer above.
pub open spec fn layers_partitioned<T>(layers: Seq<Seq<TreeNode<T>>>) -> bool {
    forall|l: int, i: int|
        0 <= l && l + 1 < layers.len() && 0 <= i < layers[l + 1].len() ==> #[trigger] has_one_parent(
            layers[l],
            i,
        )
}


/// What a depth-first exploration from `id` gives back: the node itself when it
/// is a leaf or when `stop` holds of it; otherwise what the explorations of its
/// children give, from the last child to the first.
pub open spec fn explore<T>(
    layers: Seq<Seq<TreeNode<T>>>,
    id: TreeIndex,
    stop: spec_fn(TreeIndex, TreeNode<T>) -> bool,
) -> Seq<TreeIndex>
    decreases layers.len() - id.0, 0int, 0int,
{
    match node_at(layers, id) {
        None => Seq::empty(),
        Some(node) => match node {
            TreeNode::Leaf { .. } => seq![id],
            TreeNode::Parent { start, len, .. } => if stop(id, node) {
                seq![id]
            } else {
                explore_range(layers, id.0 + 1, start as int, len as nat, stop)
            },
        },
    }
}

/// The explorations of the nodes `(layer, start + len - 1)` down to
/// `(layer, start)`, one after the other.
pub open spec fn explore_range<T>(
    layers: Seq<Seq<TreeNode<T>>>,
    layer: int,
    start: int,
    len: nat,
    stop: spec_fn(TreeIndex, TreeNode<T>) -> bool,
) -> Seq<TreeIndex>
    decreases layers.len() - layer, 1int, len,
{
    if len == 0 || !(0 <= layer <= usize::MAX) {
        Seq::empty()
    } else {
        explore(layers, TreeIndex(layer as usize, (start + len - 1) as usize), stop)
            + explore_range(layers, layer, start, (len - 1) as nat, stop)
    }
}

/// What exploring a stack of nodes gives: the top (last) node is explored
/// first, then the rest of the stack.
pub open spec fn explore_stack<T>(
    layers: Seq<Seq<TreeNode<T>>>,
    stack: Seq<TreeIndex>,
    stop: spec_fn(TreeIndex, TreeNode<T>) -> bool,
) -> Seq<TreeIndex>
    decreases stack.len(),
{
    if stack.len() == 0 {
        Seq::empty()
    } else {
        explore(layers, stack.last(), stop) + explore_stack(layers, stack.drop_last(), stop)
    }
}

/// The number of nodes in the subtree rooted at `id`.
pub open spec fn subtree_size<T>(layers: Seq<Seq<TreeNode<T>>>, id: TreeIndex) -> nat
    decreases layers.len() - id.0, 0int, 0int,
{
    match node_at(layers, id) {
        None => 1,
        Some(node) => match node {
            TreeNode::Leaf { .. } => 1,
            TreeNode::Parent { start, len, .. } => 1 + size_range(
                layers,
                id.0 + 1,
                start as int,
                len as nat,
            ),
        },
    }
}

/// The number of nodes in the subtrees rooted at `len` consecutive nodes.
pub open spec fn size_range<T>(layers: Seq<Seq<TreeNode<T>>>, layer: int, start: int, len: nat) -> nat
    decreases layers.len() - layer, 1int, len,
{
    if len == 0 || !(0 <= layer <= usize::MAX) {
        0
    } else {
        subtree_size(layers, TreeIndex(layer as usize, (start + len - 1) as usize)) + size_range(
            layers,
            layer,
            start,
            (len - 1) as nat,
        )
    }
}

/// The number of nodes in the subtrees rooted at the nodes of a stack.
pub open spec fn stack_size<T>(layers: Seq<Seq<TreeNode<T>>>, stack: Seq<TreeIndex>) -> nat
    decreases stack.len(),
{
    if stack.len() == 0 {
        0
    } else {
        subtree_size(layers, stack.last()) + stack_size(layers, stack.drop_last())
    }
}

/// Exploring `a` then pushing `b` on top explores `b` first.
proof fn lemma_explore_stack_append<T>(
    layers: Seq<Seq<TreeNode<T>>>,
    a: Seq<TreeIndex>,
    b: Seq<TreeIndex>,
    stop: spec_fn(TreeIndex, TreeNode<T>) -> bool,
)
    ensures
        explore_stack(layers, a + b, stop) == explore_stack(layers, b, stop) + explore_stack(
            layers,
            a,
            stop,
        ),
        stack_size(layers, a + b) == stack_size(layers, a) + stack_size(layers, b),
    decreases b.len(),
{
    if b.len() == 0 {
        assert(a + b =~= a);
        assert(explore_stack(layers, b, stop) =~= Seq::empty());
        assert(Seq::<TreeIndex>::empty() + explore_stack(layers, a, stop) =~= explore_stack(layers, a, stop));
    } else {
        assert((a + b).drop_last() =~= a + b.drop_last());
        assert((a + b).last() == b.last());
        lemma_explore_stack_append(layers, a, b.drop_last(), stop);
        assert(explore_stack(layers, a + b, stop) =~= explore_stack(layers, b, stop)
            + explore_stack(layers, a, stop));
    }
}

/// A run of consecutive siblings, explored as a stack, is explored last to first.
proof fn lemma_explore_stack_range<T>(
    layers: Seq<Seq<TreeNode<T>>>,
    layer: int,
    start: int,
    len: nat,
    stop: spec_fn(TreeIndex, TreeNode<T>) -> bool,
)
    requires
        0 <= layer <= usize::MAX,
        0 <= start,
        start + len <= usize::MAX + 1,
    ensures
        explore_stack(layers, index_range(layer, start, len), stop) == explore_range(
            layers,
            layer,
            start,
            len,
            stop,
        ),
        stack_size(layers, index_range(layer, start, len)) == size_range(layers, layer, start, len),
    decreases len,
{
    let r = index_range(layer, start, len);
    if len > 0 {
        assert(r.drop_last() =~= index_range(layer, start, (len - 1) as nat));
        assert(r.last() == TreeIndex(layer as usize, (start + len - 1) as usize));
        lemma_explore_stack_range(layers, layer, start, (len - 1) as nat, stop);
    } else {
        assert(explore_stack(layers, r, stop) =~= Seq::empty());
    }
}

/// The layers once the leaf at `leaf`, carrying `val`, has become the parent of
/// new leaves carrying `kids`, appended to the next layer (a new, empty layer
/// is added first when `leaf` lies in the last one).
pub open spec fn with_children<T>(
    layers: Seq<Seq<TreeNode<T>>>,
    leaf: TreeIndex,
    val: T,
    kids: Seq<T>,
) -> Seq<Seq<TreeNode<T>>> {
    let base = if layers.len() == leaf.0 + 1 {
        layers.push(Seq::empty())
    } else {
        layers
    };
    let next = base[leaf.0 + 1];
    base.update(
        leaf.0 as int,
        base[leaf.0 as int].update(
            leaf.1 as int,
            TreeNode::Parent { val, start: next.len() as usize, len: kids.len() as usize },
        ),
    ).update(leaf.0 + 1, next + kids.map_values(|v: T| TreeNode::Leaf { val: v }))
}

/// The condition under which the exploration of [`Tree::get_nth_level_of_root`]
/// stops: the node lies in layer `max_level` or beyond.
pub open spec fn level_at_least<T>(max_level: usize) -> spec_fn(TreeIndex, TreeNode<T>) -> bool {
    |id: TreeIndex, n: TreeNode<T>| id.0 >= max_level
}

/// The deepest layer that the subtree rooted at `id` reaches.
pub open spec fn subtree_depth<T>(layers: Seq<Seq<TreeNode<T>>>, id: TreeIndex) -> int
    decreases layers.len() - id.0, 0int, 0int,
{
    match node_at(layers, id) {
        None => id.0 as int,
        Some(node) => match node {
            TreeNode::Leaf { .. } => id.0 as int,
            TreeNode::Parent { start, len, .. } => {
                let d = depth_range(layers, id.0 + 1, start as int, len as nat);
                if d > id.0 {
                    d
                } else {
                    id.0 as int
                }
            },
        },
    }
}

/// The deepest layer that the subtrees rooted at `len` consecutive nodes
/// reach (-1 when there are none).
pub open spec fn depth_range<T>(layers: Seq<Seq<TreeNode<T>>>, layer: int, start: int, len: nat) -> int
    decreases layers.len() - layer, 1int, len,
{
    if len == 0 || !(0 <= layer <= usize::MAX) {
        -1
    } else {
        let a = subtree_depth(layers, TreeIndex(layer as usize, (start + len - 1) as usize));
        let b = depth_range(layers, layer, start, (len - 1) as nat);
        if a > b {
            a
        } else {
            b
        }
    }
}

/// The condition of an exploration that never stops before the leaves.
pub open spec fn never_stop<T>() -> spec_fn(TreeIndex, TreeNode<T>) -> bool {
    |id: TreeIndex, n: TreeNode<T>| false
}

/// The nodes of the subtree rooted at `id`: the node itself, then the
/// subtrees of its children from the last to the first.
pub open spec fn subtree<T>(layers: Seq<Seq<TreeNode<T>>>, id: TreeIndex) -> Seq<TreeIndex>
    decreases layers.len() - id.0, 0int, 0int,
{
    match node_at(layers, id) {
        None => Seq::empty(),
        Some(node) => match node {
            TreeNode::Leaf { .. } => seq![id],
            TreeNode::Parent { start, len, .. } => seq![id] + subtree_range(
                layers,
                id.0 + 1,
                start as int,
                len as nat,
            ),
        },
    }
}

/// The nodes of the subtrees rooted at `len` consecutive nodes.
pub open spec fn subtree_range<T>(layers: Seq<Seq<TreeNode<T>>>, layer: int, start: int, len: nat) -> Seq<
    TreeIndex,
>
    decreases layers.len() - layer, 1int, len,
{
    if len == 0 || !(0 <= layer <= usize::MAX) {
        Seq::empty()
    } else {
        subtree(layers, TreeIndex(layer as usize, (start + len - 1) as usize)) + subtree_range(
            layers,
            layer,
            start,
            (len - 1) as nat,
        )
    }
}

impl<T> View for Tree<T> {
    type V = Seq<Seq<TreeNode<T>>>;

    closed spec fn view(&self) -> Seq<Seq<TreeNode<T>>> {
        layers_view(self.layers@)
    }
}

/// The nodes of each layer of a vector of layers.
spec fn layers_view<T>(layers: Seq<Vec<TreeNode<T>>>) -> Seq<Seq<TreeNode<T>>> {
    layers.map_values(|l: Vec<TreeNode<T>>| l@)
}

/// The view of a vector of layers has one sequence per layer, each the view
/// of that layer, and no more of either than a `usize` counts.
proof fn lemma_layers_view<T>(layers: &Vec<Vec<TreeNode<T>>>)
    ensures
        layers_view(layers@).len() == layers@.len(),
        forall|l: int| 0 <= l < layers@.len() ==> #[trigger] layers_view(layers@)[l] == layers@[l]@,
        layers_view(layers@).len() <= usize::MAX,
        forall|l: int|
            0 <= l < layers@.len() ==> #[trigger] layers_view(layers@)[l].len() <= usize::MAX,
{
    assert(layers@.len() == layers.len());
    assert forall|l: int| 0 <= l < layers@.len() implies #[trigger] layers_view(layers@)[l].len()
        <= usize::MAX by {
        assert(layers_view(layers@)[l] == layers@[l]@);
        assert(layers@[l]@.len() == layers@[l].len());
    }
}

impl<T> Tree<T> {
    /// The tree's well-formedness: every parent's children lie in the next
    /// layer, and every node below the first layer is the child of exactly one
    /// parent.
    pub open spec fn wf(&self) -> bool {
        layers_wf(self@) && layers_partitioned(self@)
    }

    /// Every tree is well formed.
    #[verifier::type_invariant]
    spec fn well_formed(self) -> bool {
        layers_wf(self@) && layers_partitioned(self@)
    }

    /// No tree has more layers, or more nodes in a layer, than a `usize` counts.
    pub proof fn lemma_layer_lengths(&self)
        ensures
            self@.len() <= usize::MAX,
            forall|l: int| 0 <= l < self@.len() ==> #[trigger] self@[l].len() <= usize::MAX,
    {
        self.lemma_view();
    }

    /// The view has one sequence per layer, each the view of that layer.
    proof fn lemma_view(&self)
        ensures
            self@.len() == self.layers@.len(),
            forall|l: int| 0 <= l < self@.len() ==> #[trigger] self@[l] == self.layers@[l]@,
            self@.len() <= usize::MAX,
            forall|l: int| 0 <= l < self@.len() ==> #[trigger] self@[l].len() <= usize::MAX,
    {
        lemma_layers_view(&self.layers);
    }
}

impl<T: Copy> Clone for Tree<T> {
    /// A tree with the same nodes.
    fn clone(&self) -> (r: Self)
        ensures
            r@ == self@,
    {
        proof {
            use_type_invariant(self);
            lemma_layers_view(&self.layers);
        }
        let mut layers: Vec<Vec<TreeNode<T>>> = Vec::new();
        let mut l: usize = 0;
        while l < self.layers.len()
            invariant
                l <= self.layers@.len(),
                layers@.len() == l,
                forall|q: int| 0 <= q < l ==> (#[trigger] layers@[q])@ == self.layers@[q]@,
            decreases self.layers@.len() - l,
        {
            let mut layer: Vec<TreeNode<T>> = Vec::new();
            let mut i: usize = 0;
            while i < self.layers[l].len()
                invariant
                    l < self.layers@.len(),
                    i <= self.layers@[l as int]@.len(),
                    layer@ =~= self.layers@[l as int]@.take(i as int),
                decreases self.layers@[l as int]@.len() - i,
            {
                layer.push(self.layers[l][i]);
                i = i + 1;
            }
            proof {
                assert(self.layers@[l as int]@.take(i as int) =~= self.layers@[l as int]@);
            }
            layers.push(layer);
            l = l + 1;
        }
        proof {
            lemma_layers_view(&layers);
            assert(layers_view(layers@) =~= self@);
        }
        Tree { layers }
    }
}

impl<T: Copy> Tree<T> {
    /// The node at `coord`, if there is one.
    pub fn get(&self, coord: TreeIndex) -> (r: Option<&TreeNode<T>>)
        ensures
            match r {
                Some(n) => node_at(self@, coord) == Some(*n),
                None => node_at(self@, coord) is None,
            },
    {
        let TreeIndex(layer, i) = coord;
        if layer < self.layers.len() && i < self.layers[layer].len() {
            Some(&self.layers[layer][i])
        } else {
            None
        }
    }

    /// The indices of the children of the node at `coord`, in order; none for a
    /// leaf or a missing node.
    pub fn children(&self, coord: TreeIndex) -> (r: Vec<TreeIndex>)
        ensures
            r@ == child_indices(self@, coord),
    {
        proof {
            use_type_invariant(self);
        }
        match self.get(coord) {
            Some(TreeNode::Parent { val: _, start, len }) => {
                let start = *start;
                let len = *len;
                proof {
                    self.lemma_view();
                    assert(self@[coord.0 as int][coord.1 as int] is Parent);
                }
                let mut out: Vec<TreeIndex> = Vec::new();
                let mut k: usize = 0;
                while k < len
                    invariant
                        k <= len,
                        start + len <= usize::MAX,
                        coord.0 < usize::MAX,
                        out@ == index_range(coord.0 + 1, start as int, k as nat),
                    decreases len - k,
                {
                    out.push(TreeIndex(coord.0 + 1, start + k));
                    k = k + 1;
                    assert(out@ =~= index_range(coord.0 + 1, start as int, k as nat));
                }
                out
            },
            _ => Vec::new(),
        }
    }

    /** depth-first exploration that stops when a certain condition is met */
    ///
    /// Starting from `index`, every leaf reached is returned, and so is every
    /// parent for which `cond` holds, whose subtree is then not entered. The
    /// children of a node are visited from the last to the first.
    pub fn conditional_depth_exploration<F>(
        &self,
        index: TreeIndex,
        cond: F,
        Ghost(stop): Ghost<spec_fn(TreeIndex, TreeNode<T>) -> bool>,
    ) -> (r: Vec<TreeIndex>) where F: Fn(&TreeIndex, &TreeNode<T>) -> bool
        requires
            node_at(self@, index) is Some,
            forall|i: TreeIndex, n: TreeNode<T>| call_requires(cond, (&i, &n)),
            forall|i: TreeIndex, n: TreeNode<T>, b: bool|
                call_ensures(cond, (&i, &n), b) ==> b == stop(i, n),
        ensures
            r@ == explore(self@, index, stop),
    {
        proof {
            use_type_invariant(self);
        }
        let mut stack: Vec<TreeIndex> = Vec::new();
        stack.push(index);
        let mut output: Vec<TreeIndex> = Vec::new();
        proof {
            assert(stack@.drop_last() =~= Seq::<TreeIndex>::empty());
            assert(explore_stack(self@, stack@.drop_last(), stop) =~= Seq::empty());
            assert(explore_stack(self@, stack@, stop) =~= explore(self@, index, stop));
            assert(output@ + explore_stack(self@, stack@, stop) =~= explore(self@, index, stop));
        }
        while stack.len() > 0
            invariant
                self.wf(),
                forall|k: int| 0 <= k < stack@.len() ==> node_at(self@, #[trigger] stack@[k]) is Some,
                output@ + explore_stack(self@, stack@, stop) == explore(self@, index, stop),
                forall|i: TreeIndex, n: TreeNode<T>| call_requires(cond, (&i, &n)),
                forall|i: TreeIndex, n: TreeNode<T>, b: bool|
                    call_ensures(cond, (&i, &n), b) ==> b == stop(i, n),
            decreases stack_size(self@, stack@),
        {
            let ghost before = stack@;
            let id = stack.pop().unwrap();
            let ghost rest = stack@;
            proof {
                assert(before.drop_last() =~= rest);
                assert(before.last() == id);
                assert(node_at(self@, before[before.len() - 1]) is Some);
            }
            let node = self.get(id).unwrap();
            match node {
                TreeNode::Leaf { .. } => {
                    output.push(id);
                    proof {
                        assert(explore(self@, id, stop) =~= seq![id]);
                    }
                },
                TreeNode::Parent { val: _, start, len } => {
                    if cond(&id, node) {
                        output.push(id);
                        proof {
                            assert(explore(self@, id, stop) =~= seq![id]);
                        }
                    } else {
                        let mut ch = self.children(id);
                        let ghost kids = ch@;
                        proof {
                            self.lemma_view();
                            let start = *start;
                            let len = *len;
                            assert(self@[id.0 as int][id.1 as int] == *node);
                            lemma_explore_stack_range(self@, id.0 + 1, start as int, len as nat, stop);
                            lemma_explore_stack_append(self@, rest, kids, stop);
                            assert forall|k: int| 0 <= k < kids.len() implies node_at(self@, #[trigger] kids[k]) is Some by {
                                assert(kids[k] == TreeIndex((id.0 + 1) as usize, (start + k) as usize));
                            }
                        }
                        stack.append(&mut ch);
                        proof {
                            assert(stack@ == rest + kids);
                        }
                    }
                },
            }
            proof {
                assert(output@ + explore_stack(self@, stack@, stop) =~= explore(self@, index, stop));
            }
        }
        proof {
            assert(explore_stack(self@, stack@, stop) =~= Seq::empty());
            assert(output@ =~= output@ + explore_stack(self@, stack@, stop));
        }
        output
    }

    /// The exploration from `root` that stops at the nodes of layer `max_level`
    /// and beyond: the nodes of that layer under `root`, together with the leaves
    /// above it.
    pub fn get_nth_level_of_root(&self, root: TreeIndex, max_level: usize) -> (r: Vec<TreeIndex>)
        requires
            node_at(self@, root) is Some,
        ensures
            r@ == explore(self@, root, level_at_least::<T>(max_level)),
    {
        let deep_enough = |id: &TreeIndex, _content: &TreeNode<T>| -> (b: bool)
            ensures
                b == (id.0 >= max_level),
            {
                let level: usize = id.0;
                level >= max_level
            };
        self.conditional_depth_exploration(root, deep_enough, Ghost(level_at_least::<T>(max_level)))
    }


    /// Turns the leaf at `leaf` into a parent whose children are new leaves
    /// carrying `children`, in order, appended at the end of the next layer
    /// (created if `leaf` lies in the last layer). Fails, changing nothing, when
    /// there is no leaf at `leaf`.
    pub fn create_children(&mut self, leaf: TreeIndex, children: Vec<T>) -> (r: Result<(), Error>)
        ensures
            final(self).wf(),
            match node_at(old(self)@, leaf) {
                Some(TreeNode::Leaf { val }) => r is Ok && final(self)@ == with_children(
                    old(self)@,
                    leaf,
                    val,
                    children@,
                ),
                _ => r matches Err(e) && e@ == debug_text(
                    "Tried to recreate children of a non-child node"@,
                ) && final(self)@ == old(self)@,
            },
            r is Ok ==> child_indices(final(self)@, leaf).len() == children@.len(),
            r is Ok ==> forall|k: int|
                0 <= k < children@.len() ==> node_at(
                    final(self)@,
                    #[trigger] child_indices(final(self)@, leaf)[k],
                ) == Some(TreeNode::Leaf { val: children@[k] }),
    {
        proof {
            use_type_invariant(&*self);
        }
        let val = match self.get(leaf) {
            Some(TreeNode::Leaf { val }) => *val,
            _ => {
                return Error::err("Tried to recreate children of a non-child node");
            },
        };
        let ghost old_layers = self@;
        // work on the layers taken out, leaving an empty tree in their place
        let mut layers: Vec<Vec<TreeNode<T>>> = Vec::new();
        std::mem::swap(&mut layers, &mut self.layers);
        proof {
            lemma_layers_view(&layers);
            assert(layers_view(layers@) == old_layers);
        }
        // add a new layer in case it is needed
        if layers.len() == leaf.0 + 1 {
            layers.push(Vec::new());
            proof {
                assert(layers_view(layers@) =~= old_layers.push(Seq::empty()));
            }
        }
        let ghost base = layers_view(layers@);
        let start = layers[leaf.0 + 1].len();
        let len = children.len();
        proof {
            lemma_layers_view(&layers);
        }
        let slot = Self::get_mut(&mut layers, leaf).unwrap();
        *slot = TreeNode::Parent { val, start, len };
        proof {
            lemma_layers_view(&layers);
        }
        let ghost mid = layers_view(layers@);
        let ghost mid_layers = layers@;
        let mut leaves: Vec<TreeNode<T>> = Vec::new();
        let mut k: usize = 0;
        while k < len
            invariant
                k <= len,
                len == children@.len(),
                leaves@ =~= children@.subrange(0, k as int).map_values(
                    |v: T| TreeNode::Leaf { val: v },
                ),
            decreases len - k,
        {
            leaves.push(TreeNode::Leaf { val: children[k] });
            k = k + 1;
        }
        proof {
            assert(children@.subrange(0, len as int) =~= children@);
        }
        layers[leaf.0 + 1].append(&mut leaves);
        proof {
            let now = layers_view(layers@);
            let expected = with_children(old_layers, leaf, val, children@);
            lemma_layers_view(&layers);
            assert(base.len() == now.len());
            assert(expected.len() == now.len());
            assert(now[leaf.0 as int] =~= expected[leaf.0 as int]);
            assert(mid == base.update(
                leaf.0 as int,
                base[leaf.0 as int].update(leaf.1 as int, TreeNode::Parent { val, start, len }),
            ));
            assert(now[leaf.0 + 1] == mid[leaf.0 + 1] + children@.map_values(
                |v: T| TreeNode::Leaf { val: v },
            ));
            assert(mid[leaf.0 + 1] == base[leaf.0 + 1]);
            assert(now[leaf.0 + 1] =~= expected[leaf.0 + 1]);
            assert forall|l: int| 0 <= l < now.len() && l != leaf.0 && l != leaf.0 + 1 implies now[l] == expected[l] by {
                assert(layers@[l] == mid_layers[l]);
                assert(now[l] == mid[l]);
            }
            assert(now =~= expected);
            lemma_children_after_create(old_layers, leaf, children@);
            lemma_partition_after_create(old_layers, leaf, val, children@);
        }
        self.layers = layers;
        Ok(())
    }

    /// A mutable borrow of the node at `coord` of `layers`, if there is one.
    fn get_mut(layers: &mut Vec<Vec<TreeNode<T>>>, coord: TreeIndex) -> (r: Option<&mut TreeNode<T>>)
        ensures
            match r {
                Some(n) => node_at(layers_view(old(layers)@), coord) == Some(*n) && layers_view(
                    final(layers)@,
                ) == layers_view(old(layers)@).update(
                    coord.0 as int,
                    layers_view(old(layers)@)[coord.0 as int].update(coord.1 as int, *final(n)),
                ),
                None => node_at(layers_view(old(layers)@), coord) is None && final(layers)@ == old(
                    layers,
                )@,
            },
    {
        let TreeIndex(layer, i) = coord;
        if layer < layers.len() && i < layers[layer].len() {
            Some(&mut layers[layer][i])
        } else {
            None
        }
    }
}


// ---------------------------------------------------------------------------
// Several resolutions of the diagram
// ---------------------------------------------------------------------------

/// The part of the plane that a cell covers: its centroid, and the bit
/// pattern (`f32::to_bits`) of its radius as the caller measured it (the
/// program gives half the distance to the farthest neighbour).
#[derive(Debug, Clone, Copy)]
pub struct BoundingBox {
    pub pos: glam::Vec2,
    pub rad_bits: u32,
}

/**
A tree contains a connex part of the plane.
It has a radius and a center.
Assume we have a mother tree T and we want to get the n-th level of depth of that tree in a radius of r around a point p.
Then we do a depth exploration of T:
+ if dist(p, T.p) > r + T.r => stop
+ else if T.is_leaf || T.level = n => add T to output
+ else for all T_child of T, foo(T_child)
*/
///
/// The diagrams of the successive resolutions, and the tree whose layer `l`
/// holds, for each cell of `voronois[l]` that it covers, the cell's bounding
/// box and its index in that diagram.
#[derive(Debug)]
pub struct HierarchicVoronoi {
    pub voronois: Vec<Voronoi>,
    pub hierarchy: Tree<(BoundingBox, usize)>,
}

/// One leaf per centroid, in order, carrying the centroid's bounding box and
/// its index.
pub open spec fn first_layer_leaves(pos: Seq<glam::Vec2>, radii: Seq<u32>) -> Seq<
    TreeNode<(BoundingBox, usize)>,
> {
    Seq::new(
        pos.len(),
        |i: int| TreeNode::Leaf { val: (BoundingBox { pos: pos[i], rad_bits: radii[i] }, i as usize) },
    )
}

/// The cell values of layer `l` of `vs`; none when there is no such layer.
pub open spec fn layer_values(vs: Seq<Voronoi>, l: int) -> Seq<Cell> {
    if 0 <= l < vs.len() {
        vs[l].nodes_values@
    } else {
        Seq::empty()
    }
}

/// The centroids of layer `l` of `vs`; none when there is no such layer.
pub open spec fn layer_positions(vs: Seq<Voronoi>, l: int) -> Seq<glam::Vec2> {
    if 0 <= l < vs.len() {
        vs[l].nodes_pos@
    } else {
        Seq::empty()
    }
}

/// What the tree records of the children of a subdivided cell: for child `k`,
/// its bounding box (its centroid and radius `radii[k]`) and its index
/// `n0 + k` in the finer diagram, whose first `n0` cells were there before.
pub open spec fn subdivision_kids(children: Seq<(Cell, glam::Vec2)>, radii: Seq<u32>, n0: nat) -> Seq<
    (BoundingBox, usize),
> {
    Seq::new(
        children.len(),
        |k: int| (BoundingBox { pos: children[k].1, rad_bits: radii[k] }, (n0 + k) as usize),
    )
}

/// The cell at `index` of the hierarchy can be subdivided: it is a leaf of a
/// layer that has its diagram.
pub open spec fn can_subdivide(h: HierarchicVoronoi, index: TreeIndex) -> bool {
    (node_at(h.hierarchy@, index) matches Some(TreeNode::Leaf { .. })) && index.0 < h.voronois@.len()
}

/// When the cell at `index` can be subdivided, the cell that its leaf names
/// has a value and a neighbour list in its diagram, and its neighbours are
/// cells of that diagram.
pub open spec fn subdivision_readable(h: HierarchicVoronoi, index: TreeIndex) -> bool {
    can_subdivide(h, index) ==> {
        let i = node_at(h.hierarchy@, index).unwrap().value().1;
        let layer = h.voronois@[index.0 as int];
        &&& i < layer.nodes_values@.len()
        &&& i < layer.nodes_ngh@.len()
        &&& forall|k: int|
            0 <= k < layer.nodes_ngh@[i as int]@.len() ==> #[trigger] layer.nodes_ngh@[i as int]@[k]
                < layer.nodes_values@.len()
    }
}

/// What the subdivision of the cell at `index` starts from: the value of the
/// cell that its leaf names, the leaf's bounding box, and the values of that
/// cell's neighbours in the order of its neighbour list.
pub open spec fn subdivision_input_of(h: HierarchicVoronoi, index: TreeIndex) -> (
    Cell,
    BoundingBox,
    Seq<Cell>,
) {
    let val = node_at(h.hierarchy@, index).unwrap().value();
    let layer = h.voronois@[index.0 as int];
    (
        layer.nodes_values@[val.1 as int],
        val.0,
        layer.nodes_ngh@[val.1 as int]@.map_values(|j: usize| layer.nodes_values@[j as int]),
    )
}

/// `new` is `old` with `children` (values and centroids) appended to layer
/// `l` (created empty when missing) and every other layer unchanged.
pub open spec fn appended_diagrams(
    before: Seq<Voronoi>,
    after: Seq<Voronoi>,
    l: int,
    children: Seq<(Cell, glam::Vec2)>,
) -> bool {
    &&& after.len() == (if l < before.len() {
        before.len() as int
    } else {
        l + 1
    })
    &&& forall|q: int| 0 <= q < before.len() && q != l ==> #[trigger] after[q] == before[q]
    &&& after[l].nodes_values@ == layer_values(before, l) + children.map_values(|c: (Cell, glam::Vec2)| c.0)
    &&& after[l].nodes_pos@ == layer_positions(before, l) + children.map_values(|c: (Cell, glam::Vec2)| c.1)
    &&& l < before.len() ==> {
        &&& after[l].nodes_ngh@ == before[l].nodes_ngh@
        &&& after[l].adjacency@ == before[l].adjacency@
        &&& after[l].nodes_corner@ == before[l].nodes_corner@
        &&& after[l].corners_pos@ == before[l].corners_pos@
    }
    &&& l >= before.len() ==> {
        &&& after[l].nodes_ngh@.len() == 0
        &&& after[l].adjacency@.len() == 0
        &&& after[l].nodes_corner@.len() == 0
        &&& after[l].corners_pos@.len() == 0
    }
}

/// `new` is `old` once the cell at `index` has been subdivided into
/// `children`, with radii `radii`: the children are appended to the next
/// finer diagram, and the leaf at `index` has become the parent of one leaf per
/// child, recording its bounding box and its index in that diagram.
pub open spec fn is_subdivision(
    before: HierarchicVoronoi,
    after: HierarchicVoronoi,
    index: TreeIndex,
    children: Seq<(Cell, glam::Vec2)>,
    radii: Seq<u32>,
) -> bool {
    let l = index.0 + 1;
    let n0 = layer_positions(before.voronois@, l).len();
    &&& appended_diagrams(before.voronois@, after.voronois@, l, children)
    &&& after.hierarchy@ == with_children(
        before.hierarchy@,
        index,
        node_at(before.hierarchy@, index).unwrap().value(),
        subdivision_kids(children, radii, n0),
    )
}

/// Every node of the hierarchy names a cell of the diagram of its layer.
pub open spec fn names_cells(h: HierarchicVoronoi) -> bool {
    forall|l: int, i: int|
        0 <= l < h.hierarchy@.len() && 0 <= i < h.hierarchy@[l].len() ==> #[trigger] names_cell(h, l, i)
}

/// The node at `(l, i)` of the hierarchy names a cell of the diagram of layer
/// `l`.
pub open spec fn names_cell(h: HierarchicVoronoi, l: int, i: int) -> bool {
    l < h.voronois@.len() && h.hierarchy@[l][i].value().1 < h.voronois@[l].nodes_pos@.len()
}

impl HierarchicVoronoi {
    /// The hierarchy of one diagram: a tree of one layer, with a leaf per cell
    /// of `first_layer`, whose radii (as bit patterns) are `radii`.
    pub fn new(first_layer: Voronoi, radii: Vec<u32>) -> (r: Self)
        requires
            radii@.len() == first_layer.nodes_pos@.len(),
        ensures
            r.voronois@ == seq![first_layer],
            r.hierarchy.wf(),
            r.hierarchy@ == seq![first_layer_leaves(first_layer.nodes_pos@, radii@)],
            names_cells(r),
    {
        let n = first_layer.nodes_pos.len();
        let mut leaves: Vec<TreeNode<(BoundingBox, usize)>> = Vec::new();
        let mut index: usize = 0;
        while index < n
            invariant
                n == first_layer.nodes_pos@.len(),
                radii@.len() == n,
                index <= n,
                leaves@ =~= first_layer_leaves(first_layer.nodes_pos@, radii@).subrange(0, index as int),
            decreases n - index,
        {
            let bounding = BoundingBox { pos: first_layer.nodes_pos[index], rad_bits: radii[index] };
            leaves.push(TreeNode::Leaf { val: (bounding, index) });
            index = index + 1;
        }
        let ghost first = leaves@;
        proof {
            assert(first_layer_leaves(first_layer.nodes_pos@, radii@).subrange(0, n as int)
                =~= first_layer_leaves(first_layer.nodes_pos@, radii@));
        }
        let mut layers: Vec<Vec<TreeNode<(BoundingBox, usize)>>> = Vec::new();
        layers.push(leaves);
        let hierarchy = Tree { layers };
        proof {
            hierarchy.lemma_view();
            assert(hierarchy@[0] == first);
            assert(layers_wf(hierarchy@));
            assert(hierarchy@ =~= seq![first_layer_leaves(first_layer.nodes_pos@, radii@)]);
        }
        let mut voronois: Vec<Voronoi> = Vec::new();
        voronois.push(first_layer);
        let r = HierarchicVoronoi { voronois, hierarchy };
        proof {
            assert forall|l: int, i: int|
                0 <= l < r.hierarchy@.len() && 0 <= i < r.hierarchy@[l].len() implies #[trigger] names_cell(
                    r,
                    l,
                    i,
                ) by {
                assert(l == 0);
                assert(r.voronois@[0] == first_layer);
            }
        }
        r
    }

    /// What the subdivision of the cell at `index` of the hierarchy starts
    /// from, when that cell is a leaf of a layer that has its diagram: the
    /// cell's value, its bounding box, and the values of its neighbours, in the
    /// order of its neighbour list.
    pub fn subdivision_input(&self, index: TreeIndex) -> (r: Option<(Cell, BoundingBox, Vec<Cell>)>)
        requires
            subdivision_readable(*self, index),
        ensures
            if can_subdivide(*self, index) {
                &&& r is Some
                &&& r.unwrap().0 == subdivision_input_of(*self, index).0
                &&& r.unwrap().1 == subdivision_input_of(*self, index).1
                &&& r.unwrap().2@ == subdivision_input_of(*self, index).2
            } else {
                r is None
            },
    {
        match self.hierarchy.get(index) {
            Some(TreeNode::Leaf { val }) => {
                if index.0 >= self.voronois.len() {
                    return None;
                }
                let (bounding, i) = *val;
                let layer = &self.voronois[index.0];
                let cell = layer.nodes_values[i];
                let ngh = &layer.nodes_ngh[i];
                let mut values: Vec<Cell> = Vec::new();
                let mut k: usize = 0;
                while k < ngh.len()
                    invariant
                        k <= ngh@.len(),
                        forall|q: int| 0 <= q < ngh@.len() ==> #[trigger] ngh@[q] < layer.nodes_values@.len(),
                        values@ =~= ngh@.take(k as int).map_values(
                            |j: usize| layer.nodes_values@[j as int],
                        ),
                    decreases ngh@.len() - k,
                {
                    values.push(layer.nodes_values[ngh[k]]);
                    k = k + 1;
                }
                proof {
                    assert(ngh@.take(ngh@.len() as int) =~= ngh@);
                }
                Some((cell, bounding, values))
            },
            _ => None,
        }
    }

    /// Subdivides the cell at `index` of the hierarchy, when it is a leaf of a
    /// layer that has its diagram: the cells `children` (values and centroids)
    /// are appended to the next finer diagram (created empty when missing), and
    /// the leaf becomes the parent of one new leaf per child, recording the
    /// child's bounding box (its centroid and radius `radii[k]`) and its index in
    /// the finer diagram. Otherwise nothing changes and `false` is returned.
    pub fn subdivide_cell(
        &mut self,
        index: TreeIndex,
        children: Vec<(Cell, glam::Vec2)>,
        radii: Vec<u32>,
    ) -> (r: bool)
        requires
            radii@.len() == children@.len(),
        ensures
            final(self).hierarchy.wf(),
            names_cells(*old(self)) ==> names_cells(*final(self)),
            if can_subdivide(*old(self), index) {
                r && is_subdivision(*old(self), *final(self), index, children@, radii@)
            } else {
                !r && *final(self) == *old(self)
            },
    {
        proof {
            use_type_invariant(&self.hierarchy);
        }
        let is_leaf = match self.hierarchy.get(index) {
            Some(TreeNode::Leaf { .. }) => true,
            _ => false,
        };
        if !is_leaf || index.0 >= self.voronois.len() {
            return false;
        }
        let ghost before = *self;
        let n0 = self.append_children(index, &children);
        self.record_children(index, &children, &radii, n0);
        proof {
            assert(is_subdivision(before, *self, index, children@, radii@));
            if names_cells(before) {
                lemma_subdivision_names_cells(before, *self, index, children@, radii@);
            }
        }
        true
    }

    /// Subdivides the cell at `index` of the hierarchy, when it is a leaf of a
    /// layer that has its diagram, into the cells that `generation_rule` gives
    /// for what [`HierarchicVoronoi::subdivision_input`] gives (the cell, its
    /// bounding box and its neighbours' values), each with the radius that
    /// `radius` measures for it in the finer diagram once all of them are
    /// there. Otherwise nothing changes, no rule is applied, and `false` is
    /// returned.
    pub fn subdivide_cell_with<F, G>(&mut self, generation_rule: F, radius: G, index: TreeIndex) -> (r:
        bool) where
        F: Fn((Cell, BoundingBox, Vec<Cell>)) -> Vec<(Cell, glam::Vec2)>,
        G: Fn(&Voronoi, usize) -> u32,

        requires
            subdivision_readable(*old(self), index),
            forall|inp: (Cell, BoundingBox, Vec<Cell>)| call_requires(generation_rule, (inp,)),
            forall|v: Voronoi, i: usize| call_requires(radius, (&v, i)),
        ensures
            final(self).hierarchy.wf(),
            names_cells(*old(self)) ==> names_cells(*final(self)),
            if can_subdivide(*old(self), index) {
                &&& r
                &&& exists|
                    inp: (Cell, BoundingBox, Vec<Cell>),
                    children: Vec<(Cell, glam::Vec2)>,
                    radii: Vec<u32>,
                |
                    #![trigger call_ensures(generation_rule, (inp,), children), is_subdivision(*old(self), *final(self), index, children@, radii@)]
                    {
                        &&& inp.0 == subdivision_input_of(*old(self), index).0
                        &&& inp.1 == subdivision_input_of(*old(self), index).1
                        &&& inp.2@ == subdivision_input_of(*old(self), index).2
                        &&& call_ensures(generation_rule, (inp,), children)
                        &&& radii@.len() == children@.len()
                        &&& forall|k: int|
                            0 <= k < radii@.len() ==> call_ensures(
                                radius,
                                (
                                    &final(self).voronois@[index.0 + 1],
                                    (layer_positions(old(self).voronois@, index.0 + 1).len()
                                        + k) as usize,
                                ),
                                #[trigger] radii@[k],
                            )
                        &&& is_subdivision(*old(self), *final(self), index, children@, radii@)
                    }
            } else {
                !r && *final(self) == *old(self)
            },
    {
        proof {
            use_type_invariant(&self.hierarchy);
        }
        let input = self.subdivision_input(index);
        match input {
            None => false,
            Some(inp) => {
                let ghost before = *self;
                let ghost given = inp;
                let children = generation_rule(inp);
                let count = self.voronois.len();
                let n0 = self.append_children(index, &children);
                assert(index.0 < count);
                let l = index.0 + 1;
                let mut radii: Vec<u32> = Vec::new();
                let mut k: usize = 0;
                while k < children.len()
                    invariant
                        k <= children@.len(),
                        n0 + children@.len() <= usize::MAX,
                        l < self.voronois@.len(),
                        forall|v: Voronoi, i: usize| call_requires(radius, (&v, i)),
                        radii@.len() == k,
                        forall|q: int|
                            0 <= q < k ==> call_ensures(
                                radius,
                                (&self.voronois@[l as int], (n0 + q) as usize),
                                #[trigger] radii@[q],
                            ),
                    decreases children@.len() - k,
                {
                    let rad = radius(&self.voronois[l], n0 + k);
                    radii.push(rad);
                    k = k + 1;
                }
                let ghost appended = *self;
                self.record_children(index, &children, &radii, n0);
                proof {
                    assert(self.voronois == appended.voronois);
                    assert(is_subdivision(before, *self, index, children@, radii@));
                    assert(call_ensures(generation_rule, (given,), children));
                    if names_cells(before) {
                        lemma_subdivision_names_cells(before, *self, index, children@, radii@);
                    }
                }
                true
            },
        }
    }

    /// Appends `children` to the diagram of the layer below the leaf at
    /// `index` (created empty when missing); gives how many cells it had.
    fn append_children(&mut self, index: TreeIndex, children: &Vec<(Cell, glam::Vec2)>) -> (n0: usize)
        requires
            can_subdivide(*old(self), index),
        ensures
            final(self).hierarchy == old(self).hierarchy,
            n0 == layer_positions(old(self).voronois@, index.0 + 1).len(),
            n0 + children@.len() <= usize::MAX,
            final(self).voronois@[index.0 + 1].nodes_pos@.len() == n0 + children@.len(),
            appended_diagrams(old(self).voronois@, final(self).voronois@, index.0 + 1, children@),
    {
        let ghost ov = self.voronois@;
        let count = self.voronois.len();
        assert(index.0 < count);
        let l = index.0 + 1;
        if l == count {
            self.voronois.push(Voronoi::new());
        }
        let ghost base = self.voronois@;
        let n0 = self.voronois[l].nodes_pos.len();
        let ghost values0 = self.voronois@[l as int].nodes_values@;
        let ghost pos0 = self.voronois@[l as int].nodes_pos@;
        proof {
            assert(values0 == layer_values(ov, l as int));
            assert(pos0 == layer_positions(ov, l as int));
        }
        let mut k: usize = 0;
        while k < children.len()
            invariant
                self.hierarchy == old(self).hierarchy,
                l < self.voronois@.len(),
                self.voronois@.len() == base.len(),
                forall|q: int| 0 <= q < base.len() && q != l ==> #[trigger] self.voronois@[q] == base[q],
                k <= children@.len(),
                self.voronois@[l as int].nodes_values@ =~= values0 + children@.take(k as int).map_values(
                    |c: (Cell, glam::Vec2)| c.0,
                ),
                self.voronois@[l as int].nodes_pos@ =~= pos0 + children@.take(k as int).map_values(
                    |c: (Cell, glam::Vec2)| c.1,
                ),
                self.voronois@[l as int].nodes_ngh@ == base[l as int].nodes_ngh@,
                self.voronois@[l as int].adjacency@ == base[l as int].adjacency@,
                self.voronois@[l as int].nodes_corner@ == base[l as int].nodes_corner@,
                self.voronois@[l as int].corners_pos@ == base[l as int].corners_pos@,
            decreases children@.len() - k,
        {
            let (cell, pos) = children[k];
            self.voronois[l].add_cell(cell, pos);
            k = k + 1;
        }
        proof {
            assert(children@.take(children@.len() as int) =~= children@);
        }
        let total = self.voronois[l].nodes_pos.len();
        proof {
            assert(total == n0 + children@.len());
        }
        n0
    }

    /// Makes the leaf at `index` the parent of one new leaf per child, each
    /// recording the child's bounding box and its index `n0 + k` in the finer
    /// diagram.
    fn record_children(
        &mut self,
        index: TreeIndex,
        children: &Vec<(Cell, glam::Vec2)>,
        radii: &Vec<u32>,
        n0: usize,
    )
        requires
            node_at(old(self).hierarchy@, index) matches Some(TreeNode::Leaf { .. }),
            radii@.len() == children@.len(),
            n0 + children@.len() <= usize::MAX,
        ensures
            final(self).voronois == old(self).voronois,
            final(self).hierarchy.wf(),
            final(self).hierarchy@ == with_children(
                old(self).hierarchy@,
                index,
                node_at(old(self).hierarchy@, index).unwrap().value(),
                subdivision_kids(children@, radii@, n0 as nat),
            ),
    {
        let mut kids: Vec<(BoundingBox, usize)> = Vec::new();
        let mut k: usize = 0;
        while k < children.len()
            invariant
                k <= children@.len(),
                radii@.len() == children@.len(),
                n0 + children@.len() <= usize::MAX,
                kids@ =~= subdivision_kids(children@, radii@, n0 as nat).take(k as int),
            decreases children@.len() - k,
        {
            let (_, pos) = children[k];
            kids.push((BoundingBox { pos, rad_bits: radii[k] }, n0 + k));
            k = k + 1;
        }
        proof {
            assert(subdivision_kids(children@, radii@, n0 as nat).take(children@.len() as int)
                =~= subdivision_kids(children@, radii@, n0 as nat));
        }
        let _ = self.hierarchy.create_children(index, kids);
    }
}

// ---------------------------------------------------------------------------
// Laws
// ---------------------------------------------------------------------------

/// Once the leaf at `leaf` has been given the children `kids`: it is a parent
/// that keeps its value, its children are exactly as many new leaves, carrying
/// `kids` in order, every node that was there before keeps its place and
/// contents, and the tree stays well formed.
pub proof fn lemma_children_after_create<T>(layers: Seq<Seq<TreeNode<T>>>, leaf: TreeIndex, kids: Seq<T>)
    requires
        layers_wf(layers),
        node_at(layers, leaf) matches Some(TreeNode::Leaf { .. }),
        with_children(layers, leaf, node_at(layers, leaf).unwrap().value(), kids).len() <= usize::MAX,
        forall|l: int|
            0 <= l < with_children(layers, leaf, node_at(layers, leaf).unwrap().value(), kids).len()
                ==> #[trigger] with_children(
                layers,
                leaf,
                node_at(layers, leaf).unwrap().value(),
                kids,
            )[l].len() <= usize::MAX,
    ensures
        ({
            let val = node_at(layers, leaf).unwrap().value();
            let new = with_children(layers, leaf, val, kids);
            &&& node_at(new, leaf) matches Some(TreeNode::Parent { val: v, .. }) && v == val
            &&& child_indices(new, leaf).len() == kids.len()
            &&& forall|k: int|
                0 <= k < kids.len() ==> node_at(new, #[trigger] child_indices(new, leaf)[k])
                    == Some(TreeNode::Leaf { val: kids[k] })
            &&& forall|id: TreeIndex|
                id != leaf && #[trigger] node_at(layers, id) is Some ==> node_at(new, id) == node_at(
                    layers,
                    id,
                )
            &&& layers_wf(new)
        }),
{
    let val = node_at(layers, leaf).unwrap().value();
    let new = with_children(layers, leaf, val, kids);
    let base = if layers.len() == leaf.0 + 1 {
        layers.push(Seq::empty())
    } else {
        layers
    };
    let next = base[leaf.0 + 1];
    assert(new[leaf.0 + 1].len() <= usize::MAX);
    assert(new[leaf.0 + 1].len() == next.len() + kids.len());
    assert(node_at(new, leaf) == Some(
        TreeNode::Parent { val, start: next.len() as usize, len: kids.len() as usize },
    ));
    assert forall|k: int| 0 <= k < kids.len() implies node_at(new, #[trigger] child_indices(new, leaf)[k])
        == Some(TreeNode::Leaf { val: kids[k] }) by {
        let c = child_indices(new, leaf)[k];
        assert(c == TreeIndex((leaf.0 + 1) as usize, (next.len() + k) as usize));
        assert(new[leaf.0 + 1][next.len() + k] == TreeNode::Leaf { val: kids[k] });
    }
    assert forall|id: TreeIndex| id != leaf && #[trigger] node_at(layers, id) is Some implies node_at(
        new,
        id,
    ) == node_at(layers, id) by {
        assert(base[id.0 as int][id.1 as int] == layers[id.0 as int][id.1 as int]);
    }
    assert forall|l: int, i: int| 0 <= l < new.len() && 0 <= i < new[l].len() implies match #[trigger] new[l][i] {
        TreeNode::Parent { start, len, .. } => l + 1 < new.len() && start + len <= new[l + 1].len(),
        TreeNode::Leaf { .. } => true,
    } by {
        if l == leaf.0 && i == leaf.1 {
        } else if l == leaf.0 + 1 && i >= next.len() {
            assert(new[l][i] == TreeNode::Leaf { val: kids[i - next.len()] });
        } else {
            assert(new[l][i] == base[l][i]);
            if l < layers.len() {
                assert(base[l][i] == layers[l][i]);
            }
        }
    }
}

/// Giving a leaf its children keeps every node below the first layer the child
/// of exactly one parent.
pub proof fn lemma_partition_after_create<T>(
    layers: Seq<Seq<TreeNode<T>>>,
    leaf: TreeIndex,
    val: T,
    kids: Seq<T>,
)
    requires
        layers_wf(layers),
        layers_partitioned(layers),
        node_at(layers, leaf) matches Some(TreeNode::Leaf { .. }),
        with_children(layers, leaf, val, kids).len() <= usize::MAX,
        forall|l: int|
            0 <= l < with_children(layers, leaf, val, kids).len() ==> #[trigger] with_children(
                layers,
                leaf,
                val,
                kids,
            )[l].len() <= usize::MAX,
    ensures
        layers_partitioned(with_children(layers, leaf, val, kids)),
{
    let new = with_children(layers, leaf, val, kids);
    let pushed = layers.len() == leaf.0 + 1;
    let base = if pushed {
        layers.push(Seq::empty())
    } else {
        layers
    };
    let next = base[leaf.0 + 1];
    let n0 = next.len() as usize;
    let lp = leaf.0 as int;
    let lq = leaf.1 as int;
    assert(new[lp + 1].len() <= usize::MAX);
    assert(new[lp + 1].len() == next.len() + kids.len());
    assert(new[lp][lq] == TreeNode::Parent { val, start: n0, len: kids.len() as usize });
    assert forall|l: int, i: int| 0 <= l && l + 1 < new.len() && 0 <= i < new[l + 1].len() implies #[trigger] has_one_parent(
        new[l],
        i,
    ) by {
        if l == lp {
            if i < next.len() {
                assert(!pushed);
                assert(next == layers[l + 1]);
                assert(has_one_parent(layers[l], i));
                let p = choose|p: int| #[trigger] covers(layers[l], p, i);
                assert(p != lq);
                assert(new[l][p] == layers[l][p]);
                assert(covers(new[l], p, i));
                assert forall|p1: int, p2: int| #[trigger] covers(new[l], p1, i) && #[trigger] covers(new[l], p2, i) implies p1 == p2 by {
                    assert(p1 != lq);
                    assert(p2 != lq);
                    assert(new[l][p1] == layers[l][p1]);
                    assert(new[l][p2] == layers[l][p2]);
                    assert(covers(layers[l], p1, i));
                    assert(covers(layers[l], p2, i));
                }
            } else {
                assert(covers(new[l], lq, i));
                assert forall|p1: int| #[trigger] covers(new[l], p1, i) implies p1 == lq by {
                    if p1 != lq {
                        assert(new[l][p1] == layers[l][p1]);
                        assert(layers[l][p1] is Parent);
                    }
                }
            }
        } else if l == lp + 1 {
            assert(!pushed);
            assert(new[l + 1] == layers[l + 1]);
            assert(has_one_parent(layers[l], i));
            let p = choose|p: int| #[trigger] covers(layers[l], p, i);
            assert(new[l][p] == layers[l][p]);
            assert(covers(new[l], p, i));
            assert forall|p1: int| #[trigger] covers(new[l], p1, i) implies p1 == p by {
                if p1 >= next.len() {
                    assert(new[l][p1] == TreeNode::Leaf { val: kids[p1 - next.len()] });
                } else {
                    assert(new[l][p1] == layers[l][p1]);
                    assert(covers(layers[l], p1, i));
                }
            }
        } else {
            assert(l < layers.len());
            assert(new[l] == layers[l]);
            assert(new[l + 1].len() == layers[l + 1].len());
            assert(has_one_parent(layers[l], i));
        }
    }
}

/// When the subtree of `root` lies entirely above layer `max_level`, the
/// exploration of [`Tree::get_nth_level_of_root`] is the exploration that
/// never stops, and gives back only leaves.
pub proof fn lemma_deep_level_is_full_exploration<T>(
    layers: Seq<Seq<TreeNode<T>>>,
    root: TreeIndex,
    max_level: usize,
)
    requires
        subtree_depth(layers, root) < max_level,
    ensures
        explore(layers, root, level_at_least::<T>(max_level)) == explore(layers, root, never_stop::<T>()),
        forall|k: int|
            0 <= k < explore(layers, root, never_stop::<T>()).len() ==> (node_at(
                layers,
                #[trigger] explore(layers, root, never_stop::<T>())[k],
            ) matches Some(n) && n is Leaf),
        forall|x: TreeIndex|
            #[trigger] explore(layers, root, level_at_least::<T>(max_level)).contains(x) <==> (subtree(
                layers,
                root,
            ).contains(x) && node_at(layers, x) matches Some(TreeNode::Leaf { .. })),
{
    lemma_explore_deep(layers, root, max_level);
    lemma_explore_stops_at_leaves(layers, root, never_stop::<T>());
    lemma_full_exploration_leaves(layers, root);
}

/// The exploration that never stops gives back exactly the leaves of the
/// subtree.
pub proof fn lemma_full_exploration_leaves<T>(layers: Seq<Seq<TreeNode<T>>>, id: TreeIndex)
    ensures
        forall|x: TreeIndex|
            #[trigger] explore(layers, id, never_stop::<T>()).contains(x) <==> (subtree(
                layers,
                id,
            ).contains(x) && node_at(layers, x) matches Some(TreeNode::Leaf { .. })),
    decreases layers.len() - id.0, 0int, 0int,
{
    match node_at(layers, id) {
        None => {},
        Some(node) => match node {
            TreeNode::Leaf { .. } => {
                assert forall|x: TreeIndex|
                    #[trigger] explore(layers, id, never_stop::<T>()).contains(x) <==> (subtree(
                        layers,
                        id,
                    ).contains(x) && node_at(layers, x) matches Some(TreeNode::Leaf { .. })) by {
                    if seq![id].contains(x) {
                        assert(seq![id][0] == id);
                    }
                    if x == id {
                        assert(seq![id][0] == x);
                    }
                }
            },
            TreeNode::Parent { start, len, .. } => {
                assert(!(never_stop::<T>())(id, node));
                lemma_full_range_leaves(layers, id.0 + 1, start as int, len as nat);
                let rest = subtree_range(layers, id.0 + 1, start as int, len as nat);
                assert(explore(layers, id, never_stop::<T>()) == explore_range(
                    layers,
                    id.0 + 1,
                    start as int,
                    len as nat,
                    never_stop::<T>(),
                ));
                assert(subtree(layers, id) == seq![id] + rest);
                assert forall|x: TreeIndex|
                    #[trigger] explore(layers, id, never_stop::<T>()).contains(x) <==> (subtree(
                        layers,
                        id,
                    ).contains(x) && node_at(layers, x) matches Some(TreeNode::Leaf { .. })) by {
                    lemma_concat_contains(seq![id], rest, x);
                    if seq![id].contains(x) {
                        assert(seq![id][0] == id);
                    }
                }
            },
        },
    }
}

proof fn lemma_full_range_leaves<T>(layers: Seq<Seq<TreeNode<T>>>, layer: int, start: int, len: nat)
    ensures
        forall|x: TreeIndex|
            #[trigger] explore_range(layers, layer, start, len, never_stop::<T>()).contains(x) <==> (
            subtree_range(layers, layer, start, len).contains(x) && node_at(layers, x) matches Some(
                TreeNode::Leaf { .. },
            )),
    decreases layers.len() - layer, 1int, len,
{
    if len == 0 || !(0 <= layer <= usize::MAX) {
    } else {
        let first = TreeIndex(layer as usize, (start + len - 1) as usize);
        lemma_full_exploration_leaves(layers, first);
        lemma_full_range_leaves(layers, layer, start, (len - 1) as nat);
        assert forall|x: TreeIndex|
            #[trigger] explore_range(layers, layer, start, len, never_stop::<T>()).contains(x) <==> (
            subtree_range(layers, layer, start, len).contains(x) && node_at(layers, x) matches Some(
                TreeNode::Leaf { .. },
            )) by {
            lemma_concat_contains(
                explore(layers, first, never_stop::<T>()),
                explore_range(layers, layer, start, (len - 1) as nat, never_stop::<T>()),
                x,
            );
            lemma_concat_contains(
                subtree(layers, first),
                subtree_range(layers, layer, start, (len - 1) as nat),
                x,
            );
        }
    }
}

/// An element is in the concatenation of two sequences exactly when it is in
/// one of them.
proof fn lemma_concat_contains<A>(a: Seq<A>, b: Seq<A>, x: A)
    ensures
        (a + b).contains(x) <==> (a.contains(x) || b.contains(x)),
{
    if (a + b).contains(x) {
        let m = choose|m: int| 0 <= m < (a + b).len() && (a + b)[m] == x;
        if m < a.len() {
            assert(a[m] == x);
        } else {
            assert(b[m - a.len()] == x);
        }
    }
    if a.contains(x) {
        let m = choose|m: int| 0 <= m < a.len() && a[m] == x;
        assert((a + b)[m] == x);
    }
    if b.contains(x) {
        let m = choose|m: int| 0 <= m < b.len() && b[m] == x;
        assert((a + b)[a.len() + m] == x);
    }
}

proof fn lemma_explore_deep<T>(layers: Seq<Seq<TreeNode<T>>>, id: TreeIndex, m: usize)
    requires
        subtree_depth(layers, id) < m,
    ensures
        explore(layers, id, level_at_least::<T>(m)) == explore(layers, id, never_stop::<T>()),
    decreases layers.len() - id.0, 0int, 0int,
{
    match node_at(layers, id) {
        None => {},
        Some(node) => match node {
            TreeNode::Leaf { .. } => {},
            TreeNode::Parent { start, len, .. } => {
                assert(!(level_at_least::<T>(m))(id, node));
                assert(!(never_stop::<T>())(id, node));
                lemma_explore_range_deep(layers, id.0 + 1, start as int, len as nat, m);
            },
        },
    }
}

proof fn lemma_explore_range_deep<T>(
    layers: Seq<Seq<TreeNode<T>>>,
    layer: int,
    start: int,
    len: nat,
    m: usize,
)
    requires
        depth_range(layers, layer, start, len) < m,
    ensures
        explore_range(layers, layer, start, len, level_at_least::<T>(m)) == explore_range(
            layers,
            layer,
            start,
            len,
            never_stop::<T>(),
        ),
    decreases layers.len() - layer, 1int, len,
{
    if len == 0 || !(0 <= layer <= usize::MAX) {
    } else {
        let first = TreeIndex(layer as usize, (start + len - 1) as usize);
        lemma_explore_deep(layers, first, m);
        lemma_explore_range_deep(layers, layer, start, (len - 1) as nat, m);
    }
}

/// A subdivision keeps every node of the hierarchy naming a cell of the
/// diagram of its layer.
pub proof fn lemma_subdivision_names_cells(
    before: HierarchicVoronoi,
    after: HierarchicVoronoi,
    index: TreeIndex,
    children: Seq<(Cell, glam::Vec2)>,
    radii: Seq<u32>,
)
    requires
        names_cells(before),
        can_subdivide(before, index),
        is_subdivision(before, after, index, children, radii),
        after.voronois@[index.0 + 1].nodes_pos@.len() <= usize::MAX,
    ensures
        names_cells(after),
{
    assert forall|q: int, i: int|
        0 <= q < after.hierarchy@.len() && 0 <= i < after.hierarchy@[q].len() implies #[trigger] names_cell(
            after,
            q,
            i,
        ) by {
        lemma_subdivided_node_names_cell(before, after, index, children, radii, q, i);
    }
}

proof fn lemma_subdivided_node_names_cell(
    before: HierarchicVoronoi,
    after: HierarchicVoronoi,
    index: TreeIndex,
    children: Seq<(Cell, glam::Vec2)>,
    radii: Seq<u32>,
    q: int,
    i: int,
)
    requires
        names_cells(before),
        can_subdivide(before, index),
        is_subdivision(before, after, index, children, radii),
        after.voronois@[index.0 + 1].nodes_pos@.len() <= usize::MAX,
        0 <= q < after.hierarchy@.len(),
        0 <= i < after.hierarchy@[q].len(),
    ensures
        names_cell(after, q, i),
{
    let l0 = index.0 as int;
    let l = l0 + 1;
    let n0 = layer_positions(before.voronois@, l).len();
    let ot = before.hierarchy@;
    let nt = after.hierarchy@;
    let val = node_at(ot, index).unwrap().value();
    let kids = subdivision_kids(children, radii, n0);
    let pushed = ot.len() == l0 + 1;
    let base = if pushed {
        ot.push(Seq::empty())
    } else {
        ot
    };
    let next = base[l];
    assert(nt == with_children(ot, index, val, kids));
    assert(after.voronois@[l].nodes_pos@.len() == n0 + children.len());
    if q < ot.len() && i < ot[q].len() {
        assert(names_cell(before, q, i));
    }
    if q == l0 && i == index.1 {
        assert(ot[q][i].value() == val);
        assert(nt[q][i].value() == val);
        assert(after.voronois@[q] == before.voronois@[q]);
    } else if q == l && i >= next.len() {
        let k = i - next.len();
        assert(nt[q][i] == TreeNode::Leaf { val: kids[k] });
        assert(kids[k].1 == (n0 + k) as usize);
    } else if q == l {
        assert(!pushed);
        assert(nt[q][i] == ot[q][i]);
        assert(q < before.voronois@.len());
        assert(before.voronois@[q].nodes_pos@.len() == n0);
    } else {
        assert(q < ot.len());
        assert(nt[q][i] == ot[q][i]);
        assert(q < before.voronois@.len());
        assert(after.voronois@[q] == before.voronois@[q]);
    }
}

/// Every node that an exploration from `id` gives back is a leaf or a parent
/// at which the exploration stopped.
pub proof fn lemma_explore_stops_at_leaves<T>(
    layers: Seq<Seq<TreeNode<T>>>,
    id: TreeIndex,
    stop: spec_fn(TreeIndex, TreeNode<T>) -> bool,
)
    ensures
        forall|k: int|
            0 <= k < explore(layers, id, stop).len() ==> match node_at(
                layers,
                #[trigger] explore(layers, id, stop)[k],
            ) {
                Some(n) => n is Leaf || stop(explore(layers, id, stop)[k], n),
                None => false,
            },
    decreases layers.len() - id.0, 0int, 0int,
{
    match node_at(layers, id) {
        None => {},
        Some(node) => match node {
            TreeNode::Leaf { .. } => {},
            TreeNode::Parent { start, len, .. } => {
                if !stop(id, node) {
                    lemma_explore_range_stops_at_leaves(layers, id.0 + 1, start as int, len as nat, stop);
                }
            },
        },
    }
}

/// Every node that the explorations of a run of siblings give back is a leaf
/// or a parent at which the exploration stopped.
pub proof fn lemma_explore_range_stops_at_leaves<T>(
    layers: Seq<Seq<TreeNode<T>>>,
    layer: int,
    start: int,
    len: nat,
    stop: spec_fn(TreeIndex, TreeNode<T>) -> bool,
)
    ensures
        forall|k: int|
            0 <= k < explore_range(layers, layer, start, len, stop).len() ==> match node_at(
                layers,
                #[trigger] explore_range(layers, layer, start, len, stop)[k],
            ) {
                Some(n) => n is Leaf || stop(explore_range(layers, layer, start, len, stop)[k], n),
                None => false,
            },
    decreases layers.len() - layer, 1int, len,
{
    if len == 0 || !(0 <= layer <= usize::MAX) {
    } else {
        let first = TreeIndex(layer as usize, (start + len - 1) as usize);
        lemma_explore_stops_at_leaves(layers, first, stop);
        lemma_explore_range_stops_at_leaves(layers, layer, start, (len - 1) as nat, stop);
    }
}


/// The exploration of [`Tree::get_nth_level_of_root`] from `root` with level
/// `max_level` gives back nodes of the layers from `root`'s down to
/// `max_level` (or `root`'s alone, when it lies deeper), each of which is a
/// leaf or lies in layer `max_level` or deeper.
pub proof fn lemma_nth_level<T>(layers: Seq<Seq<TreeNode<T>>>, root: TreeIndex, max_level: usize)
    ensures
        forall|k: int|
            0 <= k < explore(layers, root, level_at_least::<T>(max_level)).len() ==> {
                let x = #[trigger] explore(layers, root, level_at_least::<T>(max_level))[k];
                &&& root.0 <= x.0
                &&& x.0 <= max_level || x.0 == root.0
                &&& node_at(layers, x) matches Some(n) && (n is Leaf || x.0 >= max_level)
            },
{
    lemma_explore_stops_at_leaves(layers, root, level_at_least::<T>(max_level));
    lemma_explore_layers(layers, root, max_level);
}

proof fn lemma_explore_layers<T>(layers: Seq<Seq<TreeNode<T>>>, id: TreeIndex, m: usize)
    ensures
        forall|k: int|
            0 <= k < explore(layers, id, level_at_least::<T>(m)).len() ==> {
                let x = #[trigger] explore(layers, id, level_at_least::<T>(m))[k];
                id.0 <= x.0 && (x.0 <= m || x.0 == id.0)
            },
    decreases layers.len() - id.0, 0int, 0int,
{
    match node_at(layers, id) {
        None => {},
        Some(node) => match node {
            TreeNode::Leaf { .. } => {},
            TreeNode::Parent { start, len, .. } => {
                if id.0 < m {
                    assert(!(level_at_least::<T>(m))(id, node));
                    lemma_explore_range_layers(layers, id.0 + 1, start as int, len as nat, m);
                    assert(explore(layers, id, level_at_least::<T>(m)) == explore_range(
                        layers,
                        id.0 + 1,
                        start as int,
                        len as nat,
                        level_at_least::<T>(m),
                    ));
                } else {
                    assert((level_at_least::<T>(m))(id, node));
                    assert(explore(layers, id, level_at_least::<T>(m)) == seq![id]);
                }
            },
        },
    }
}

proof fn lemma_explore_range_layers<T>(
    layers: Seq<Seq<TreeNode<T>>>,
    layer: int,
    start: int,
    len: nat,
    m: usize,
)
    requires
        layer <= m,
    ensures
        forall|k: int|
            0 <= k < explore_range(layers, layer, start, len, level_at_least::<T>(m)).len() ==> {
                let x = #[trigger] explore_range(layers, layer, start, len, level_at_least::<T>(m))[k];
                layer <= x.0 <= m
            },
    decreases layers.len() - layer, 1int, len,
{
    if len == 0 || !(0 <= layer <= usize::MAX) {
    } else {
        let first = TreeIndex(layer as usize, (start + len - 1) as usize);
        lemma_explore_layers(layers, first, m);
        lemma_explore_range_layers(layers, layer, start, (len - 1) as nat, m);
        let e1 = explore(layers, first, level_at_least::<T>(m));
        let e2 = explore_range(layers, layer, start, (len - 1) as nat, level_at_least::<T>(m));
        assert forall|k: int| 0 <= k < (e1 + e2).len() implies layer <= #[trigger] (e1 + e2)[k].0 <= m by {
            if k < e1.len() {
                assert((e1 + e2)[k] == e1[k]);
            } else {
                assert((e1 + e2)[k] == e2[k - e1.len()]);
            }
        }
    }
}


/// The corner totals grow with the number of cells counted.
proof fn lemma_corner_total_monotone(corners: Seq<Vec<usize>>, a: int, b: int)
    requires
        0 <= a <= b,
    ensures
        corner_total(corners, a) <= corner_total(corners, b),
    decreases b - a,
{
    if a < b {
        lemma_corner_total_monotone(corners, a, b - 1);
    }
}

/// Triangle edges and the triangles that have them: an edge is among the
/// edges of the triangles exactly when some triangle has it, and the triangles
/// that have it are triangles of the list.
pub proof fn lemma_edge_triangles(tris: Seq<(usize, usize, usize)>, e: (usize, usize))
    requires
        tris.len() <= usize::MAX,
    ensures
        triangle_edges(tris).contains(e) <==> edge_triangles(tris, e).len() > 0,
        forall|k: int|
            0 <= k < edge_triangles(tris, e).len() ==> {
                let t = #[trigger] edge_triangles(tris, e)[k];
                t < tris.len() && has_edge(tris[t as int], e)
            },
    decreases tris.len(),
{
    if tris.len() > 0 {
        let rest = tris.drop_last();
        lemma_edge_triangles(rest, e);
        let (i, j, k) = tris.last();
        let old_part = triangle_edges(rest);
        let tail = seq![(i, j), (i, k), (j, k)];
        assert(triangle_edges(tris) == old_part + tail);
        let ts_rest = edge_triangles(rest, e);
        let extra: Seq<usize> = if has_edge(tris.last(), e) {
            seq![(tris.len() - 1) as usize]
        } else {
            Seq::empty()
        };
        assert(edge_triangles(tris, e) == ts_rest + extra);
        if (old_part + tail).contains(e) {
            let m = choose|m: int| 0 <= m < (old_part + tail).len() && (old_part + tail)[m] == e;
            if m < old_part.len() {
                assert(old_part[m] == e);
            } else {
                assert(tail[m - old_part.len()] == e);
            }
        }
        if ts_rest.len() > 0 {
            let m = choose|m: int| 0 <= m < old_part.len() && old_part[m] == e;
            assert((old_part + tail)[m] == e);
        }
        if has_edge(tris.last(), e) {
            if e == (i, j) {
                assert((old_part + tail)[old_part.len() as int] == e);
            } else if e == (i, k) {
                assert((old_part + tail)[old_part.len() as int + 1] == e);
            } else {
                assert((old_part + tail)[old_part.len() as int + 2] == e);
            }
        }
        assert forall|q: int| 0 <= q < (ts_rest + extra).len() implies {
            let t = #[trigger] (ts_rest + extra)[q];
            t < tris.len() && has_edge(tris[t as int], e)
        } by {
            if q < ts_rest.len() {
                let t = ts_rest[q];
                assert((ts_rest + extra)[q] == t);
                assert(tris[t as int] == rest[t as int]);
            }
        }
    }
}

/// `w` is a neighbour of `v` exactly when the pair `(v, w)` or `(w, v)` is in
/// the list.
pub proof fn lemma_neighbours_of_pairs(pairs: Seq<(usize, usize)>, v: usize, w: usize)
    ensures
        neighbours_of(pairs, v).contains(w) <==> (pairs.contains((v, w)) || pairs.contains((w, v))),
    decreases pairs.len(),
{
    if pairs.len() > 0 {
        let rest = pairs.drop_last();
        let (a, b) = pairs.last();
        lemma_neighbours_of_pairs(rest, v, w);
        let tail_a: Seq<usize> = if a == v {
            seq![b]
        } else {
            Seq::empty()
        };
        let tail_b: Seq<usize> = if b == v {
            seq![a]
        } else {
            Seq::empty()
        };
        let nr = neighbours_of(rest, v);
        assert(neighbours_of(pairs, v) == nr + tail_a + tail_b);
        assert(pairs == rest.push((a, b)));
        if neighbours_of(pairs, v).contains(w) {
            let m = choose|m: int| 0 <= m < (nr + tail_a + tail_b).len() && (nr + tail_a + tail_b)[m] == w;
            if m < nr.len() {
                assert(nr[m] == w);
                assert(rest.contains((v, w)) || rest.contains((w, v)));
                if rest.contains((v, w)) {
                    let q = choose|q: int| 0 <= q < rest.len() && rest[q] == (v, w);
                    assert(pairs[q] == (v, w));
                } else {
                    let q = choose|q: int| 0 <= q < rest.len() && rest[q] == (w, v);
                    assert(pairs[q] == (w, v));
                }
            } else {
                assert(pairs[pairs.len() - 1] == (a, b));
            }
        }
        if pairs.contains((v, w)) || pairs.contains((w, v)) {
            let e = if pairs.contains((v, w)) {
                (v, w)
            } else {
                (w, v)
            };
            let q = choose|q: int| 0 <= q < pairs.len() && pairs[q] == e;
            if q < rest.len() {
                assert(rest[q] == e);
                let m = choose|m: int| 0 <= m < nr.len() && nr[m] == w;
                assert((nr + tail_a + tail_b)[m] == w);
            } else {
                assert((a, b) == e);
                if a == v && b == w {
                    assert((nr + tail_a + tail_b)[nr.len() as int] == w);
                } else {
                    assert(b == v && a == w);
                    assert((nr + tail_a + tail_b)[(nr.len() + tail_a.len()) as int] == w);
                }
            }
        }
    }
}

/// The neighbour lists that a list of pairs gives are symmetric: `w` is a
/// neighbour of `v` exactly when `v` is a neighbour of `w`.
pub proof fn lemma_neighbours_symmetric(pairs: Seq<(usize, usize)>, v: usize, w: usize)
    ensures
        neighbours_of(pairs, v).contains(w) <==> neighbours_of(pairs, w).contains(v),
{
    lemma_neighbours_of_pairs(pairs, v, w);
    lemma_neighbours_of_pairs(pairs, w, v);
}

/// Triangle `t` is listed among the corners of `v` exactly when `v` is one of
/// its vertices.
pub proof fn lemma_corners_of(tris: Seq<(usize, usize, usize)>, v: usize, t: usize)
    requires
        tris.len() <= usize::MAX,
    ensures
        corners_of(tris, v).contains(t) <==> (t < tris.len() && (tris[t as int].0 == v
            || tris[t as int].1 == v || tris[t as int].2 == v)),
    decreases tris.len(),
{
    if tris.len() > 0 {
        let rest = tris.drop_last();
        let last = (tris.len() - 1) as usize;
        let (i, j, k) = tris.last();
        lemma_corners_of(rest, v, t);
        let cr = corners_of(rest, v);
        let ti: Seq<usize> = if i == v {
            seq![last]
        } else {
            Seq::empty()
        };
        let tj: Seq<usize> = if j == v {
            seq![last]
        } else {
            Seq::empty()
        };
        let tk: Seq<usize> = if k == v {
            seq![last]
        } else {
            Seq::empty()
        };
        let all = cr + ti + tj + tk;
        assert(corners_of(tris, v) == all);
        assert forall|x: usize| cr.contains(x) implies x < rest.len() by {
            lemma_corners_of(rest, v, x);
        }
        if all.contains(t) {
            let m = choose|m: int| 0 <= m < all.len() && all[m] == t;
            if m < cr.len() {
                assert(cr[m] == t);
                assert(cr.contains(t));
                assert(tris[t as int] == rest[t as int]);
            } else {
                assert(t == last);
            }
        }
        if t < tris.len() && (tris[t as int].0 == v || tris[t as int].1 == v || tris[t as int].2 == v) {
            if t < rest.len() {
                assert(tris[t as int] == rest[t as int]);
                assert(cr.contains(t));
                let m = choose|m: int| 0 <= m < cr.len() && cr[m] == t;
                assert(all[m] == t);
            } else {
                assert(t == last);
                if i == v {
                    assert(all[cr.len() as int] == t);
                } else if j == v {
                    assert(all[(cr.len() + ti.len()) as int] == t);
                } else {
                    assert(all[(cr.len() + ti.len() + tj.len()) as int] == t);
                }
            }
        }
    }
}

/// Every edge of sorted triangles names its smaller end first.
pub proof fn lemma_edges_ordered(raw: Seq<usize>)
    ensures
        forall|m: int|
            0 <= m < triangle_edges(triangles_of(raw)).len() ==> (#[trigger] triangle_edges(
                triangles_of(raw),
            )[m]).0 <= triangle_edges(triangles_of(raw))[m].1,
{
    lemma_edges_ordered_rec(triangles_of(raw));
}

proof fn lemma_edges_ordered_rec(tris: Seq<(usize, usize, usize)>)
    requires
        forall|t: int| 0 <= t < tris.len() ==> (#[trigger] tris[t]).0 <= tris[t].1 <= tris[t].2,
    ensures
        forall|m: int|
            0 <= m < triangle_edges(tris).len() ==> (#[trigger] triangle_edges(tris)[m]).0
                <= triangle_edges(tris)[m].1,
    decreases tris.len(),
{
    if tris.len() > 0 {
        let rest = tris.drop_last();
        lemma_edges_ordered_rec(rest);
        let (i, j, k) = tris.last();
        let e = triangle_edges(rest);
        let tail = seq![(i, j), (i, k), (j, k)];
        assert(triangle_edges(tris) == e + tail);
        assert forall|m: int| 0 <= m < (e + tail).len() implies (#[trigger] (e + tail)[m]).0 <= (e
            + tail)[m].1 by {
            if m < e.len() {
                assert((e + tail)[m] == e[m]);
            } else {
                assert((e + tail)[m] == tail[m - e.len()]);
            }
        }
    }
}


/// Two diagrams of `n` cells whose corners and adjacencies are both those of
/// one triangulation (as [`Voronoi::recompute_all`] leaves them) agree: same
/// corners, same corner lists, the same adjacency pairs (in any order), and
/// the same neighbours for every cell. Recomputing from the same triangulation
/// discards what was there and gives the same data again.
pub proof fn lemma_topology_unique(
    v1: Voronoi,
    v2: Voronoi,
    n: nat,
    raw: Seq<usize>,
    circs: Seq<glam::Vec2>,
)
    requires
        is_topology_of(v1, n, raw, circs),
        is_topology_of(v2, n, raw, circs),
    ensures
        v1.corners_pos@ == v2.corners_pos@,
        forall|c: int| 0 <= c < n ==> #[trigger] v1.nodes_corner@[c]@ == v2.nodes_corner@[c]@,
        adjacency_pairs(v1.adjacency@).to_multiset() == adjacency_pairs(v2.adjacency@).to_multiset(),
        forall|c: int, w: usize|
            0 <= c < n ==> (#[trigger] v1.nodes_ngh@[c]@.contains(w) <==> #[trigger] v2.nodes_ngh@[c]@.contains(w)),
{
    let p1 = adjacency_pairs(v1.adjacency@);
    let p2 = adjacency_pairs(v2.adjacency@);
    assert forall|c: int| 0 <= c < n implies #[trigger] v1.nodes_corner@[c]@ == v2.nodes_corner@[c]@ by {
        assert(v1.nodes_corner@[c]@ == corners_of(triangles_of(raw), c as usize));
    }
    p1.lemma_multiset_has_no_duplicates();
    p2.lemma_multiset_has_no_duplicates();
    p1.to_multiset_ensures();
    p2.to_multiset_ensures();
    assert forall|x: (usize, usize)| p1.to_multiset().count(x) == p2.to_multiset().count(x) by {
        if p1.contains(x) {
            assert(p2.contains(x));
            assert(p1.to_multiset().contains(x));
            assert(p2.to_multiset().contains(x));
        } else {
            assert(!p2.contains(x));
        }
    }
    assert(p1.to_multiset() =~= p2.to_multiset());
    assert forall|c: int, w: usize| 0 <= c < n implies (#[trigger] v1.nodes_ngh@[c]@.contains(w) <==> #[trigger] v2.nodes_ngh@[c]@.contains(w)) by {
        lemma_neighbours_of_pairs(p1, c as usize, w);
        lemma_neighbours_of_pairs(p2, c as usize, w);
        assert(p1.contains((c as usize, w)) <==> p2.contains((c as usize, w)));
        assert(p1.contains((w, c as usize)) <==> p2.contains((w, c as usize)));
    }
}

/// The triangles whose circumcenters bound the diagram edge of a pair of
/// neighbouring cells `(a, b)` have both cells as vertices: each is a corner
/// of both cells.
pub proof fn lemma_edge_corners_shared(tris: Seq<(usize, usize, usize)>, a: usize, b: usize)
    requires
        tris.len() <= usize::MAX,
        forall|t: int| 0 <= t < tris.len() ==> (#[trigger] tris[t]).0 <= tris[t].1 <= tris[t].2,
    ensures
        forall|k: int|
            0 <= k < edge_triangles(tris, (a, b)).len() ==> {
                let t = #[trigger] edge_triangles(tris, (a, b))[k];
                corners_of(tris, a).contains(t) && corners_of(tris, b).contains(t)
            },
{
    lemma_edge_triangles(tris, (a, b));
    assert forall|k: int| 0 <= k < edge_triangles(tris, (a, b)).len() implies {
        let t = #[trigger] edge_triangles(tris, (a, b))[k];
        corners_of(tris, a).contains(t) && corners_of(tris, b).contains(t)
    } by {
        let t = edge_triangles(tris, (a, b))[k];
        lemma_corners_of(tris, a, t);
        lemma_corners_of(tris, b, t);
    }
}

/// When every triangle of the triangulation has three distinct vertices, every
/// edge names its smaller end strictly first.
pub proof fn lemma_edges_strictly_ordered(raw: Seq<usize>)
    requires
        forall|t: int|
            0 <= t < triangles_of(raw).len() ==> (#[trigger] triangles_of(raw)[t]).0 != triangles_of(
                raw,
            )[t].1 && triangles_of(raw)[t].0 != triangles_of(raw)[t].2 && triangles_of(raw)[t].1
                != triangles_of(raw)[t].2,
    ensures
        forall|m: int|
            0 <= m < triangle_edges(triangles_of(raw)).len() ==> (#[trigger] triangle_edges(
                triangles_of(raw),
            )[m]).0 < triangle_edges(triangles_of(raw))[m].1,
{
    let tris = triangles_of(raw);
    assert forall|t: int| 0 <= t < tris.len() implies (#[trigger] tris[t]).0 < tris[t].1 < tris[t].2 by {
        assert(tris[t] == sort3(raw[3 * t], raw[3 * t + 1], raw[3 * t + 2]));
    }
    lemma_edges_strict_rec(tris);
}

proof fn lemma_edges_strict_rec(tris: Seq<(usize, usize, usize)>)
    requires
        forall|t: int| 0 <= t < tris.len() ==> (#[trigger] tris[t]).0 < tris[t].1 < tris[t].2,
    ensures
        forall|m: int|
            0 <= m < triangle_edges(tris).len() ==> (#[trigger] triangle_edges(tris)[m]).0
                < triangle_edges(tris)[m].1,
    decreases tris.len(),
{
    if tris.len() > 0 {
        let rest = tris.drop_last();
        lemma_edges_strict_rec(rest);
        let (i, j, k) = tris.last();
        let e = triangle_edges(rest);
        let tail = seq![(i, j), (i, k), (j, k)];
        assert(triangle_edges(tris) == e + tail);
        assert forall|m: int| 0 <= m < (e + tail).len() implies (#[trigger] (e + tail)[m]).0 < (e
            + tail)[m].1 by {
            if m < e.len() {
                assert((e + tail)[m] == e[m]);
            } else {
                assert((e + tail)[m] == tail[m - e.len()]);
            }
        }
    }
}

/// No cell is its own neighbour when no pair names one cell twice.
pub proof fn lemma_no_self_neighbour(pairs: Seq<(usize, usize)>, v: usize)
    requires
        forall|m: int| 0 <= m < pairs.len() ==> (#[trigger] pairs[m]).0 != pairs[m].1,
    ensures
        !neighbours_of(pairs, v).contains(v),
{
    lemma_neighbours_of_pairs(pairs, v, v);
    if pairs.contains((v, v)) {
        let m = choose|m: int| 0 <= m < pairs.len() && pairs[m] == (v, v);
        assert(pairs[m].0 == pairs[m].1);
    }
}


/// Sorting the three vertex indices of a triangle keeps them: the sorted
/// triple is in increasing order and holds the same indices, each as often as
/// the given one.
pub proof fn lemma_sort3_permutes(a: usize, b: usize, c: usize)
    ensures
        sort3(a, b, c).0 <= sort3(a, b, c).1 <= sort3(a, b, c).2,
        seq![sort3(a, b, c).0, sort3(a, b, c).1, sort3(a, b, c).2].to_multiset() == seq![
            a,
            b,
            c,
        ].to_multiset(),
{
    broadcast use vstd::seq_lib::group_to_multiset_ensures;

    let r = sort3(a, b, c);
    let e = Seq::<usize>::empty();
    assert(seq![r.0, r.1, r.2] =~= e.push(r.0).push(r.1).push(r.2));
    assert(seq![a, b, c] =~= e.push(a).push(b).push(c));
    let m0 = e.to_multiset();
    assert(seq![r.0, r.1, r.2].to_multiset() == m0.insert(r.0).insert(r.1).insert(r.2));
    assert(seq![a, b, c].to_multiset() == m0.insert(a).insert(b).insert(c));
    assert(m0.insert(r.0).insert(r.1).insert(r.2) =~= m0.insert(a).insert(b).insert(c));
}

/// Triangle `t` of a triangulation given as consecutive index triples is
/// listed among the corners of cell `v` exactly when `v` is one of the three
/// indices of triple `t`, in whatever order they were given.
pub proof fn lemma_corners_of_raw(raw: Seq<usize>, v: usize, t: usize)
    requires
        raw.len() / 3 <= usize::MAX,
    ensures
        corners_of(triangles_of(raw), v).contains(t) <==> (t < raw.len() / 3 && (raw[3 * t] == v || raw[3
            * t + 1] == v || raw[3 * t + 2] == v)),
{
    lemma_corners_of(triangles_of(raw), v, t);
    if t < raw.len() / 3 {
        lemma_sort3_permutes(raw[3 * t], raw[3 * t + 1], raw[3 * t + 2]);
        let r = triangles_of(raw)[t as int];
        let s = seq![r.0, r.1, r.2];
        let q = seq![raw[3 * t], raw[3 * t + 1], raw[3 * t + 2]];
        broadcast use vstd::seq_lib::group_to_multiset_ensures;

        assert(s.contains(v) <==> s.to_multiset().count(v) > 0);
        assert(q.contains(v) <==> q.to_multiset().count(v) > 0);
        if s.contains(v) {
            let m = choose|m: int| 0 <= m < 3 && s[m] == v;
            assert(m == 0 || m == 1 || m == 2);
        }
        if q.contains(v) {
            let m = choose|m: int| 0 <= m < 3 && q[m] == v;
            assert(m == 0 || m == 1 || m == 2);
        }
        if r.0 == v {
            assert(s[0] == v);
        }
        if r.1 == v {
            assert(s[1] == v);
        }
        if r.2 == v {
            assert(s[2] == v);
        }
        if raw[3 * t] == v {
            assert(q[0] == v);
        }
        if raw[3 * t + 1] == v {
            assert(q[1] == v);
        }
        if raw[3 * t + 2] == v {
            assert(q[2] == v);
        }
    }
}

/// The fan over `n` vertices numbered from `start` has `n - 2` triangles (none
/// for fewer than three vertices), and its triangle `k` is `(start,
/// start + k + 1, start + k + 2)`.
pub proof fn lemma_fan_shape(start: int, n: int)
    ensures
        fan(start, n).len() == (if n >= 2 {
            3 * (n - 2)
        } else {
            0
        }),
        forall|k: int|
            0 <= k < n - 2 ==> {
                &&& #[trigger] fan(start, n)[3 * k] == start
                &&& fan(start, n)[3 * k + 1] == start + k + 1
                &&& fan(start, n)[3 * k + 2] == start + k + 2
            },
    decreases n,
{
    if n >= 3 {
        lemma_fan_shape(start, n - 1);
        let f = fan(start, n - 1);
        assert(fan(start, n) == f + seq![start, start + n - 2, start + n - 1]);
        assert forall|k: int| 0 <= k < n - 2 implies {
            &&& #[trigger] fan(start, n)[3 * k] == start
            &&& fan(start, n)[3 * k + 1] == start + k + 1
            &&& fan(start, n)[3 * k + 2] == start + k + 2
        } by {
            if k < n - 3 {
                assert(f[3 * k] == start);
            }
        }
    }
}

/// After the cell at `index` has been subdivided into `children` with radii
/// `radii`, its node has one child per given child, in order: the `k`-th is a
/// leaf whose bounding box is centred on the `k`-th child's centroid with the
/// `k`-th radius, and which names the cell of the finer diagram that was
/// appended for the `k`-th child, holding its value and centroid.
pub proof fn lemma_subdivision_children(
    before: HierarchicVoronoi,
    after: HierarchicVoronoi,
    index: TreeIndex,
    children: Seq<(Cell, glam::Vec2)>,
    radii: Seq<u32>,
)
    requires
        can_subdivide(before, index),
        is_subdivision(before, after, index, children, radii),
        radii.len() == children.len(),
    ensures
        ({
            let l = index.0 + 1;
            let n0 = layer_positions(before.voronois@, l).len();
            let nv = layer_values(before.voronois@, l).len();
            &&& child_indices(after.hierarchy@, index).len() == children.len()
            &&& forall|k: int|
                0 <= k < children.len() ==> node_at(
                    after.hierarchy@,
                    #[trigger] child_indices(after.hierarchy@, index)[k],
                ) == Some(
                    TreeNode::Leaf {
                        val: (BoundingBox { pos: children[k].1, rad_bits: radii[k] }, (n0 + k) as usize),
                    },
                )
            &&& forall|k: int|
                0 <= k < children.len() ==> #[trigger] after.voronois@[l].nodes_pos@[n0 + k]
                    == children[k].1 && after.voronois@[l].nodes_values@[nv + k] == children[k].0
        }),
{
    let l0 = index.0 as int;
    let l = l0 + 1;
    let n0 = layer_positions(before.voronois@, l).len();
    let ot = before.hierarchy@;
    let nt = after.hierarchy@;
    let val = node_at(ot, index).unwrap().value();
    let kids = subdivision_kids(children, radii, n0);
    let base = if ot.len() == l0 + 1 {
        ot.push(Seq::empty())
    } else {
        ot
    };
    let next = base[l];
    after.hierarchy.lemma_layer_lengths();
    assert(nt == with_children(ot, index, val, kids));
    assert(nt[l0][index.1 as int] == TreeNode::Parent {
        val,
        start: next.len() as usize,
        len: kids.len() as usize,
    });
    assert(nt[l] == next + kids.map_values(|v: (BoundingBox, usize)| TreeNode::Leaf { val: v }));
    assert(child_indices(nt, index) == index_range(l, next.len() as int, kids.len()));
    assert forall|k: int| 0 <= k < children.len() implies node_at(
        nt,
        #[trigger] child_indices(nt, index)[k],
    ) == Some(
        TreeNode::Leaf {
            val: (BoundingBox { pos: children[k].1, rad_bits: radii[k] }, (n0 + k) as usize),
        },
    ) by {
        assert(child_indices(nt, index)[k] == TreeIndex(l as usize, (next.len() + k) as usize));
        assert(nt[l][next.len() + k] == TreeNode::Leaf { val: kids[k] });
    }
    let nv = layer_values(before.voronois@, l).len();
    assert forall|k: int| 0 <= k < children.len() implies #[trigger] after.voronois@[l].nodes_pos@[n0 + k]
        == children[k].1 && after.voronois@[l].nodes_values@[nv + k] == children[k].0 by {
        assert(after.voronois@[l].nodes_pos@ == layer_positions(before.voronois@, l) + children.map_values(
            |c: (Cell, glam::Vec2)| c.1,
        ));
        assert(after.voronois@[l].nodes_values@ == layer_values(before.voronois@, l) + children.map_values(
            |c: (Cell, glam::Vec2)| c.0,
        ));
    }
}

/// The input of a subdivision lists one value per entry of the subdivided
/// cell's neighbour list, in its order: the `k`-th is the value of the `k`-th
/// neighbour, whatever it is. It starts from the value of the cell that the
/// leaf names and the leaf's bounding box.
pub proof fn lemma_subdivision_input_neighbours(h: HierarchicVoronoi, index: TreeIndex)
    requires
        can_subdivide(h, index),
        subdivision_readable(h, index),
    ensures
        ({
            let val = node_at(h.hierarchy@, index).unwrap().value();
            let layer = h.voronois@[index.0 as int];
            let ngh = layer.nodes_ngh@[val.1 as int]@;
            let r = subdivision_input_of(h, index);
            &&& r.0 == layer.nodes_values@[val.1 as int]
            &&& r.1 == val.0
            &&& r.2.len() == ngh.len()
            &&& forall|k: int| 0 <= k < ngh.len() ==> #[trigger] r.2[k] == layer.nodes_values@[ngh[k] as int]
        }),
{
}


/// Cell `v` is one of the three cells of triple `t` of `raw`.
pub open spec fn in_triple(raw: Seq<usize>, t: int, v: usize) -> bool {
    raw[3 * t] == v || raw[3 * t + 1] == v || raw[3 * t + 2] == v
}

/// A sorted triangle holds the same cells as the triple it was sorted from.
proof fn lemma_sort3_members(a: usize, b: usize, c: usize, v: usize)
    ensures
        (sort3(a, b, c).0 == v || sort3(a, b, c).1 == v || sort3(a, b, c).2 == v) <==> (a == v || b == v
            || c == v),
{
    lemma_sort3_permutes(a, b, c);
    let r = sort3(a, b, c);
    let s = seq![r.0, r.1, r.2];
    let q = seq![a, b, c];
    broadcast use vstd::seq_lib::group_to_multiset_ensures;

    assert(s.contains(v) <==> q.contains(v));
    if s.contains(v) {
        let m = choose|m: int| 0 <= m < 3 && s[m] == v;
        assert(m == 0 || m == 1 || m == 2);
    }
    if q.contains(v) {
        let m = choose|m: int| 0 <= m < 3 && q[m] == v;
        assert(m == 0 || m == 1 || m == 2);
    }
    if r.0 == v {
        assert(s[0] == v);
    }
    if r.1 == v {
        assert(s[1] == v);
    }
    if r.2 == v {
        assert(s[2] == v);
    }
    if a == v {
        assert(q[0] == v);
    }
    if b == v {
        assert(q[1] == v);
    }
    if c == v {
        assert(q[2] == v);
    }
}

/// An edge is among the edges of a list of triangles exactly when one of the
/// triangles has it.
proof fn lemma_triangle_edges_contains(tris: Seq<(usize, usize, usize)>, e: (usize, usize))
    ensures
        triangle_edges(tris).contains(e) <==> exists|t: int|
            0 <= t < tris.len() && has_edge(#[trigger] tris[t], e),
    decreases tris.len(),
{
    if tris.len() > 0 {
        let rest = tris.drop_last();
        lemma_triangle_edges_contains(rest, e);
        let (i, j, k) = tris.last();
        let old_part = triangle_edges(rest);
        let tail = seq![(i, j), (i, k), (j, k)];
        let all = old_part + tail;
        assert(triangle_edges(tris) == all);
        if all.contains(e) {
            let m = choose|m: int| 0 <= m < all.len() && all[m] == e;
            if m < old_part.len() {
                assert(old_part[m] == e);
                let t = choose|t: int| 0 <= t < rest.len() && has_edge(#[trigger] rest[t], e);
                assert(tris[t] == rest[t]);
            } else {
                assert(tail[m - old_part.len()] == e);
                assert(has_edge(tris[tris.len() - 1], e));
            }
        }
        if exists|t: int| 0 <= t < tris.len() && has_edge(#[trigger] tris[t], e) {
            let t = choose|t: int| 0 <= t < tris.len() && has_edge(#[trigger] tris[t], e);
            if t < rest.len() {
                assert(rest[t] == tris[t]);
                let m = choose|m: int| 0 <= m < old_part.len() && old_part[m] == e;
                assert(all[m] == e);
            } else if e == (i, j) {
                assert(all[old_part.len() as int] == e);
            } else if e == (i, k) {
                assert(all[old_part.len() as int + 1] == e);
            } else {
                assert(all[old_part.len() as int + 2] == e);
            }
        }
    }
}

/// Two different cells `x < y` are joined by an edge of the triangulation
/// `raw` exactly when some triple of `raw` holds both of them, in whatever
/// order and position.
pub proof fn lemma_triangle_edges_raw(raw: Seq<usize>, x: usize, y: usize)
    requires
        x < y,
    ensures
        triangle_edges(triangles_of(raw)).contains((x, y)) <==> exists|t: int|
            0 <= t < raw.len() / 3 && #[trigger] in_triple(raw, t, x) && in_triple(raw, t, y),
{
    let tris = triangles_of(raw);
    lemma_triangle_edges_contains(tris, (x, y));
    if triangle_edges(tris).contains((x, y)) {
        let t = choose|t: int| 0 <= t < tris.len() && has_edge(#[trigger] tris[t], (x, y));
        lemma_sort3_members(raw[3 * t], raw[3 * t + 1], raw[3 * t + 2], x);
        lemma_sort3_members(raw[3 * t], raw[3 * t + 1], raw[3 * t + 2], y);
        assert(in_triple(raw, t, x) && in_triple(raw, t, y));
    }
    if exists|t: int| 0 <= t < raw.len() / 3 && #[trigger] in_triple(raw, t, x) && in_triple(raw, t, y) {
        let t = choose|t: int| 0 <= t < raw.len() / 3 && #[trigger] in_triple(raw, t, x) && in_triple(raw, t, y);
        lemma_sort3_members(raw[3 * t], raw[3 * t + 1], raw[3 * t + 2], x);
        lemma_sort3_members(raw[3 * t], raw[3 * t + 1], raw[3 * t + 2], y);
        lemma_sort3_permutes(raw[3 * t], raw[3 * t + 1], raw[3 * t + 2]);
        assert(has_edge(tris[t], (x, y)));
    }
}

/// In a diagram whose corners and adjacencies are those of the triangulation
/// `raw` (as [`Voronoi::recompute_all`] leaves them), cell `c` lists triangle
/// `t` among its corners exactly when `c` is one of the cells of triple `t`,
/// and lists another cell `w` among its neighbours exactly when some triple
/// holds both `c` and `w`.
pub proof fn lemma_topology_from_triples(
    v: Voronoi,
    n: nat,
    raw: Seq<usize>,
    circs: Seq<glam::Vec2>,
    c: usize,
    w: usize,
    t: usize,
)
    requires
        is_topology_of(v, n, raw, circs),
        raw.len() / 3 <= usize::MAX,
        c < n,
        w != c,
    ensures
        v.nodes_corner@[c as int]@.contains(t) <==> (t < raw.len() / 3 && in_triple(raw, t as int, c)),
        v.nodes_ngh@[c as int]@.contains(w) <==> exists|q: int|
            0 <= q < raw.len() / 3 && #[trigger] in_triple(raw, q, c) && in_triple(raw, q, w),
{
    lemma_corners_of_raw(raw, c, t);
    assert(v.nodes_corner@[c as int]@ == corners_of(triangles_of(raw), c));
    let pairs = adjacency_pairs(v.adjacency@);
    let te = triangle_edges(triangles_of(raw));
    lemma_neighbours_of_pairs(pairs, c, w);
    assert(v.nodes_ngh@[c as int]@ == neighbours_of(pairs, c));
    lemma_edges_ordered(raw);
    assert(pairs.contains((c, w)) <==> te.contains((c, w)));
    assert(pairs.contains((w, c)) <==> te.contains((w, c)));
    if c < w {
        lemma_triangle_edges_raw(raw, c, w);
        if te.contains((w, c)) {
            let m = choose|m: int| 0 <= m < te.len() && te[m] == (w, c);
            assert(te[m].0 <= te[m].1);
        }
    } else {
        lemma_triangle_edges_raw(raw, w, c);
        if te.contains((c, w)) {
            let m = choose|m: int| 0 <= m < te.len() && te[m] == (c, w);
            assert(te[m].0 <= te[m].1);
        }
        assert forall|q: int| 0 <= q < raw.len() / 3 implies (#[trigger] in_triple(raw, q, c) && in_triple(raw, q, w))
            == (in_triple(raw, q, w) && in_triple(raw, q, c)) by {}
    }
}


/// The number of fan triangles of the first `cells` cells: two fewer than its
/// corners for each cell with at least two.
pub open spec fn fan_total(corners: Seq<Vec<usize>>, cells: int) -> int
    decreases cells,
{
    if cells <= 0 {
        0
    } else {
        fan_total(corners, cells - 1) + (if corners[cells - 1]@.len() >= 2 {
            corners[cells - 1]@.len() - 2
        } else {
            0
        })
    }
}

proof fn lemma_fan_total_monotone(corners: Seq<Vec<usize>>, a: int, b: int)
    requires
        0 <= a <= b,
    ensures
        fan_total(corners, a) <= fan_total(corners, b),
    decreases b - a,
{
    if a < b {
        lemma_fan_total_monotone(corners, a, b - 1);
    }
}

/// The index buffer of the first `cells` cells draws three indices per fan
/// triangle, and the `k`-th triangle of cell `c` comes after those of the
/// cells before it: it joins the cell's first corner to its corners `k + 1` and
/// `k + 2`, the corners of the cells before `c` being numbered first.
pub proof fn lemma_fans_shape(corners: Seq<Vec<usize>>, cells: int, c: int, k: int)
    requires
        0 <= c < cells <= corners.len(),
        0 <= k < corners[c]@.len() - 2,
    ensures
        fans(corners, cells).len() == 3 * fan_total(corners, cells),
        fans(corners, cells)[3 * (fan_total(corners, c) + k)] == corner_total(corners, c),
        fans(corners, cells)[3 * (fan_total(corners, c) + k) + 1] == corner_total(corners, c) + k + 1,
        fans(corners, cells)[3 * (fan_total(corners, c) + k) + 2] == corner_total(corners, c) + k + 2,
    decreases cells,
{
    let prev = fans(corners, cells - 1);
    let n = corners[cells - 1]@.len() as int;
    let last = fan(corner_total(corners, cells - 1), n);
    lemma_fan_shape(corner_total(corners, cells - 1), n);
    assert(fans(corners, cells) == prev + last);
    let p = 3 * (fan_total(corners, c) + k);
    lemma_fan_total_monotone(corners, 0, c);
    if c < cells - 1 {
        lemma_fans_shape(corners, cells - 1, c, k);
        lemma_fan_total_monotone(corners, c + 1, cells - 1);
        let ft = fan_total(corners, c);
        let ft1 = fan_total(corners, c + 1);
        let fp = fan_total(corners, cells - 1);
        assert(ft1 == ft + corners[c]@.len() - 2);
        assert(p + 2 < prev.len()) by (nonlinear_arith)
            requires
                p == 3 * (ft + k),
                k < ft1 - ft,
                ft1 <= fp,
                prev.len() == 3 * fp,
        ;
        assert((prev + last)[p] == prev[p]);
        assert((prev + last)[p + 1] == prev[p + 1]);
        assert((prev + last)[p + 2] == prev[p + 2]);
    } else {
        if cells - 1 > 0 {
            lemma_fans_shape_len(corners, cells - 1);
        }
        assert(prev.len() == 3 * fan_total(corners, c));
        assert(p == prev.len() + 3 * k);
        assert(last[3 * k] == corner_total(corners, c));
        assert(last[3 * k + 1] == corner_total(corners, c) + k + 1);
        assert((prev + last)[p] == last[3 * k]);
        assert((prev + last)[p + 1] == last[3 * k + 1]);
        assert((prev + last)[p + 2] == last[3 * k + 2]);
    }
    lemma_fans_shape_len(corners, cells);
}

proof fn lemma_fans_shape_len(corners: Seq<Vec<usize>>, cells: int)
    requires
        0 <= cells <= corners.len(),
    ensures
        fans(corners, cells).len() == 3 * fan_total(corners, cells),
    decreases cells,
{
    if cells > 0 {
        lemma_fans_shape_len(corners, cells - 1);
        lemma_fan_shape(corner_total(corners, cells - 1), corners[cells - 1]@.len() as int);
    }
}

} // verus!
