use vstd::prelude::*;
use vstd::arithmetic::div_mod::{lemma_fundamental_div_mod, lemma_mod_pos_bound};
use crate::geometry::{in_range, Vec2, COORD_LIMIT, MAX_EXTENT};
use crate::object::Object;

verus! {

/// Most cells a grid may have along one side.
pub const MAX_GRID_WIDTH: usize = 4096;

/// A square of `width * width` cells of side `cell_size`, its corner at `origin`.
/// Cell `gx + gy * width` lists the handles of the particles bucketed there.
pub struct Grid {
    pub cells: Vec<Vec<usize>>,
    pub width: usize,
    pub cell_size: i64,
    pub origin: Vec2,
}

/// Column (or row) of coordinate `v`, after clamping it into the grid's extent.
pub open spec fn axis_cell(v: int, o: int, size: int, w: int) -> int {
    let rel = v - o;
    let clamped = if rel < 0 {
        0
    } else if rel >= w * size {
        w * size - 1
    } else {
        rel
    };
    clamped / size
}

pub proof fn lemma_axis_cell_bounds(v: int, o: int, size: int, w: int)
    requires
        size >= 1,
        w >= 1,
    ensures
        0 <= axis_cell(v, o, size, w) < w,
{
    let rel = v - o;
    let clamped = if rel < 0 {
        0
    } else if rel >= w * size {
        w * size - 1
    } else {
        rel
    };
    assert(w * size >= 1) by (nonlinear_arith)
        requires
            size >= 1,
            w >= 1,
    ;
    lemma_fundamental_div_mod(clamped, size);
    lemma_mod_pos_bound(clamped, size);
    let q = clamped / size;
    assert(0 <= q < w) by (nonlinear_arith)
        requires
            clamped == size * q + clamped % size,
            0 <= clamped % size < size,
            0 <= clamped < w * size,
            size >= 1,
    ;
}

/// Every coordinate inside the grid's extent lies inside the bounds of its cell.
pub proof fn lemma_cell_contains(v: int, o: int, size: int, w: int)
    requires
        size >= 1,
        w >= 1,
        o <= v < o + w * size,
    ensures
        o + axis_cell(v, o, size, w) * size <= v < o + (axis_cell(v, o, size, w) + 1) * size,
{
    let rel = v - o;
    lemma_fundamental_div_mod(rel, size);
    lemma_mod_pos_bound(rel, size);
    let q = rel / size;
    assert(q * size <= rel < (q + 1) * size) by (nonlinear_arith)
        requires
            rel == size * q + rel % size,
            0 <= rel % size < size,
    ;
}

proof fn lemma_bucket_same_shape(g1: &Grid, g2: &Grid, objs: Seq<Object>, c: int, i: int)
    requires
        g1.same_shape(g2),
    ensures
        g1.bucket(objs, c, i) == g2.bucket(objs, c, i),
    decreases i,
{
    if i > 0 {
        lemma_bucket_same_shape(g1, g2, objs, c, i - 1);
    }
}

proof fn lemma_bucket_below(g: &Grid, objs: Seq<Object>, c: int, i: int)
    requires
        i <= objs.len(),
    ensures
        forall|s: int| 0 <= s < g.bucket(objs, c, i).len() ==> #[trigger] g.bucket(objs, c, i)[s] < objs.len(),
    decreases i,
{
    if i > 0 {
        lemma_bucket_below(g, objs, c, i - 1);
        let prev = g.bucket(objs, c, i - 1);
        let cur = g.bucket(objs, c, i);
        assert forall|s: int| 0 <= s < cur.len() implies #[trigger] cur[s] < objs.len() by {
            if s < prev.len() {
                assert(cur[s] == prev[s]);
            } else {
                assert(cur[s] == (i - 1) as usize);
            }
        }
    }
}

/// Re-bucketing lists only handles of particles it was given.
pub proof fn lemma_bucketed_below(g: &Grid, objs: Seq<Object>)
    ensures
        forall|c: int, s: int|
            0 <= c < g.bucketed(objs).len() && 0 <= s < g.bucketed(objs)[c].len() ==> #[trigger] g.bucketed(objs)[c][s]
                < objs.len(),
{
    assert forall|c: int, s: int|
        0 <= c < g.bucketed(objs).len() && 0 <= s < g.bucketed(objs)[c].len() implies #[trigger] g.bucketed(objs)[c][s]
        < objs.len() by {
        lemma_bucket_below(g, objs, c, objs.len() as int);
    }
}

/// Re-bucketing depends on the grid's shape alone, not on what it listed.
pub proof fn lemma_bucketed_same_shape(g1: &Grid, g2: &Grid, objs: Seq<Object>)
    requires
        g1.same_shape(g2),
    ensures
        g1.bucketed(objs) == g2.bucketed(objs),
{
    assert forall|c: int| 0 <= c < g1.cells@.len() implies #[trigger] g1.bucketed(objs)[c] == g2.bucketed(objs)[c] by {
        lemma_bucket_same_shape(g1, g2, objs, c, objs.len() as int);
    }
    assert(g1.bucketed(objs) =~= g2.bucketed(objs));
}

impl Grid {
    pub open spec fn wf(&self) -> bool {
        &&& 1 <= self.width <= MAX_GRID_WIDTH
        &&& self.cells@.len() == self.width * self.width
        &&& 1 <= self.cell_size
        &&& in_range(self.origin, 0x1_0000_0000)
        &&& self.width * self.cell_size <= 0x1_0000_0000
    }

    /// Same cell count, size and placement as `other`.
    pub open spec fn same_shape(&self, other: &Grid) -> bool {
        &&& self.width == other.width
        &&& self.cell_size == other.cell_size
        &&& self.origin == other.origin
        &&& self.cells@.len() == other.cells@.len()
    }

    /// Index of the cell that a particle at `p` is bucketed into.
    pub open spec fn cell_of(&self, p: Vec2) -> int {
        axis_cell(p.x as int, self.origin.x as int, self.cell_size as int, self.width as int)
            + axis_cell(p.y as int, self.origin.y as int, self.cell_size as int, self.width as int)
            * self.width
    }

    /// Handles below `i` whose particle's position falls in cell `c`, in order.
    pub open spec fn bucket(&self, objs: Seq<Object>, c: int, i: int) -> Seq<usize>
        decreases i,
    {
        if i <= 0 {
            Seq::empty()
        } else {
            let prev = self.bucket(objs, c, i - 1);
            if self.cell_of(objs[i - 1].position) == c {
                prev.push((i - 1) as usize)
            } else {
                prev
            }
        }
    }

    /// The cell lists of a grid of this shape once each particle of `objs` is
    /// listed in the cell of its position, by ascending handle.
    pub open spec fn bucketed(&self, objs: Seq<Object>) -> Seq<Seq<usize>> {
        Seq::new(self.cells@.len(), |c: int| self.bucket(objs, c, objs.len() as int))
    }

    pub open spec fn cell_lists(&self) -> Seq<Seq<usize>> {
        Seq::new(self.cells@.len(), |c: int| self.cells@[c]@)
    }

    /// Every listed handle names a particle of `objs`.
    pub open spec fn handles_below(&self, n: int) -> bool {
        forall|c: int, s: int|
            0 <= c < self.cells@.len() && 0 <= s < self.cells@[c]@.len() ==> 0
                <= #[trigger] self.cells@[c]@[s] < n
    }

    /// Each particle of `objs` is listed once, in the cell of its position, and
    /// nowhere else.
    pub open spec fn consistent(&self, objs: Seq<Object>) -> bool {
        &&& forall|c: int, s: int|
            0 <= c < self.cells@.len() && 0 <= s < self.cells@[c]@.len() ==> {
                &&& 0 <= #[trigger] self.cells@[c]@[s] < objs.len()
                &&& self.cell_of(objs[self.cells@[c]@[s] as int].position) == c
            }
        &&& forall|c: int, s1: int, s2: int|
            0 <= c < self.cells@.len() && 0 <= s1 < s2 < self.cells@[c]@.len() ==> #[trigger] self.cells@[c]@[s1]
                < #[trigger] self.cells@[c]@[s2]
        &&& forall|i: int|
            0 <= i < objs.len() ==> #[trigger] self.cells@[self.cell_of(objs[i].position)]@.contains(
                i as usize,
            )
    }

    /// An empty grid covering a square of side `2.5 * radius` centred on `center`.
    pub fn new(center: Vec2, radius: i64, cell_size: i64) -> (r: Grid)
        requires
            1 <= radius <= MAX_EXTENT,
            1 <= cell_size <= radius * 5 / 2,
            in_range(center, MAX_EXTENT as int),
            (radius * 5 / 2) / (cell_size as int) <= MAX_GRID_WIDTH,
        ensures
            r.wf(),
            forall|c: int| 0 <= c < r.cells@.len() ==> (#[trigger] r.cells@[c])@.len() == 0,
            r.width == (radius * 5 / 2) / (cell_size as int),
            r.cell_size == cell_size,
            r.origin.x == center.x - (r.width * cell_size) / 2,
            r.origin.y == center.y - (r.width * cell_size) / 2,
            r.consistent(Seq::empty()),
    {
        let side: i64 = radius * 5 / 2;
        let w: i64 = side / cell_size;
        proof {
            lemma_fundamental_div_mod(side as int, cell_size as int);
            lemma_mod_pos_bound(side as int, cell_size as int);
            assert(w >= 1) by (nonlinear_arith)
                requires
                    side == cell_size * w + side % cell_size,
                    0 <= side % cell_size < cell_size,
                    side >= cell_size,
            ;
            assert(w * cell_size <= side) by (nonlinear_arith)
                requires
                    side == cell_size * w + side % cell_size,
                    0 <= side % cell_size,
            ;
        }
        let half: i64 = (w * cell_size) / 2;
        let width = w as usize;
        assert(width * width <= 4096 * 4096) by (nonlinear_arith)
            requires
                0 <= width <= 4096,
        ;
        let n = width * width;
        let mut cells: Vec<Vec<usize>> = Vec::new();
        let mut k: usize = 0;
        while k < n
            invariant
                k <= n,
                cells@.len() == k,
                forall|c: int| 0 <= c < k ==> (#[trigger] cells@[c])@.len() == 0,
            decreases n - k,
        {
            cells.push(Vec::new());
            k = k + 1;
        }
        assert(w * cell_size <= 0x1_0000_0000);
        Grid {
            cells,
            width,
            cell_size,
            origin: Vec2 { x: center.x - half, y: center.y - half },
        }
    }

    pub proof fn lemma_cell_of_bounds(&self, p: Vec2)
        requires
            self.wf(),
        ensures
            0 <= self.cell_of(p) < self.cells@.len(),
    {
        let w = self.width as int;
        let gx = axis_cell(p.x as int, self.origin.x as int, self.cell_size as int, w);
        let gy = axis_cell(p.y as int, self.origin.y as int, self.cell_size as int, w);
        lemma_axis_cell_bounds(p.x as int, self.origin.x as int, self.cell_size as int, w);
        lemma_axis_cell_bounds(p.y as int, self.origin.y as int, self.cell_size as int, w);
        assert(0 <= gx + gy * w < w * w) by (nonlinear_arith)
            requires
                0 <= gx < w,
                0 <= gy < w,
        ;
    }

    /// Empties every cell, then lists each particle of `objs` in the cell of its
    /// position.
    pub fn rebuild(&mut self, objs: &Vec<Object>)
        requires
            old(self).wf(),
            forall|i: int| 0 <= i < objs@.len() ==> (#[trigger] objs@[i]).wf(),
        ensures
            final(self).wf(),
            final(self).same_shape(old(self)),
            final(self).consistent(objs@),
            final(self).cell_lists() == old(self).bucketed(objs@),
    {
        let ghost g0 = *self;
        let n = self.cells.len();
        let mut c: usize = 0;
        while c < n
            invariant
                self.wf(),
                self.same_shape(&g0),
                n == self.cells@.len(),
                c <= n,
                forall|k: int| 0 <= k < c ==> (#[trigger] self.cells@[k])@.len() == 0,
            decreases n - c,
        {
            self.cells[c].clear();
            c = c + 1;
        }
        assert(objs@.take(0) =~= Seq::<Object>::empty());
        let mut i: usize = 0;
        while i < objs.len()
            invariant
                self.wf(),
                self.same_shape(&g0),
                i <= objs@.len(),
                forall|k: int| 0 <= k < objs@.len() ==> (#[trigger] objs@[k]).wf(),
                self.consistent(objs@.take(i as int)),
                n == self.cells@.len(),
                forall|k: int| 0 <= k < n ==> (#[trigger] self.cells@[k])@ == g0.bucket(objs@, k, i as int),
            decreases objs@.len() - i,
        {
            let ghost before = *self;
            self.assign(objs, i);
            proof {
                assert forall|k: int| 0 <= k < n implies (#[trigger] self.cells@[k])@ == g0.bucket(
                    objs@,
                    k,
                    i + 1,
                ) by {
                    assert(before.cell_of(objs@[i as int].position) == g0.cell_of(objs@[i as int].position));
                }
            }
            i = i + 1;
        }
        assert(objs@.take(objs@.len() as int) =~= objs@);
        assert(self.cell_lists() =~= g0.bucketed(objs@));
    }

    /// Index of the cell that a particle at `p` is bucketed into.
    pub fn cell_index(&self, p: Vec2) -> (r: usize)
        requires
            self.wf(),
            in_range(p, COORD_LIMIT as int),
        ensures
            r == self.cell_of(p),
            r < self.cells@.len(),
    {
        let gx = axis_index(p.x, self.origin.x, self.cell_size, self.width);
        let gy = axis_index(p.y, self.origin.y, self.cell_size, self.width);
        proof {
            let w = self.width as int;
            assert(gx + gy * w < w * w && gy * w <= w * w) by (nonlinear_arith)
                requires
                    0 <= gx < w,
                    0 <= gy < w,
            ;
            assert(w * w <= 4096 * 4096) by (nonlinear_arith)
                requires
                    0 <= w <= 4096,
            ;
        }
        gx + gy * self.width
    }

    /// Lists particle `h` in the cell of its position, the grid already holding
    /// exactly the particles before it.
    pub fn assign(&mut self, objs: &Vec<Object>, h: usize)
        requires
            old(self).wf(),
            h < objs@.len(),
            forall|i: int| 0 <= i < objs@.len() ==> (#[trigger] objs@[i]).wf(),
            old(self).consistent(objs@.take(h as int)),
        ensures
            final(self).wf(),
            final(self).same_shape(old(self)),
            final(self).consistent(objs@.take(h + 1)),
            forall|k: int|
                0 <= k < final(self).cells@.len() ==> (#[trigger] final(self).cells@[k])@ == if k
                    == old(self).cell_of(objs@[h as int].position) {
                    old(self).cells@[k]@.push(h)
                } else {
                    old(self).cells@[k]@
                },
    {
        let c = self.cell_index(objs[h].position);
        let ghost before = self.cells@;
        let ghost g0 = *self;
        let ghost prev = objs@.take(h as int);
        let ghost cur = objs@.take(h + 1);
        self.cells[c].push(h);
        proof {
            assert(forall|k: int| 0 <= k < prev.len() ==> prev[k] == objs@[k]);
            assert(forall|k: int| 0 <= k < cur.len() ==> cur[k] == objs@[k]);
            assert(forall|k: int| 0 <= k < before.len() && k != c ==> self.cells@[k]@ == before[k]@);
            assert(self.cells@[c as int]@ == before[c as int]@.push(h));
            assert forall|i: int| 0 <= i < cur.len() implies #[trigger] self.cells@[self.cell_of(
                cur[i].position,
            )]@.contains(i as usize) by {
                self.lemma_cell_of_bounds(objs@[i].position);
                if i < h {
                    let ci = self.cell_of(objs@[i].position);
                    assert(prev[i] == objs@[i]);
                    assert(cur[i] == objs@[i]);
                    assert(g0.cell_of(prev[i].position) == ci);
                    assert(g0.cells@[g0.cell_of(prev[i].position)]@.contains(i as usize));
                    assert(before[ci]@.contains(i as usize));
                    let s = choose|s: int| 0 <= s < before[ci]@.len() && before[ci]@[s] == i as usize;
                    assert(self.cells@[ci]@[s] == i as usize);
                } else {
                    assert(cur[i] == objs@[i]);
                    assert(self.cells@[c as int]@[before[c as int]@.len() as int] == h);
                }
            }
        }
    }
}

/// Exec form of `axis_cell`.
fn axis_index(v: i64, o: i64, size: i64, w: usize) -> (r: usize)
    requires
        -COORD_LIMIT <= v <= COORD_LIMIT,
        -0x1_0000_0000 <= o <= 0x1_0000_0000,
        1 <= size,
        1 <= w,
        w <= MAX_GRID_WIDTH,
        w * size <= 0x1_0000_0000,
    ensures
        r == axis_cell(v as int, o as int, size as int, w as int),
        r < w,
{
    proof {
        lemma_axis_cell_bounds(v as int, o as int, size as int, w as int);
    }
    let rel: i64 = v - o;
    let wi: i64 = w as i64;
    assert(wi * size <= 0x1_0000_0000);
    let ext: i64 = wi * size;
    assert(ext >= 1) by (nonlinear_arith)
        requires
            ext == wi * size,
            wi >= 1,
            size >= 1,
    ;
    let clamped: i64 = if rel < 0 {
        0
    } else if rel >= ext {
        ext - 1
    } else {
        rel
    };
    assert(ext == w * size);
    assert(rel == v - o);
    let q: i64 = clamped / size;
    assert(clamped >= 0);
    assert(q as int == (clamped as int) / (size as int));
    assert(q == axis_cell(v as int, o as int, size as int, w as int));
    q as usize
}

} // verus!
