use vstd::prelude::*;
use vstd::arithmetic::div_mod::{lemma_fundamental_div_mod, lemma_mod_pos_bound};
use crate::constraint::{
    border_spec, collision_correction, lemma_border_within, collision_spec, constrain_border, inside, link_correction,
    link_spec,
};
use crate::geometry::{dist2, in_range, Vec2, COORD_LIMIT, INNER_LIMIT, MAX_EXTENT};
use crate::grid::{lemma_bucketed_below, lemma_bucketed_same_shape, axis_cell, lemma_axis_cell_bounds, lemma_cell_contains, Grid, MAX_GRID_WIDTH};
use crate::object::{accelerated, stepped, Object, MAX_STEP_MICROS};

verus! {

/// Sub-steps that one call of `update` is split into.
pub const SUB_STEPS: u64 = 8;

/// Longest time, in microseconds, that one call of `update` accepts.
pub const MAX_UPDATE_MICROS: u64 = 8_000_000_000;

/// A distance constraint: particles `.0` and `.1` held `.2` units apart.
#[derive(Clone, Copy, Debug, PartialEq, Eq, Structural)]
pub struct Link(pub usize, pub usize, pub i64);

/// Why `add_link` refused a link.
#[derive(Clone, Copy, Debug, PartialEq, Eq, Structural)]
pub enum LinkError {
    /// A handle names no particle.
    UnknownHandle,
    /// Both ends are the same particle.
    SameParticle,
    /// The rest length is not in `1..=MAX_EXTENT`.
    BadLength,
}

/// The solver: particles addressed by handle, links between them, a circular
/// boundary, gravity, and the grid that finds colliding pairs.
pub struct PhysicsEngine {
    objects: Vec<Object>,
    grid: Grid,
    links: Vec<Link>,
    constraint_center: Vec2,
    radius: i64,
    gravity: Vec2,
}

pub open spec fn link_ok(l: Link, n: int) -> bool {
    &&& l.0 < n
    &&& l.1 < n
    &&& l.0 != l.1
    &&& 1 <= l.2 <= MAX_EXTENT
}

/// `b` holds the same particles as `a`: count, radii, colours and pin flags.
pub open spec fn same_particles(a: Seq<Object>, b: Seq<Object>) -> bool {
    &&& a.len() == b.len()
    &&& forall|i: int|
        0 <= i < a.len() ==> {
            &&& (#[trigger] b[i]).wf()
            &&& b[i].radius == a[i].radius
            &&& b[i].pinned == a[i].pinned
            &&& b[i].color == a[i].color
        }
}

/// No pinned particle of `a` has moved in `b`.
pub open spec fn pinned_fixed(a: Seq<Object>, b: Seq<Object>) -> bool {
    forall|i: int| 0 <= i < a.len() && (#[trigger] a[i]).pinned ==> b[i].position == a[i].position
}

/// No pinned particle of `a` that lay inside the boundary has moved in `b`.
pub open spec fn pinned_inside_fixed(a: Seq<Object>, b: Seq<Object>, center: Vec2, radius: int) -> bool {
    forall|i: int|
        0 <= i < a.len() && (#[trigger] a[i]).pinned && inside(
            a[i].position,
            a[i].radius as int,
            center,
            radius,
        ) ==> b[i].position == a[i].position
}

/// `objs` after every particle has had gravity applied and taken one step.
pub open spec fn integrated(objs: Seq<Object>, gravity: Vec2, dt: int) -> Seq<Object> {
    Seq::new(objs.len(), |i: int| stepped(accelerated(objs[i], gravity), dt))
}

/// `objs` after each link of `links` is resolved once, in order.
pub open spec fn links_applied(objs: Seq<Object>, links: Seq<Link>) -> Seq<Object>
    decreases links.len(),
{
    if links.len() == 0 {
        objs
    } else {
        let prev = links_applied(objs, links.drop_last());
        let l = links.last();
        let r = link_spec(prev[l.0 as int], prev[l.1 as int], l.2 as int);
        prev.update(l.0 as int, Object { position: r.0, ..prev[l.0 as int] }).update(
            l.1 as int,
            Object { position: r.1, ..prev[l.1 as int] },
        )
    }
}

/// `objs` after the boundary circle has been applied to each particle.
pub open spec fn bounded(objs: Seq<Object>, center: Vec2, radius: int) -> Seq<Object> {
    Seq::new(
        objs.len(),
        |i: int| Object { position: border_spec(objs[i], center, radius), ..objs[i] },
    )
}

/// `objs` after particles `ha` and `hb` are tested against each other.
pub open spec fn pair_step(objs: Seq<Object>, ha: int, hb: int) -> Seq<Object> {
    if ha == hb {
        objs
    } else {
        let r = collision_spec(objs[ha], objs[hb]);
        objs.update(ha, Object { position: r.0, ..objs[ha] }).update(
            hb,
            Object { position: r.1, ..objs[hb] },
        )
    }
}

/// First slot of cell `nc` tested against slot `sa` of cell `c`.
pub open spec fn row_start(c: int, nc: int, sa: int) -> int {
    if c == nc {
        sa + 1
    } else {
        0
    }
}

/// Slot `sa` of cell `c` tested against the slots of cell `nc` below `sb`.
pub open spec fn row_pass(objs: Seq<Object>, cells: Seq<Seq<usize>>, c: int, nc: int, sa: int, sb: int) -> Seq<Object>
    decreases sb - row_start(c, nc, sa),
{
    if sb <= row_start(c, nc, sa) {
        objs
    } else {
        pair_step(
            row_pass(objs, cells, c, nc, sa, sb - 1),
            cells[c][sa] as int,
            cells[nc][sb - 1] as int,
        )
    }
}

/// The slots of cell `c` below `sa` tested against cell `nc`.
pub open spec fn cell_pair_pass(objs: Seq<Object>, cells: Seq<Seq<usize>>, c: int, nc: int, sa: int) -> Seq<Object>
    decreases sa,
{
    if sa <= 0 {
        objs
    } else {
        row_pass(
            cell_pair_pass(objs, cells, c, nc, sa - 1),
            cells,
            c,
            nc,
            sa - 1,
            cells[nc].len() as int,
        )
    }
}

/// Neighbour `k` (of the 3 x 3 block about cell `c`, row by row) when it lies
/// on a grid of width `w` and does not precede `c`.
pub open spec fn neighbour(c: int, k: int, w: int) -> Option<int> {
    let nx = c % w + k % 3 - 1;
    let ny = c / w + k / 3 - 1;
    if 0 <= nx < w && 0 <= ny < w && nx + ny * w >= c {
        Some(nx + ny * w)
    } else {
        None
    }
}

/// Cell `c` tested against its neighbours below `k`.
pub open spec fn neighbour_pass(objs: Seq<Object>, cells: Seq<Seq<usize>>, w: int, c: int, k: int) -> Seq<Object>
    decreases k,
{
    if k <= 0 {
        objs
    } else {
        let prev = neighbour_pass(objs, cells, w, c, k - 1);
        match neighbour(c, k - 1, w) {
            Some(nc) => cell_pair_pass(prev, cells, c, nc, cells[c].len() as int),
            None => prev,
        }
    }
}

/// The cells below `c` each tested against their neighbourhood.
pub open spec fn collision_pass(objs: Seq<Object>, cells: Seq<Seq<usize>>, w: int, c: int) -> Seq<Object>
    decreases c,
{
    if c <= 0 {
        objs
    } else {
        neighbour_pass(collision_pass(objs, cells, w, c - 1), cells, w, c - 1, 9)
    }
}

/// No two distinct particles of `objs` overlap: touching is allowed.
pub open spec fn all_apart(objs: Seq<Object>) -> bool {
    forall|a: int, b: int|
        0 <= a < objs.len() && 0 <= b < objs.len() && a != b ==> dist2(
            (#[trigger] objs[a]).position,
            (#[trigger] objs[b]).position,
        ) >= (objs[a].radius + objs[b].radius) * (objs[a].radius + objs[b].radius)
}

/// Every handle listed in `cells` is below `n`.
pub open spec fn handles_in(cells: Seq<Seq<usize>>, n: int) -> bool {
    forall|c: int, s: int| 0 <= c < cells.len() && 0 <= s < cells[c].len() ==> #[trigger] cells[c][s] < n
}

proof fn lemma_pair_step_apart(objs: Seq<Object>, ha: int, hb: int)
    requires
        all_apart(objs),
        0 <= ha < objs.len(),
        0 <= hb < objs.len(),
    ensures
        pair_step(objs, ha, hb) == objs,
{
    if ha != hb {
        let a = objs[ha];
        let b = objs[hb];
        assert(dist2(a.position, b.position) >= (a.radius + b.radius) * (a.radius + b.radius));
        assert(collision_spec(a, b) == (a.position, b.position));
        assert(pair_step(objs, ha, hb) =~= objs);
    }
}

proof fn lemma_row_pass_apart(objs: Seq<Object>, cells: Seq<Seq<usize>>, c: int, nc: int, sa: int, sb: int)
    requires
        all_apart(objs),
        handles_in(cells, objs.len() as int),
        0 <= c < cells.len(),
        0 <= nc < cells.len(),
        0 <= sa < cells[c].len(),
        sb <= cells[nc].len(),
    ensures
        row_pass(objs, cells, c, nc, sa, sb) == objs,
    decreases sb - row_start(c, nc, sa),
{
    if sb > row_start(c, nc, sa) {
        lemma_row_pass_apart(objs, cells, c, nc, sa, sb - 1);
        assert(cells[c][sa] < objs.len() && cells[nc][sb - 1] < objs.len());
        lemma_pair_step_apart(objs, cells[c][sa] as int, cells[nc][sb - 1] as int);
    }
}

proof fn lemma_cell_pair_pass_apart(objs: Seq<Object>, cells: Seq<Seq<usize>>, c: int, nc: int, sa: int)
    requires
        all_apart(objs),
        handles_in(cells, objs.len() as int),
        0 <= c < cells.len(),
        0 <= nc < cells.len(),
        sa <= cells[c].len(),
    ensures
        cell_pair_pass(objs, cells, c, nc, sa) == objs,
    decreases sa,
{
    if sa > 0 {
        lemma_cell_pair_pass_apart(objs, cells, c, nc, sa - 1);
        lemma_row_pass_apart(objs, cells, c, nc, sa - 1, cells[nc].len() as int);
    }
}

proof fn lemma_neighbour_pass_apart(objs: Seq<Object>, cells: Seq<Seq<usize>>, w: int, c: int, k: int)
    requires
        all_apart(objs),
        handles_in(cells, objs.len() as int),
        w >= 1,
        cells.len() == w * w,
        0 <= c < cells.len(),
    ensures
        neighbour_pass(objs, cells, w, c, k) == objs,
    decreases k,
{
    if k > 0 {
        lemma_neighbour_pass_apart(objs, cells, w, c, k - 1);
        match neighbour(c, k - 1, w) {
            Some(nc) => {
                let nx = c % w + (k - 1) % 3 - 1;
                let ny = c / w + (k - 1) / 3 - 1;
                assert(nx + ny * w < w * w) by (nonlinear_arith)
                    requires
                        0 <= nx < w,
                        0 <= ny < w,
                ;
                lemma_cell_pair_pass_apart(objs, cells, c, nc, cells[c].len() as int);
            },
            None => {},
        }
    }
}

proof fn lemma_collision_pass_apart(objs: Seq<Object>, cells: Seq<Seq<usize>>, w: int, c: int)
    requires
        all_apart(objs),
        handles_in(cells, objs.len() as int),
        w >= 1,
        cells.len() == w * w,
        c <= cells.len(),
    ensures
        collision_pass(objs, cells, w, c) == objs,
    decreases c,
{
    if c > 0 {
        lemma_collision_pass_apart(objs, cells, w, c - 1);
        lemma_neighbour_pass_apart(objs, cells, w, c - 1, 9);
    }
}

/// A collision pass over particles none of which overlap another (pairs at
/// exactly the sum of their radii included) moves nothing: the overlap test
/// is strict.
pub proof fn lemma_collisions_leave_apart_particles(objs: Seq<Object>, cells: Seq<Seq<usize>>, w: int)
    requires
        all_apart(objs),
        handles_in(cells, objs.len() as int),
        w >= 1,
        cells.len() == w * w,
    ensures
        collision_pass(objs, cells, w, w * w) == objs,
{
    lemma_collision_pass_apart(objs, cells, w, w * w);
}

/// Boundary containment where it holds: when no two particles overlap once the
/// boundary has been applied, the collision pass that follows moves nothing,
/// so every particle ends the sub-step inside the circle.
pub proof fn lemma_contained_when_apart(objs: Seq<Object>, center: Vec2, radius: int, grid: Grid)
    requires
        forall|i: int| 0 <= i < objs.len() ==> (#[trigger] objs[i]).wf(),
        in_range(center, MAX_EXTENT as int),
        1 <= radius <= MAX_EXTENT,
        grid.wf(),
        all_apart(bounded(objs, center, radius)),
    ensures
        ({
            let placed = bounded(objs, center, radius);
            let done = collision_pass(placed, grid.bucketed(placed), grid.width as int, grid.cells@.len() as int);
            forall|i: int|
                0 <= i < objs.len() ==> dist2((#[trigger] done[i]).position, center) <= (radius
                    - objs[i].radius) * (radius - objs[i].radius)
        }),
{
    let placed = bounded(objs, center, radius);
    lemma_bucketed_below(&grid, placed);
    lemma_collisions_leave_apart_particles(placed, grid.bucketed(placed), grid.width as int);
    lemma_boundary_contains(objs, center, radius);
}

/// One sub-step of `dt` microseconds: gravity and integration, links, the
/// boundary, re-bucketing on a grid shaped as `grid`, then collisions.
pub open spec fn substep(
    objs: Seq<Object>,
    links: Seq<Link>,
    gravity: Vec2,
    center: Vec2,
    radius: int,
    grid: Grid,
    dt: int,
) -> Seq<Object> {
    let placed = bounded(links_applied(integrated(objs, gravity, dt), links), center, radius);
    collision_pass(placed, grid.bucketed(placed), grid.width as int, grid.cells@.len() as int)
}

/// `k` sub-steps in a row.
pub open spec fn substeps(
    objs: Seq<Object>,
    links: Seq<Link>,
    gravity: Vec2,
    center: Vec2,
    radius: int,
    grid: Grid,
    dt: int,
    k: nat,
) -> Seq<Object>
    decreases k,
{
    if k == 0 {
        objs
    } else {
        substep(
            substeps(objs, links, gravity, center, radius, grid, dt, (k - 1) as nat),
            links,
            gravity,
            center,
            radius,
            grid,
            dt,
        )
    }
}

/// The boundary phase leaves every particle within `radius` of the centre,
/// its own radius included.
pub proof fn lemma_boundary_contains(objs: Seq<Object>, center: Vec2, radius: int)
    requires
        forall|i: int| 0 <= i < objs.len() ==> (#[trigger] objs[i]).wf(),
        in_range(center, MAX_EXTENT as int),
        1 <= radius <= MAX_EXTENT,
    ensures
        forall|i: int|
            0 <= i < objs.len() ==> dist2(
                (#[trigger] bounded(objs, center, radius)[i]).position,
                center,
            ) <= (radius - objs[i].radius) * (radius - objs[i].radius),
{
    assert forall|i: int| 0 <= i < objs.len() implies dist2(
        (#[trigger] bounded(objs, center, radius)[i]).position,
        center,
    ) <= (radius - objs[i].radius) * (radius - objs[i].radius) by {
        lemma_border_within(objs[i], center, radius);
    }
}

/// Pinned particles that lie inside the boundary stay put over any run of
/// updates: the property composes from one update to the next.
pub proof fn lemma_pinned_stay_over_updates(
    a: Seq<Object>,
    b: Seq<Object>,
    c: Seq<Object>,
    center: Vec2,
    radius: int,
)
    requires
        same_particles(a, b),
        pinned_inside_fixed(a, b, center, radius),
        pinned_inside_fixed(b, c, center, radius),
    ensures
        pinned_inside_fixed(a, c, center, radius),
{
    assert forall|i: int|
        0 <= i < a.len() && (#[trigger] a[i]).pinned && inside(
            a[i].position,
            a[i].radius as int,
            center,
            radius,
        ) implies c[i].position == a[i].position by {
        assert(b[i].pinned && b[i].radius == a[i].radius && b[i].position == a[i].position);
    }
}

/// In a well-formed engine (so after every `update`) each particle is listed
/// in exactly one cell, at exactly one slot; that cell is the one of its
/// position, and when the position lies over the grid the cell's bounds hold it.
pub proof fn lemma_grid_lists_each_once(e: &PhysicsEngine, i: int)
    requires
        e.wf(),
        0 <= i < e.particles().len(),
    ensures
        ({
            let g = e.grid_state();
            let p = e.particles()[i].position;
            let c = g.cell_of(p);
            let gx = axis_cell(p.x as int, g.origin.x as int, g.cell_size as int, g.width as int);
            let gy = axis_cell(p.y as int, g.origin.y as int, g.cell_size as int, g.width as int);
            &&& 0 <= c < g.cells@.len()
            &&& c == gx + gy * g.width
            &&& 0 <= gx < g.width
            &&& 0 <= gy < g.width
            &&& g.cells@[c]@.contains(i as usize)
            &&& forall|c2: int, s: int|
                0 <= c2 < g.cells@.len() && 0 <= s < g.cells@[c2]@.len() && #[trigger] g.cells@[c2]@[s]
                    == i ==> c2 == c
            &&& forall|s1: int, s2: int|
                0 <= s1 < g.cells@[c]@.len() && 0 <= s2 < g.cells@[c]@.len() && #[trigger] g.cells@[c]@[s1]
                    == i && #[trigger] g.cells@[c]@[s2] == i ==> s1 == s2
            &&& g.origin.x <= p.x < g.origin.x + g.width * g.cell_size ==> g.origin.x + gx * g.cell_size
                <= p.x < g.origin.x + (gx + 1) * g.cell_size
            &&& g.origin.y <= p.y < g.origin.y + g.width * g.cell_size ==> g.origin.y + gy * g.cell_size
                <= p.y < g.origin.y + (gy + 1) * g.cell_size
        }),
{
    let g = e.grid_state();
    let p = e.particles()[i].position;
    let w = g.width as int;
    let size = g.cell_size as int;
    g.lemma_cell_of_bounds(p);
    lemma_axis_cell_bounds(p.x as int, g.origin.x as int, size, w);
    lemma_axis_cell_bounds(p.y as int, g.origin.y as int, size, w);
    if g.origin.x <= p.x < g.origin.x + w * size {
        lemma_cell_contains(p.x as int, g.origin.x as int, size, w);
    }
    if g.origin.y <= p.y < g.origin.y + w * size {
        lemma_cell_contains(p.y as int, g.origin.y as int, size, w);
    }
    let c = g.cell_of(p);
    assert forall|s1: int, s2: int|
        0 <= s1 < g.cells@[c]@.len() && 0 <= s2 < g.cells@[c]@.len() && #[trigger] g.cells@[c]@[s1]
            == i && #[trigger] g.cells@[c]@[s2] == i implies s1 == s2 by {
        if s1 < s2 {
            assert(g.cells@[c]@[s1] < g.cells@[c]@[s2]);
        } else if s2 < s1 {
            assert(g.cells@[c]@[s2] < g.cells@[c]@[s1]);
        }
    }
}

impl PhysicsEngine {
    pub closed spec fn particles(&self) -> Seq<Object> {
        self.objects@
    }

    pub closed spec fn link_list(&self) -> Seq<Link> {
        self.links@
    }

    pub closed spec fn grid_state(&self) -> Grid {
        self.grid
    }

    pub closed spec fn center(&self) -> Vec2 {
        self.constraint_center
    }

    pub closed spec fn boundary_radius(&self) -> int {
        self.radius as int
    }

    pub closed spec fn gravity_of(&self) -> Vec2 {
        self.gravity
    }

    /// Everything but the grid's agreement with the particles' positions.
    pub closed spec fn wf_core(&self) -> bool {
        &&& in_range(self.constraint_center, MAX_EXTENT as int)
        &&& 1 <= self.radius <= MAX_EXTENT
        &&& in_range(self.gravity, COORD_LIMIT as int)
        &&& self.grid.wf()
        &&& self.grid.handles_below(self.objects@.len() as int)
        &&& forall|i: int| 0 <= i < self.objects@.len() ==> (#[trigger] self.objects@[i]).wf()
        &&& forall|k: int|
            0 <= k < self.links@.len() ==> link_ok(#[trigger] self.links@[k], self.objects@.len() as int)
    }

    pub open spec fn wf(&self) -> bool {
        &&& self.wf_core()
        &&& self.grid_state().consistent(self.particles())
    }

    /// `self` follows from `start` by steps of the solver: same particles and
    /// links, pinned particles inside the boundary unmoved.
    pub closed spec fn settles(&self, start: &PhysicsEngine) -> bool {
        &&& self.wf_core()
        &&& same_particles(start.objects@, self.objects@)
        &&& pinned_inside_fixed(start.objects@, self.objects@, self.constraint_center, self.radius as int)
        &&& self.links@ == start.links@
        &&& self.constraint_center == start.constraint_center
        &&& self.radius == start.radius
        &&& self.gravity == start.gravity
        &&& self.grid.same_shape(&start.grid)
    }

    /// Like `settles`, with the grid untouched and no pinned particle moved.
    closed spec fn keeps_pins(&self, start: &PhysicsEngine) -> bool {
        &&& self.settles(start)
        &&& pinned_fixed(start.objects@, self.objects@)
        &&& self.grid == start.grid
    }

    proof fn lemma_settles_trans(a: &PhysicsEngine, b: &PhysicsEngine, c: &PhysicsEngine)
        requires
            b.settles(a),
            c.settles(b),
        ensures
            c.settles(a),
    {
        assert forall|i: int|
            0 <= i < a.objects@.len() && (#[trigger] a.objects@[i]).pinned && inside(
                a.objects@[i].position,
                a.objects@[i].radius as int,
                a.constraint_center,
                a.radius as int,
            ) implies c.objects@[i].position == a.objects@[i].position by {
            assert(b.objects@[i].pinned);
            assert(b.objects@[i].position == a.objects@[i].position);
            assert(b.objects@[i].radius == a.objects@[i].radius);
        }
    }

    proof fn lemma_keeps_pins_trans(a: &PhysicsEngine, b: &PhysicsEngine, c: &PhysicsEngine)
        requires
            b.keeps_pins(a),
            c.keeps_pins(b),
        ensures
            c.keeps_pins(a),
    {
        Self::lemma_settles_trans(a, b, c);
        assert forall|i: int| 0 <= i < a.objects@.len() && (#[trigger] a.objects@[i]).pinned implies c.objects@[i].position
            == a.objects@[i].position by {
            assert(b.objects@[i].pinned);
        }
    }

    /// An engine with no particles and no links: a boundary circle of `radius`
    /// about `(center_x, center_y)`, a grid of cells of side `cell_size` over a
    /// square of side `2.5 * radius`, and the given gravity.
    pub fn new(center_x: i64, center_y: i64, radius: i64, cell_size: i64, gravity: Vec2) -> (r:
        PhysicsEngine)
        requires
            -MAX_EXTENT <= center_x <= MAX_EXTENT,
            -MAX_EXTENT <= center_y <= MAX_EXTENT,
            1 <= radius <= MAX_EXTENT,
            1 <= cell_size <= radius * 5 / 2,
            (radius * 5 / 2) / (cell_size as int) <= MAX_GRID_WIDTH,
            in_range(gravity, COORD_LIMIT as int),
        ensures
            r.wf(),
            r.grid_state().width == (radius * 5 / 2) / (cell_size as int),
            r.grid_state().cell_size == cell_size,
            r.grid_state().origin == (Vec2 {
                x: (center_x - (r.grid_state().width * cell_size) / 2) as i64,
                y: (center_y - (r.grid_state().width * cell_size) / 2) as i64,
            }),
            r.grid_state().cells@.len() == r.grid_state().width * r.grid_state().width,
            forall|c: int|
                0 <= c < r.grid_state().cells@.len() ==> (#[trigger] r.grid_state().cells@[c])@.len()
                    == 0,
            r.particles().len() == 0,
            r.link_list().len() == 0,
            r.center() == (Vec2 { x: center_x, y: center_y }),
            r.boundary_radius() == radius,
            r.gravity_of() == gravity,
    {
        let center = Vec2 { x: center_x, y: center_y };
        let grid = Grid::new(center, radius, cell_size);
        let r = PhysicsEngine {
            objects: Vec::new(),
            grid,
            links: Vec::new(),
            constraint_center: center,
            radius,
            gravity,
        };
        assert(r.objects@ =~= Seq::<Object>::empty());
        r
    }

    /// Adds a particle, lists it in the grid, and returns its handle.
    pub fn spawn_object(&mut self, obj: Object) -> (h: usize)
        requires
            old(self).wf(),
            obj.wf(),
        ensures
            final(self).wf(),
            final(self).particles() == old(self).particles().push(obj),
            h == old(self).particles().len(),
            final(self).grid_state().same_shape(&old(self).grid_state()),
            forall|c: int|
                0 <= c < final(self).grid_state().cells@.len() ==> (
                #[trigger] final(self).grid_state().cells@[c])@ == if c == old(
                    self,
                ).grid_state().cell_of(obj.position) {
                    old(self).grid_state().cells@[c]@.push(h)
                } else {
                    old(self).grid_state().cells@[c]@
                },
            final(self).link_list() == old(self).link_list(),
            final(self).center() == old(self).center(),
            final(self).boundary_radius() == old(self).boundary_radius(),
            final(self).gravity_of() == old(self).gravity_of(),
    {
        let ghost prev = self.objects@;
        self.objects.push(obj);
        let h = self.objects.len() - 1;
        assert(self.objects@.take(h as int) =~= prev);
        self.grid.assign(&self.objects, h);
        assert(self.objects@.take(h + 1) =~= self.objects@);
        proof {
            assert forall|c: int, s: int|
                0 <= c < self.grid.cells@.len() && 0 <= s < self.grid.cells@[c]@.len() implies 0
                    <= #[trigger] self.grid.cells@[c]@[s] < self.objects@.len() by {}
        }
        h
    }

    /// Holds particles `a` and `b` `length` units apart from the next update on.
    pub fn add_link(&mut self, a: usize, b: usize, length: i64) -> (r: Result<(), LinkError>)
        requires
            old(self).wf(),
        ensures
            final(self).wf(),
            final(self).particles() == old(self).particles(),
            final(self).grid_state() == old(self).grid_state(),
            final(self).center() == old(self).center(),
            final(self).boundary_radius() == old(self).boundary_radius(),
            final(self).gravity_of() == old(self).gravity_of(),
            r == Err::<(), LinkError>(LinkError::UnknownHandle) <==> (a >= old(self).particles().len()
                || b >= old(self).particles().len()),
            r == Err::<(), LinkError>(LinkError::SameParticle) <==> (a < old(self).particles().len()
                && b < old(self).particles().len() && a == b),
            r == Err::<(), LinkError>(LinkError::BadLength) <==> (a < old(self).particles().len()
                && b < old(self).particles().len() && a != b && !(1 <= length <= MAX_EXTENT)),
            r is Ok <==> (a < old(self).particles().len() && b < old(self).particles().len() && a
                != b && 1 <= length <= MAX_EXTENT),
            r is Ok ==> final(self).link_list() == old(self).link_list().push(Link(a, b, length)),
            r is Err ==> final(self).link_list() == old(self).link_list(),
    {
        let n = self.objects.len();
        if a >= n || b >= n {
            return Err(LinkError::UnknownHandle);
        }
        if a == b {
            return Err(LinkError::SameParticle);
        }
        if length < 1 || length > MAX_EXTENT {
            return Err(LinkError::BadLength);
        }
        self.links.push(Link(a, b, length));
        Ok(())
    }

    /// Links the two most recently spawned particles, `length` units apart.
    pub fn link_last_two(&mut self, length: i64) -> (r: Result<(), LinkError>)
        requires
            old(self).wf(),
        ensures
            final(self).wf(),
            final(self).particles() == old(self).particles(),
            final(self).grid_state() == old(self).grid_state(),
            final(self).center() == old(self).center(),
            final(self).boundary_radius() == old(self).boundary_radius(),
            final(self).gravity_of() == old(self).gravity_of(),
            r is Ok <==> (old(self).particles().len() >= 2 && 1 <= length <= MAX_EXTENT),
            r == Err::<(), LinkError>(LinkError::UnknownHandle) <==> old(self).particles().len() < 2,
            r == Err::<(), LinkError>(LinkError::BadLength) <==> (old(self).particles().len() >= 2
                && !(1 <= length <= MAX_EXTENT)),
            r is Ok ==> final(self).link_list() == old(self).link_list().push(
                Link((old(self).particles().len() - 2) as usize, (old(self).particles().len() - 1) as usize, length),
            ),
            r is Err ==> final(self).link_list() == old(self).link_list(),
    {
        let n = self.objects.len();
        if n < 2 {
            return Err(LinkError::UnknownHandle);
        }
        self.add_link(n - 2, n - 1, length)
    }

    /// Position, radius and colour of every particle, by handle.
    pub fn iterate_particles(&self) -> (r: Vec<(Vec2, i64, u32)>)
        requires
            self.wf(),
        ensures
            r@.len() == self.particles().len(),
            forall|i: int|
                0 <= i < r@.len() ==> #[trigger] r@[i] == (
                    self.particles()[i].position,
                    self.particles()[i].radius,
                    self.particles()[i].color,
                ),
    {
        let mut r: Vec<(Vec2, i64, u32)> = Vec::new();
        let mut i: usize = 0;
        while i < self.objects.len()
            invariant
                i <= self.objects@.len(),
                r@.len() == i,
                forall|k: int|
                    0 <= k < i ==> #[trigger] r@[k] == (
                        self.objects@[k].position,
                        self.objects@[k].radius,
                        self.objects@[k].color,
                    ),
            decreases self.objects@.len() - i,
        {
            let o = self.objects[i];
            r.push((o.position, o.radius, o.color));
            i = i + 1;
        }
        r
    }

    /// Advances the simulation by `dt` microseconds in `SUB_STEPS` equal
    /// sub-steps. Each sub-step integrates, resolves links, applies the
    /// boundary, re-buckets the grid, resolves collisions, and re-buckets again.
    pub fn update(&mut self, dt: u64)
        requires
            old(self).wf(),
            dt <= MAX_UPDATE_MICROS,
        ensures
            final(self).wf(),
            same_particles(old(self).particles(), final(self).particles()),
            pinned_inside_fixed(
                old(self).particles(),
                final(self).particles(),
                old(self).center(),
                old(self).boundary_radius(),
            ),
            final(self).link_list() == old(self).link_list(),
            final(self).center() == old(self).center(),
            final(self).boundary_radius() == old(self).boundary_radius(),
            final(self).gravity_of() == old(self).gravity_of(),
            final(self).grid_state().same_shape(&old(self).grid_state()),
            final(self).particles() == substeps(
                old(self).particles(),
                old(self).link_list(),
                old(self).gravity_of(),
                old(self).center(),
                old(self).boundary_radius(),
                old(self).grid_state(),
                (dt / SUB_STEPS) as int,
                SUB_STEPS as nat,
            ),
    {
        let sub = dt / SUB_STEPS;
        let ghost start = *self;
        let mut step: u64 = 0;
        while step < SUB_STEPS
            invariant
                self.wf(),
                self.settles(&start),
                sub <= MAX_STEP_MICROS,
                step <= SUB_STEPS,
                sub == dt / SUB_STEPS,
                self.objects@ == substeps(
                    start.objects@,
                    start.links@,
                    start.gravity,
                    start.constraint_center,
                    start.radius as int,
                    start.grid,
                    sub as int,
                    step as nat,
                ),
            decreases SUB_STEPS - step,
        {
            let ghost s0 = *self;
            self.update_objects(sub);
            let ghost s1 = *self;
            self.apply_links();
            let ghost s2 = *self;
            self.apply_boundary();
            let ghost s3 = *self;
            self.rebucket();
            let ghost s4 = *self;
            self.calculate_collisions();
            let ghost s5 = *self;
            self.rebucket();
            proof {
                Self::lemma_settles_trans(&s0, &s1, &s2);
                Self::lemma_settles_trans(&s0, &s2, &s3);
                Self::lemma_settles_trans(&s0, &s3, &s4);
                Self::lemma_settles_trans(&s0, &s4, &s5);
                Self::lemma_settles_trans(&s0, &s5, self);
                Self::lemma_settles_trans(&start, &s0, self);
                lemma_bucketed_same_shape(&s3.grid, &start.grid, s3.objects@);
            }
            step = step + 1;
        }
    }

    /// Lists every particle afresh in the cell of its current position.
    fn rebucket(&mut self)
        requires
            old(self).wf_core(),
        ensures
            final(self).settles(old(self)),
            final(self).objects@ == old(self).objects@,
            final(self).grid.consistent(final(self).objects@),
            final(self).grid.cell_lists() == old(self).grid.bucketed(old(self).objects@),
    {
        self.grid.rebuild(&self.objects);
        proof {
            assert forall|c: int, s: int|
                0 <= c < self.grid.cells@.len() && 0 <= s < self.grid.cells@[c]@.len() implies 0
                    <= #[trigger] self.grid.cells@[c]@[s] < self.objects@.len() by {}
        }
    }

    /// Applies gravity to every free particle and advances it by one Verlet
    /// step of `dt` microseconds.
    fn update_objects(&mut self, dt: u64)
        requires
            old(self).wf_core(),
            dt <= MAX_STEP_MICROS,
        ensures
            final(self).keeps_pins(old(self)),
            final(self).objects@ == integrated(old(self).objects@, old(self).gravity, dt as int),
    {
        let ghost start = *self;
        let n = self.objects.len();
        let mut i: usize = 0;
        while i < n
            invariant
                n == self.objects@.len(),
                i <= n,
                dt <= MAX_STEP_MICROS,
                self.keeps_pins(&start),
                forall|j: int| 0 <= j < i ==> #[trigger] self.objects@[j] == stepped(accelerated(start.objects@[j], start.gravity), dt as int),
                forall|j: int| i <= j < n ==> #[trigger] self.objects@[j] == start.objects@[j],
            decreases n - i,
        {
            let mut o = self.objects[i];
            o.accelerate(self.gravity);
            o.update_position(dt);
            self.objects.set(i, o);
            i = i + 1;
        }
        assert(self.objects@ =~= integrated(start.objects@, start.gravity, dt as int));
    }

    /// Resolves every link once, in the order they were added.
    fn apply_links(&mut self)
        requires
            old(self).wf_core(),
        ensures
            final(self).keeps_pins(old(self)),
            final(self).objects@ == links_applied(old(self).objects@, old(self).links@),
    {
        let ghost start = *self;
        let m = self.links.len();
        let mut k: usize = 0;
        while k < m
            invariant
                m == self.links@.len(),
                k <= m,
                self.keeps_pins(&start),
                self.objects@ == links_applied(start.objects@, start.links@.take(k as int)),
            decreases m - k,
        {
            assert(start.links@.take(k + 1).drop_last() =~= start.links@.take(k as int));
            let l = self.links[k];
            assert(link_ok(self.links@[k as int], self.objects@.len() as int));
            let oa = self.objects[l.0];
            let ob = self.objects[l.1];
            let (pa, pb) = link_correction(&oa, &ob, l.2);
            self.objects.set(l.0, Object { position: pa, ..oa });
            self.objects.set(l.1, Object { position: pb, ..ob });
            k = k + 1;
        }
        assert(start.links@.take(m as int) =~= start.links@);
    }

    /// Pulls every particle back inside the boundary circle.
    fn apply_boundary(&mut self)
        requires
            old(self).wf_core(),
        ensures
            final(self).settles(old(self)),
            final(self).grid == old(self).grid,
            final(self).objects@ == bounded(old(self).objects@, old(self).constraint_center, old(self).radius as int),
            forall|i: int|
                0 <= i < final(self).objects@.len() ==> dist2(
                    (#[trigger] final(self).objects@[i]).position,
                    final(self).constraint_center,
                ) <= (final(self).radius - final(self).objects@[i].radius) * (final(self).radius
                    - final(self).objects@[i].radius),
    {
        let ghost start = *self;
        let n = self.objects.len();
        let mut i: usize = 0;
        while i < n
            invariant
                n == self.objects@.len(),
                i <= n,
                self.settles(&start),
                self.grid == start.grid,
                forall|j: int| 0 <= j < i ==> #[trigger] self.objects@[j] == (Object { position: border_spec(start.objects@[j], start.constraint_center, start.radius as int), ..start.objects@[j] }),
                forall|j: int| i <= j < n ==> #[trigger] self.objects@[j] == start.objects@[j],
                forall|j: int|
                    0 <= j < i ==> dist2(
                        (#[trigger] self.objects@[j]).position,
                        self.constraint_center,
                    ) <= (self.radius - self.objects@[j].radius) * (self.radius
                        - self.objects@[j].radius),
            decreases n - i,
        {
            let o = self.objects[i];
            let p = constrain_border(&o, self.constraint_center, self.radius);
            self.objects.set(i, Object { position: p, ..o });
            i = i + 1;
        }
        assert(self.objects@ =~= bounded(start.objects@, start.constraint_center, start.radius as int));
    }

    /// Tests particles `ha` and `hb` for overlap and pushes them apart.
    fn resolve_pair(&mut self, ha: usize, hb: usize)
        requires
            old(self).wf_core(),
            ha < old(self).objects@.len(),
            hb < old(self).objects@.len(),
            ha != hb,
        ensures
            final(self).keeps_pins(old(self)),
            final(self).objects@ == pair_step(old(self).objects@, ha as int, hb as int),
            ({
                let a = old(self).objects@[ha as int];
                let b = old(self).objects@[hb as int];
                !(a.pinned && b.pinned) && dist2(a.position, b.position) > 0 && in_range(
                    a.position,
                    INNER_LIMIT as int,
                ) && in_range(b.position, INNER_LIMIT as int) ==> dist2(
                    final(self).objects@[ha as int].position,
                    final(self).objects@[hb as int].position,
                ) >= (a.radius + b.radius) * (a.radius + b.radius)
            }),
    {
        let oa = self.objects[ha];
        let ob = self.objects[hb];
        let (pa, pb) = collision_correction(&oa, &ob);
        self.objects.set(ha, Object { position: pa, ..oa });
        self.objects.set(hb, Object { position: pb, ..ob });
        assert(self.objects@ =~= pair_step(old(self).objects@, ha as int, hb as int));
    }

    /// Tests each pair with one particle listed in cell `c` and one in cell
    /// `nc`; within one cell, each unordered pair once.
    fn resolve_cells(&mut self, c: usize, nc: usize)
        requires
            old(self).wf_core(),
            c < old(self).grid.cells@.len(),
            nc < old(self).grid.cells@.len(),
        ensures
            final(self).keeps_pins(old(self)),
            final(self).objects@ == cell_pair_pass(
                old(self).objects@,
                old(self).grid.cell_lists(),
                c as int,
                nc as int,
                old(self).grid.cells@[c as int]@.len() as int,
            ),
    {
        let ghost start = *self;
        let ghost cells = self.grid.cell_lists();
        let la = self.grid.cells[c].len();
        let mut sa: usize = 0;
        while sa < la
            invariant
                la == self.grid.cells@[c as int]@.len(),
                sa <= la,
                self.keeps_pins(&start),
                c < self.grid.cells@.len(),
                nc < self.grid.cells@.len(),
                cells == self.grid.cell_lists(),
                self.objects@ == cell_pair_pass(start.objects@, cells, c as int, nc as int, sa as int),
            decreases la - sa,
        {
            let ghost row_objs = self.objects@;
            let lb = self.grid.cells[nc].len();
            let mut sb: usize = if c == nc {
                sa + 1
            } else {
                0
            };
            while sb < lb
                invariant
                    lb == self.grid.cells@[nc as int]@.len(),
                    la == self.grid.cells@[c as int]@.len(),
                    sa < la,
                    self.keeps_pins(&start),
                    c < self.grid.cells@.len(),
                    nc < self.grid.cells@.len(),
                    cells == self.grid.cell_lists(),
                    row_start(c as int, nc as int, sa as int) <= sb <= lb,
                    row_objs == cell_pair_pass(start.objects@, cells, c as int, nc as int, sa as int),
                    self.objects@ == row_pass(row_objs, cells, c as int, nc as int, sa as int, sb as int),
                decreases lb - sb,
            {
                let ha = self.grid.cells[c][sa];
                let hb = self.grid.cells[nc][sb];
                assert(ha == cells[c as int][sa as int] && hb == cells[nc as int][sb as int]);
                if ha != hb {
                    let ghost before = *self;
                    self.resolve_pair(ha, hb);
                    proof {
                        Self::lemma_keeps_pins_trans(&start, &before, self);
                    }
                }
                sb = sb + 1;
            }
            sa = sa + 1;
        }
    }

    /// Broad phase: each cell against itself and its neighbours on the grid,
    /// each pair of distinct cells once.
    fn calculate_collisions(&mut self)
        requires
            old(self).wf_core(),
        ensures
            final(self).keeps_pins(old(self)),
            final(self).objects@ == collision_pass(
                old(self).objects@,
                old(self).grid.cell_lists(),
                old(self).grid.width as int,
                old(self).grid.cells@.len() as int,
            ),
    {
        let ghost start = *self;
        let ghost cells = self.grid.cell_lists();
        let w = self.grid.width;
        let total = self.grid.cells.len();
        let mut c: usize = 0;
        while c < total
            invariant
                total == self.grid.cells@.len(),
                total == w * w,
                w == self.grid.width,
                c <= total,
                self.keeps_pins(&start),
                cells == self.grid.cell_lists(),
                self.objects@ == collision_pass(start.objects@, cells, w as int, c as int),
            decreases total - c,
        {
            let ghost cell_objs = self.objects@;
            let cx = c % w;
            let cy = c / w;
            proof {
                lemma_fundamental_div_mod(c as int, w as int);
                lemma_mod_pos_bound(c as int, w as int);
                assert(cy < w) by (nonlinear_arith)
                    requires
                        c == w * cy + c % w,
                        0 <= c % w < w,
                        c < w * w,
                        cy >= 0,
                ;
            }
            let mut k: usize = 0;
            while k < 9
                invariant
                    total == self.grid.cells@.len(),
                    total == w * w,
                    w == self.grid.width,
                    c < total,
                    cx < w,
                    cy < w,
                    cx == c % w,
                    cy == c / w,
                    k <= 9,
                    self.keeps_pins(&start),
                    cells == self.grid.cell_lists(),
                    cell_objs == collision_pass(start.objects@, cells, w as int, c as int),
                    self.objects@ == neighbour_pass(cell_objs, cells, w as int, c as int, k as int),
                decreases 9 - k,
            {
                let nx = cx + k % 3;
                let ny = cy + k / 3;
                if nx >= 1 && nx - 1 < w && ny >= 1 && ny - 1 < w {
                    proof {
                        assert((nx - 1) + (ny - 1) * w < w * w) by (nonlinear_arith)
                            requires
                                0 <= nx - 1 < w,
                                0 <= ny - 1 < w,
                        ;
                    }
                    let nc = (nx - 1) + (ny - 1) * w;
                    if nc >= c {
                        let ghost before = *self;
                        self.resolve_cells(c, nc);
                        proof {
                            Self::lemma_keeps_pins_trans(&start, &before, self);
                        }
                    }
                }
                k = k + 1;
            }
            c = c + 1;
        }
    }

    /// Number of particles.
    pub fn particle_count(&self) -> (r: usize)
        ensures
            r == self.particles().len(),
    {
        self.objects.len()
    }

    /// Number of grid cells.
    pub fn cell_count(&self) -> (r: usize)
        ensures
            r == self.grid_state().cells@.len(),
    {
        self.grid.cells.len()
    }

    /// Handles listed in grid cell `c`.
    pub fn cell(&self, c: usize) -> (r: &Vec<usize>)
        requires
            c < self.grid_state().cells@.len(),
        ensures
            r@ == self.grid_state().cells@[c as int]@,
    {
        &self.grid.cells[c]
    }

    /// Index of the grid cell that a particle at `p` belongs in.
    pub fn cell_index(&self, p: Vec2) -> (r: usize)
        requires
            self.wf(),
            in_range(p, COORD_LIMIT as int),
        ensures
            r == self.grid_state().cell_of(p),
    {
        self.grid.cell_index(p)
    }
}

} // verus!
