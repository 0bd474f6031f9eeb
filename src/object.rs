use vstd::prelude::*;
use crate::geometry::{in_range, saturate, saturate_coord, Vec2, COORD_LIMIT, MAX_EXTENT};

verus! {

/// Longest time step, in microseconds, that one integration accepts.
pub const MAX_STEP_MICROS: u64 = 1_000_000_000;

/// Microseconds squared in one second squared.
pub const MICROS2_PER_S2: i128 = 1_000_000_000_000;

/// One circular particle. Its velocity is implicit: `position - last_position`.
#[derive(Clone, Copy, Debug)]
pub struct Object {
    pub position: Vec2,
    pub last_position: Vec2,
    pub acceleration: Vec2,
    pub pinned: bool,
    /// Render colour as `0xRRGGBBAA`; the solver never reads it.
    pub color: u32,
    pub radius: i64,
}

/// Displacement of one step of length `dt` microseconds under acceleration `a`
/// (units per second squared), rounded toward zero.
pub open spec fn drift(a: int, dt: int) -> int {
    if a < 0 {
        -((-a) * (dt * dt) / (MICROS2_PER_S2 as int))
    } else {
        (a * (dt * dt)) / (MICROS2_PER_S2 as int)
    }
}

/// `o` after `accel` is added to its pending acceleration.
pub open spec fn accelerated(o: Object, accel: Vec2) -> Object {
    if o.pinned {
        o
    } else {
        Object {
            acceleration: Vec2 {
                x: saturate(o.acceleration.x + accel.x) as i64,
                y: saturate(o.acceleration.y + accel.y) as i64,
            },
            ..o
        }
    }
}

/// `o` after one Verlet step of `dt` microseconds.
pub open spec fn stepped(o: Object, dt: int) -> Object {
    if o.pinned {
        o
    } else {
        Object {
            position: Vec2 {
                x: saturate(2 * o.position.x - o.last_position.x + drift(o.acceleration.x as int, dt)) as i64,
                y: saturate(2 * o.position.y - o.last_position.y + drift(o.acceleration.y as int, dt)) as i64,
            },
            last_position: o.position,
            acceleration: Vec2 { x: 0, y: 0 },
            ..o
        }
    }
}

impl Object {
    pub open spec fn wf(&self) -> bool {
        &&& 1 <= self.radius <= MAX_EXTENT
        &&& in_range(self.position, COORD_LIMIT as int)
        &&& in_range(self.last_position, COORD_LIMIT as int)
        &&& in_range(self.acceleration, COORD_LIMIT as int)
    }

    /// A particle at rest at `(x, y)`.
    pub fn new(x: i64, y: i64, radius: i64, color: u32, pinned: bool) -> (r: Object)
        requires
            1 <= radius <= MAX_EXTENT,
            -COORD_LIMIT <= x <= COORD_LIMIT,
            -COORD_LIMIT <= y <= COORD_LIMIT,
        ensures
            r.wf(),
            r.position == (Vec2 { x, y }),
            r.last_position == (Vec2 { x, y }),
            r.acceleration == (Vec2 { x: 0, y: 0 }),
            r.pinned == pinned,
            r.color == color,
            r.radius == radius,
    {
        Object {
            position: Vec2 { x, y },
            last_position: Vec2 { x, y },
            acceleration: Vec2 { x: 0, y: 0 },
            pinned,
            color,
            radius,
        }
    }

    /// One Verlet step of `dt` microseconds; a pinned particle does not move.
    pub fn update_position(&mut self, dt: u64)
        requires
            old(self).wf(),
            dt <= MAX_STEP_MICROS,
        ensures
            final(self).wf(),
            *final(self) == stepped(*old(self), dt as int),
    {
        if self.pinned {
            return;
        }
        let dx = step_drift(self.acceleration.x, dt);
        let dy = step_drift(self.acceleration.y, dt);
        let nx = saturate_coord(
            2 * (self.position.x as i128) - (self.last_position.x as i128) + dx,
        );
        let ny = saturate_coord(
            2 * (self.position.y as i128) - (self.last_position.y as i128) + dy,
        );
        self.last_position = self.position;
        self.position = Vec2 { x: nx, y: ny };
        self.acceleration = Vec2 { x: 0, y: 0 };
    }

    /// Adds `accel` to the pending acceleration; a pinned particle ignores it.
    pub fn accelerate(&mut self, accel: Vec2)
        requires
            old(self).wf(),
        ensures
            final(self).wf(),
            *final(self) == accelerated(*old(self), accel),
    {
        if self.pinned {
            return;
        }
        let ax = saturate_coord(self.acceleration.x as i128 + accel.x as i128);
        let ay = saturate_coord(self.acceleration.y as i128 + accel.y as i128);
        self.acceleration = Vec2 { x: ax, y: ay };
    }
}

fn step_drift(a: i64, dt: u64) -> (r: i128)
    requires
        -COORD_LIMIT <= a <= COORD_LIMIT,
        dt <= MAX_STEP_MICROS,
    ensures
        r == drift(a as int, dt as int),
        -0x10_0000_0000_0000_0000 <= r <= 0x10_0000_0000_0000_0000,
{
    assert((dt as int) * (dt as int) <= 1_000_000_000_000_000_000) by (nonlinear_arith)
        requires
            0 <= dt <= 1_000_000_000,
    ;
    let d2: i128 = (dt as i128) * (dt as i128);
    assert(d2 <= 1_000_000_000_000_000_000) by (nonlinear_arith)
        requires
            d2 == dt * dt,
            0 <= dt <= 1_000_000_000,
    ;
    let m: i128 = if a < 0 { -(a as i128) } else { a as i128 };
    assert(0 <= m * d2 <= 1_099_511_627_776 * 1_000_000_000_000_000_000) by (nonlinear_arith)
        requires
            0 <= m <= 1_099_511_627_776,
            0 <= d2 <= 1_000_000_000_000_000_000,
    ;
    let q: i128 = (m * d2) / MICROS2_PER_S2;
    assert(q <= 0x10_0000_0000_0000_0000) by (nonlinear_arith)
        requires
            q == (m * d2) / 1_000_000_000_000,
            0 <= m * d2 <= 1_099_511_627_776 * 1_000_000_000_000_000_000,
    ;
    if a < 0 {
        -q
    } else {
        q
    }
}

} // verus!
