use vstd::prelude::*;

verus! {

/// A point, or a displacement per tick, on the integer grid.
#[derive(Clone, Copy, Debug, PartialEq, Eq, Structural)]
pub struct Vec2 {
    pub x: i64,
    pub y: i64,
}

/// Where an entity is and how far it moves each tick.
#[derive(Clone, Copy, Debug, PartialEq, Eq, Structural)]
pub struct MotionState {
    pub position: Vec2,
    pub velocity: Vec2,
}

/// The position after `n` ticks: each tick adds the velocity once.
pub open spec fn ticked_position(s: MotionState, n: nat) -> (int, int)
    decreases n,
{
    if n == 0 {
        (s.position.x as int, s.position.y as int)
    } else {
        let p = ticked_position(s, (n - 1) as nat);
        (p.0 + s.velocity.x, p.1 + s.velocity.y)
    }
}

pub open spec fn fits_i64(v: int) -> bool {
    i64::MIN <= v <= i64::MAX
}

/// The position after `n` ticks can be held.
pub open spec fn can_advance(s: MotionState, n: nat) -> bool {
    fits_i64(s.position.x + n * s.velocity.x) && fits_i64(s.position.y + n * s.velocity.y)
}

proof fn lemma_ticked_closed_form(s: MotionState, n: nat)
    ensures
        ticked_position(s, n) == (s.position.x + n * s.velocity.x, s.position.y + n
            * s.velocity.y),
    decreases n,
{
    let (vx, vy) = (s.velocity.x as int, s.velocity.y as int);
    if n > 0 {
        let m = (n - 1) as nat;
        lemma_ticked_closed_form(s, m);
        assert(m * vx + vx == n * vx) by (nonlinear_arith)
            requires
                m + 1 == n,
        ;
        assert(m * vy + vy == n * vy) by (nonlinear_arith)
            requires
                m + 1 == n,
        ;
    } else {
        assert(n * vx == 0 && n * vy == 0) by (nonlinear_arith)
            requires
                n == 0,
        ;
    }
}

proof fn lemma_between(p: int, v: int, k: nat, n: nat)
    requires
        k <= n,
        fits_i64(p),
        fits_i64(p + n * v),
    ensures
        fits_i64(p + k * v),
{
    if v >= 0 {
        assert(0 <= k * v <= n * v) by (nonlinear_arith)
            requires
                v >= 0,
                k <= n,
        ;
    } else {
        assert(n * v <= k * v <= 0) by (nonlinear_arith)
            requires
                v < 0,
                k <= n,
        ;
    }
}

/// Ticking a state that starts at the origin `n` times leaves it at `n`
/// times its velocity: the ticks add up exactly.
pub proof fn lemma_ticks_from_origin(velocity: Vec2, n: nat)
    ensures
        ticked_position(
            (MotionState { position: Vec2 { x: 0, y: 0 }, velocity }),
            n,
        ) == (n * velocity.x, n * velocity.y),
{
    lemma_ticked_closed_form(MotionState { position: Vec2 { x: 0, y: 0 }, velocity }, n);
}

impl MotionState {
    /// Moves the position by the velocity once.
    pub fn tick(&mut self)
        requires
            can_advance(*old(self), 1),
        ensures
            final(self).velocity == old(self).velocity,
            final(self).position.x == old(self).position.x + old(self).velocity.x,
            final(self).position.y == old(self).position.y + old(self).velocity.y,
    {
        self.position.x = self.position.x + self.velocity.x;
        self.position.y = self.position.y + self.velocity.y;
    }

    /// Ticks `n` times.
    pub fn advance(&mut self, n: u64)
        requires
            can_advance(*old(self), n as nat),
        ensures
            final(self).velocity == old(self).velocity,
            (final(self).position.x as int, final(self).position.y as int) == ticked_position(
                *old(self),
                n as nat,
            ),
    {
        let ghost start = *self;
        let mut i: u64 = 0;
        while i < n
            invariant
                i <= n,
                self.velocity == start.velocity,
                can_advance(start, n as nat),
                (self.position.x as int, self.position.y as int) == ticked_position(
                    start,
                    i as nat,
                ),
            decreases n - i,
        {
            proof {
                lemma_ticked_closed_form(start, i as nat);
                lemma_ticked_closed_form(start, (i + 1) as nat);
                lemma_between(start.position.x as int, start.velocity.x as int, (i + 1) as nat, n as nat);
                lemma_between(start.position.y as int, start.velocity.y as int, (i + 1) as nat, n as nat);
            }
            self.tick();
            i = i + 1;
        }
    }
}

/// The tracked entities; an entity's identifier is its index.
#[derive(Debug)]
pub struct World {
    pub entities: Vec<MotionState>,
}

impl World {
    /// A world with one entity at the origin, moving by one unit on each axis per tick.
    pub fn setup() -> (w: World)
        ensures
            w.entities@ == seq![
                MotionState { position: Vec2 { x: 0, y: 0 }, velocity: Vec2 { x: 1, y: 1 } },
            ],
    {
        let mut entities: Vec<MotionState> = Vec::new();
        entities.push(MotionState { position: Vec2 { x: 0, y: 0 }, velocity: Vec2 { x: 1, y: 1 } });
        World { entities }
    }

    /// Ticks every entity once.
    pub fn update_position(&mut self)
        requires
            forall|i: int|
                0 <= i < old(self).entities@.len() ==> can_advance(
                    #[trigger] old(self).entities@[i],
                    1,
                ),
        ensures
            final(self).entities@.len() == old(self).entities@.len(),
            forall|i: int|
                0 <= i < final(self).entities@.len() ==> {
                    let (s, t) = (old(self).entities@[i], #[trigger] final(self).entities@[i]);
                    &&& t.velocity == s.velocity
                    &&& t.position.x == s.position.x + s.velocity.x
                    &&& t.position.y == s.position.y + s.velocity.y
                },
    {
        let ghost start = self.entities@;
        let n = self.entities.len();
        let mut i: usize = 0;
        while i < n
            invariant
                i <= n,
                n == start.len(),
                self.entities@.len() == n,
                forall|k: int| 0 <= k < n ==> can_advance(#[trigger] start[k], 1),
                forall|k: int| i <= k < n ==> #[trigger] self.entities@[k] == start[k],
                forall|k: int|
                    0 <= k < i ==> {
                        let (s, t) = (start[k], #[trigger] self.entities@[k]);
                        &&& t.velocity == s.velocity
                        &&& t.position.x == s.position.x + s.velocity.x
                        &&& t.position.y == s.position.y + s.velocity.y
                    },
            decreases n - i,
        {
            let mut s = self.entities[i];
            s.tick();
            self.entities.set(i, s);
            i = i + 1;
        }
    }

    /// Each entity's identifier with its position.
    pub fn positions(&self) -> (r: Vec<(usize, Vec2)>)
        ensures
            r@.len() == self.entities@.len(),
            forall|i: int|
                0 <= i < r@.len() ==> #[trigger] r@[i] == (i as usize, self.entities@[i].position),
    {
        let mut r: Vec<(usize, Vec2)> = Vec::new();
        let mut i: usize = 0;
        while i < self.entities.len()
            invariant
                i <= self.entities@.len(),
                r@.len() == i,
                forall|k: int|
                    0 <= k < i ==> #[trigger] r@[k] == (k as usize, self.entities@[k].position),
            decreases self.entities.len() - i,
        {
            r.push((i, self.entities[i].position));
            i = i + 1;
        }
        r
    }
}

} // verus!
