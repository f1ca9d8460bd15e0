use vstd::prelude::*;
use rand::rngs::StdRng;
use crate::color::RgbColor;
use crate::table::{ColorTable, EmptyTableError};

verus! {

/// What one tick observed of a key.
#[derive(Clone, Copy, Debug, PartialEq, Eq, Structural)]
pub struct KeyEvents {
    /// The key is down during this tick.
    pub pressed: bool,
    /// The key went down since the previous tick.
    pub just_pressed: bool,
    /// The key went up since the previous tick.
    pub just_released: bool,
}

/// Remembers whether a key was down at the previous tick, to tell edges from levels.
#[derive(Clone, Copy, Debug, PartialEq, Eq, Structural)]
pub struct KeyTracker {
    pub held: bool,
}

pub open spec fn events_for(held: bool, pressed: bool) -> KeyEvents {
    KeyEvents { pressed, just_pressed: pressed && !held, just_released: !pressed && held }
}

/// How many times an edge trigger fires over `inputs`, one input per tick,
/// when the key was `held` before the first.
pub open spec fn fire_count(held: bool, inputs: Seq<bool>) -> nat
    decreases inputs.len(),
{
    if inputs.len() == 0 {
        0
    } else {
        (if inputs[0] && !held {
            1nat
        } else {
            0nat
        }) + fire_count(inputs[0], inputs.drop_first())
    }
}

/// The key state after `inputs`, starting from `held`.
pub open spec fn held_after(held: bool, inputs: Seq<bool>) -> bool {
    if inputs.len() == 0 {
        held
    } else {
        inputs.last()
    }
}

/// `n` ticks in which the key is down (`down`) or up.
pub open spec fn run(down: bool, n: nat) -> Seq<bool> {
    Seq::new(n, |i: int| down)
}

/// Released for `before` ticks, held for `hold` ticks, released for `after` ticks.
pub open spec fn press_and_release(before: nat, hold: nat, after: nat) -> Seq<bool> {
    run(false, before) + run(true, hold) + run(false, after)
}

proof fn lemma_fire_count_append(held: bool, a: Seq<bool>, b: Seq<bool>)
    ensures
        fire_count(held, a + b) == fire_count(held, a) + fire_count(held_after(held, a), b),
    decreases a.len(),
{
    if a.len() > 0 {
        assert((a + b).drop_first() =~= a.drop_first() + b);
        lemma_fire_count_append(a[0], a.drop_first(), b);
        if a.len() > 1 {
            assert(a.drop_first().last() == a.last());
        }
    } else {
        assert(a + b =~= b);
    }
}

proof fn lemma_fire_count_run(held: bool, down: bool, n: nat)
    ensures
        fire_count(held, run(down, n)) == (if down && !held && n > 0 {
            1nat
        } else {
            0nat
        }),
    decreases n,
{
    if n > 0 {
        assert(run(down, n).drop_first() =~= run(down, (n - 1) as nat));
        lemma_fire_count_run(down, down, (n - 1) as nat);
    }
}

/// Pressing the key once and holding it for any number of ticks fires the
/// trigger exactly once, not once per tick while it is held.
pub proof fn lemma_single_press_fires_once(before: nat, hold: nat, after: nat)
    requires
        hold >= 1,
    ensures
        fire_count(false, press_and_release(before, hold, after)) == 1,
{
    let f = run(false, before);
    let t = run(true, hold);
    lemma_fire_count_append(false, f + t, run(false, after));
    lemma_fire_count_append(false, f, t);
    lemma_fire_count_run(false, false, before);
    lemma_fire_count_run(held_after(false, f), true, hold);
    lemma_fire_count_run(held_after(false, f + t), false, after);
    assert((f + t).last() == true);
}

impl KeyTracker {
    /// A key that is up.
    pub fn new() -> (k: KeyTracker)
        ensures
            !k.held,
    {
        KeyTracker { held: false }
    }

    /// Records whether the key is down during this tick.
    pub fn update(&mut self, pressed: bool) -> (e: KeyEvents)
        ensures
            e == events_for(old(self).held, pressed),
            final(self).held == pressed,
    {
        let e = KeyEvents {
            pressed,
            just_pressed: pressed && !self.held,
            just_released: !pressed && self.held,
        };
        self.held = pressed;
        e
    }

    /// Records one input per tick and counts the ticks at which the key was just pressed.
    pub fn feed(&mut self, inputs: &Vec<bool>) -> (n: usize)
        ensures
            n == fire_count(old(self).held, inputs@),
            final(self).held == held_after(old(self).held, inputs@),
    {
        let ghost start = self.held;
        let mut n: usize = 0;
        let mut i: usize = 0;
        assert(inputs@.subrange(0, 0) =~= Seq::<bool>::empty());
        assert(inputs@.subrange(0, inputs@.len() as int) =~= inputs@);
        while i < inputs.len()
            invariant
                i <= inputs@.len(),
                n <= i,
                n + fire_count(self.held, inputs@.subrange(i as int, inputs@.len() as int))
                    == fire_count(start, inputs@),
                self.held == held_after(start, inputs@.subrange(0, i as int)),
            decreases inputs.len() - i,
        {
            let ghost rest = inputs@.subrange(i as int, inputs@.len() as int);
            assert(rest.drop_first() =~= inputs@.subrange(i + 1, inputs@.len() as int));
            let e = self.update(inputs[i]);
            if e.just_pressed {
                n = n + 1;
            }
            i = i + 1;
        }
        assert(inputs@.subrange(0, i as int) =~= inputs@);
        n
    }
}

/// Where the color set by a trigger comes from.
#[derive(Debug)]
pub enum ColorMode {
    /// Always the same color.
    Fixed(RgbColor),
    /// A color specification drawn from a table.
    Table(ColorTable),
}

/// What a trigger selected.
#[derive(Debug)]
pub enum Selection {
    /// A color, ready to use.
    Color(RgbColor),
    /// A color specification that still has to be parsed.
    Spec(String),
}

/// A selection drawn from table entries `t`: the specification of one of
/// them, or an error exactly when there is none.
pub open spec fn drawn_from(t: Seq<(Seq<char>, Seq<char>)>, r: Result<Selection, EmptyTableError>) -> bool {
    match r {
        Ok(Selection::Spec(s)) => exists|i: int| 0 <= i < t.len() && #[trigger] t[i].1 == s@,
        Ok(Selection::Color(_)) => false,
        Err(_) => t.len() == 0,
    }
}

/// `r` is what a trigger may select in `mode`.
pub open spec fn selected_by(mode: ColorMode, r: Result<Selection, EmptyTableError>) -> bool {
    match mode {
        ColorMode::Fixed(c) => r matches Ok(Selection::Color(d)) && d == c,
        ColorMode::Table(t) => drawn_from(t@, r),
    }
}

impl ColorMode {
    /// The selection for a trigger, where the table, if any, is read at position `index`.
    pub fn select_at(&self, index: usize) -> (r: Selection)
        requires
            self matches ColorMode::Table(t) ==> index < t@.len(),
        ensures
            match self {
                ColorMode::Fixed(c) => r == Selection::Color(*c),
                ColorMode::Table(t) => r matches Selection::Spec(s) && s@ == t@[index as int].1,
            },
    {
        match self {
            ColorMode::Fixed(c) => Selection::Color(*c),
            ColorMode::Table(t) => {
                let (_, spec) = t.entry_at(index);
                Selection::Spec(spec.clone())
            },
        }
    }

    /// The selection for a trigger, drawing a table entry at random from `rng`.
    pub fn select(&self, rng: &mut StdRng) -> (r: Result<Selection, EmptyTableError>)
        ensures
            selected_by(*self, r),
    {
        match self {
            ColorMode::Fixed(c) => Ok(Selection::Color(*c)),
            ColorMode::Table(t) => match t.pick_random(rng) {
                Ok((name, spec)) => {
                    proof {
                        let i = choose|i: int| 0 <= i < t@.len() && #[trigger] t@[i] == (name@, spec@);
                        assert(t@[i].1 == spec@);
                    }
                    Ok(Selection::Spec(spec.clone()))
                },
                Err(e) => Err(e),
            },
        }
    }
}

/// Reacts to the trigger key: selects a color once per press, not once per
/// tick while the key is held.
#[derive(Debug)]
pub struct Reactor {
    pub mode: ColorMode,
    pub trigger: KeyTracker,
}

impl Reactor {
    /// A reactor whose trigger key is up.
    pub fn new(mode: ColorMode) -> (r: Reactor)
        ensures
            r.mode == mode,
            !r.trigger.held,
    {
        Reactor { mode, trigger: KeyTracker::new() }
    }

    /// Records whether the trigger key is down during this tick; where it was
    /// just pressed, returns the selection drawn with `rng`.
    pub fn on_tick(&mut self, pressed: bool, rng: &mut StdRng) -> (r: Option<
        Result<Selection, EmptyTableError>,
    >)
        ensures
            final(self).mode == old(self).mode,
            final(self).trigger.held == pressed,
            r is Some <==> pressed && !old(self).trigger.held,
            r matches Some(x) ==> selected_by(old(self).mode, x),
    {
        let e = self.trigger.update(pressed);
        if e.just_pressed {
            Some(self.mode.select(rng))
        } else {
            None
        }
    }
}

} // verus!
