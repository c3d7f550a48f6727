use vstd::prelude::*;

use crate::colony::{generation, generations, glider_shape, interior, next_generation, Cell, Colony};

verus! {

/// How long, in milliseconds, the driver waits for input when a tick is
/// already due, so that it never waits zero time in a busy loop.
pub const IDLE_WAIT_MS: u64 = 500;

/// `v / 2`, rounded toward zero.
pub open spec fn half(v: i32) -> int {
    if v >= 0 {
        v / 2
    } else {
        -((-v) / 2)
    }
}

/// The glider that a viewport of `height` rows and `width` columns starts
/// with, its reference point at `(width / 2, height / 2)`.
pub open spec fn glider(height: i32, width: i32) -> Set<Cell> {
    glider_shape(half(width) as i32, half(height) as i32)
}

/// The simulation state: the current colony.
pub struct App {
    pub cells: Colony,
}

impl App {
    /// A state seeded with the glider centred in a viewport of `height` rows
    /// and `width` columns.
    pub fn new(height: i32, width: i32) -> (r: App)
        ensures
            r.cells@ == glider(height, width),
    {
        let x = width / 2;
        let y = height / 2;
        let offsets: Vec<Cell> = vec![(0, -1), (1, 0), (-1, 1), (0, 1), (1, 1)];
        let mut seed: Vec<Cell> = Vec::new();
        let mut i: usize = 0;
        while i < offsets.len()
            invariant
                offsets@ == seq![(0i32, -1i32), (1i32, 0i32), (-1i32, 1i32), (0i32, 1i32), (1i32, 1i32)],
                x == half(width),
                y == half(height),
                i <= 5,
                seed@.len() == i,
                forall|k: int|
                    0 <= k < i ==> #[trigger] seed@[k] == ((x + offsets@[k].0) as i32, (y
                        + offsets@[k].1) as i32),
            decreases 5 - i,
        {
            let o = offsets[i];
            seed.push((o.0 + x, o.1 + y));
            i = i + 1;
        }
        let cells = Colony::from_cells(seed);
        assert(seed@.to_set() =~= glider(height, width)) by {
            assert forall|c: Cell| #[trigger] glider(height, width).contains(c) implies seed@.contains(
                c,
            ) by {
                if c == seed@[0] {
                } else if c == seed@[1] {
                } else if c == seed@[2] {
                } else if c == seed@[3] {
                } else {
                    assert(c == seed@[4]);
                }
            }
        }
        App { cells }
    }

    /// The current colony.
    pub fn cells(&self) -> (r: &Colony)
        ensures
            r == &self.cells,
    {
        &self.cells
    }

    /// Replaces the colony by its next generation.
    pub fn on_tick(&mut self)
        requires
            interior(old(self).cells@),
        ensures
            final(self).cells@ == next_generation(old(self).cells@),
    {
        let current = self.cells.duplicate();
        self.cells = generation(current);
    }
}

/// What one wait for input ended with.
#[derive(Clone, Copy, Debug, PartialEq, Eq, Structural)]
pub enum Input {
    /// The quit key was pressed.
    Quit,
    /// Another key or event arrived.
    Other,
    /// The wait ran out with no event.
    Nothing,
}

/// What the loop does after a cycle.
#[derive(Clone, Copy, Debug, PartialEq, Eq, Structural)]
pub enum Step {
    /// Stop: no further rendering or advancing.
    Exit,
    /// Render the colony and wait again.
    Continue,
}

/// The driver as a value: the colony, the tick interval and the time of the
/// last tick boundary (milliseconds of a monotonic clock), and whether the
/// driver has terminated.
pub ghost struct DriverView {
    pub colony: Set<Cell>,
    pub tick_rate: nat,
    pub last_tick: nat,
    pub terminated: bool,
}

/// How long to wait for input at time `now`: the time left to the next tick,
/// or [`IDLE_WAIT_MS`] when none is left.
pub open spec fn wait_for(v: DriverView, now: nat) -> nat {
    if now < v.last_tick + v.tick_rate {
        (v.last_tick + v.tick_rate - now) as nat
    } else {
        IDLE_WAIT_MS as nat
    }
}

/// A tick is due at time `now`.
pub open spec fn tick_due(v: DriverView, now: nat) -> bool {
    now >= v.last_tick + v.tick_rate
}

/// The driver after a wait that ended with `input` at time `now`.
pub open spec fn react(v: DriverView, input: Input, now: nat) -> DriverView {
    if v.terminated {
        v
    } else if input == Input::Quit {
        DriverView { terminated: true, ..v }
    } else if tick_due(v, now) {
        DriverView { colony: next_generation(v.colony), last_tick: now, ..v }
    } else {
        v
    }
}

/// The driver after the waits that ended as `events` say, each an input and
/// the time at which it came, in order.
pub open spec fn run(v: DriverView, events: Seq<(Input, nat)>) -> DriverView
    decreases events.len(),
{
    if events.len() == 0 {
        v
    } else {
        let w = run(v, events.drop_last());
        react(w, events.last().0, events.last().1)
    }
}

/// The driver after `n` cycles on a clock that moves only while the driver
/// waits, each wait running out after exactly the time it was given.
pub open spec fn on_schedule(v: DriverView, n: nat) -> DriverView
    decreases n,
{
    if n == 0 {
        v
    } else {
        let w = on_schedule(v, (n - 1) as nat);
        react(w, Input::Nothing, w.last_tick + wait_for(w, w.last_tick))
    }
}

/// Runs the simulation: holds the current state and decides, after each wait
/// for input, whether to stop, advance one generation, or just wait again.
pub struct Driver {
    app: App,
    tick_rate: u64,
    last_tick: u64,
    terminated: bool,
}

impl View for Driver {
    type V = DriverView;

    closed spec fn view(&self) -> DriverView {
        DriverView {
            colony: self.app.cells@,
            tick_rate: self.tick_rate as nat,
            last_tick: self.last_tick as nat,
            terminated: self.terminated,
        }
    }
}

impl Driver {
    /// A running driver over `app` that advances every `tick_rate`
    /// milliseconds, its first tick interval starting at `now`.
    pub fn new(app: App, tick_rate: u64, now: u64) -> (r: Driver)
        ensures
            r@ == (DriverView {
                colony: app.cells@,
                tick_rate: tick_rate as nat,
                last_tick: now as nat,
                terminated: false,
            }),
    {
        Driver { app, tick_rate, last_tick: now, terminated: false }
    }

    /// The colony to render.
    pub fn colony(&self) -> (r: &Colony)
        ensures
            r@ == self@.colony,
    {
        &self.app.cells
    }

    /// Whether the driver has stopped.
    pub fn is_terminated(&self) -> (r: bool)
        ensures
            r == self@.terminated,
    {
        self.terminated
    }

    /// How long to wait for input at time `now`.
    pub fn timeout(&self, now: u64) -> (r: u64)
        requires
            now >= self@.last_tick,
        ensures
            r == wait_for(self@, now as nat),
    {
        let elapsed = now - self.last_tick;
        if elapsed < self.tick_rate {
            self.tick_rate - elapsed
        } else {
            IDLE_WAIT_MS
        }
    }

    /// Takes in how a wait ended: `input`, at time `now`. On the quit key the
    /// driver terminates; otherwise, when a tick interval has passed since the
    /// last tick boundary, the colony advances one generation and `now`
    /// becomes the tick boundary.
    pub fn handle(&mut self, input: Input, now: u64) -> (r: Step)
        requires
            now >= old(self)@.last_tick,
            input != Input::Quit && tick_due(old(self)@, now as nat) ==> interior(old(self)@.colony),
        ensures
            final(self)@ == react(old(self)@, input, now as nat),
            r == (if final(self)@.terminated {
                Step::Exit
            } else {
                Step::Continue
            }),
    {
        if self.terminated {
            return Step::Exit;
        }
        match input {
            Input::Quit => {
                self.terminated = true;
                return Step::Exit;
            },
            _ => {},
        }
        if now - self.last_tick >= self.tick_rate {
            self.app.on_tick();
            self.last_tick = now;
        }
        Step::Continue
    }
}

/// No tick happens while less than one tick interval has passed: waits that
/// end, with anything but the quit key, before the interval is over leave
/// the driver as it was.
pub proof fn lemma_no_tick_within_interval(v: DriverView, events: Seq<(Input, nat)>)
    requires
        forall|i: int|
            0 <= i < events.len() ==> #[trigger] events[i].0 != Input::Quit && v.last_tick
                <= events[i].1 < v.last_tick + v.tick_rate,
    ensures
        run(v, events) == v,
    decreases events.len(),
{
    if events.len() > 0 {
        lemma_no_tick_within_interval(v, events.drop_last());
        assert(events.last() == events[events.len() - 1]);
    }
}

/// On a clock that moves only while the driver waits, with no quit key, each
/// cycle ends exactly one tick interval after the last: after `n` cycles the
/// colony has advanced exactly `n` generations and `n` intervals have passed.
pub proof fn lemma_one_tick_per_interval(v: DriverView, n: nat)
    requires
        v.tick_rate > 0,
        !v.terminated,
    ensures
        on_schedule(v, n) == (DriverView {
            colony: generations(v.colony, n),
            last_tick: v.last_tick + n * v.tick_rate,
            ..v
        }),
    decreases n,
{
    if n > 0 {
        lemma_one_tick_per_interval(v, (n - 1) as nat);
        let w = on_schedule(v, (n - 1) as nat);
        assert(v.last_tick + (n - 1) * v.tick_rate + v.tick_rate == v.last_tick + n * v.tick_rate)
            by (nonlinear_arith);
        assert(wait_for(w, w.last_tick) == v.tick_rate);
        assert(tick_due(w, w.last_tick + wait_for(w, w.last_tick)));
        assert(on_schedule(v, n).colony == generations(v.colony, n));
        assert(on_schedule(v, n).last_tick == v.last_tick + n * v.tick_rate);
    } else {
        assert(n * v.tick_rate == 0) by (nonlinear_arith)
            requires
                n == 0,
        ;
    }
}

/// The quit key ends the driver at once, with the colony and tick boundary
/// as they were, and nothing that comes after changes it.
pub proof fn lemma_quit_is_final(v: DriverView, now: nat, events: Seq<(Input, nat)>)
    requires
        !v.terminated,
    ensures
        react(v, Input::Quit, now).terminated,
        react(v, Input::Quit, now).colony == v.colony,
        react(v, Input::Quit, now).last_tick == v.last_tick,
        run(react(v, Input::Quit, now), events) == react(v, Input::Quit, now),
    decreases events.len(),
{
    if events.len() > 0 {
        lemma_quit_is_final(v, now, events.drop_last());
    }
}

} // verus!
