//! The course of a session: what to do next, from what happened last.
use crate::double::{zero, Double, Value};
use crate::laws::valid;
use crate::market::InstrumentView;
use crate::terminal::{
    places_order, pressed, quits, slippage_limit, started, ticked, values, App, AppView, KeyCode,
};
use vstd::prelude::*;

verus! {

/// The time between two steps of the market, in nanoseconds.
pub const TICK_NANOS: u64 = 180_000_000;

/// What the session is waiting for.
#[derive(Clone, Copy, PartialEq, Eq, Structural, Debug)]
pub enum Phase {
    Drawing,
    Polling,
    Reading,
    /// The slippage of the order that a key places.
    Pricing { key: KeyCode },
    Timing,
    Moving,
    Restarting,
    Ended,
}

/// What happened.
pub enum Event {
    /// The screen was drawn. `elapsed` nanoseconds have passed since the last step of the market.
    Drawn { elapsed: u128 },
    /// The wait for input is over, and there is some if `ready`.
    Polled { ready: bool },
    /// Input was read: a key, or something else.
    Read { key: Option<KeyCode> },
    /// The slippage was drawn.
    Slippage { amount: Double },
    /// `elapsed` nanoseconds have passed since the last step of the market.
    Timed { elapsed: u128 },
    /// The noise of each instrument was drawn.
    Noise { amounts: Vec<Double> },
    /// The time since the last step of the market counts from now.
    Restarted,
}

/// What is to be done next.
pub enum Action {
    /// Draw the screen.
    Draw,
    /// Wait for input, at most `timeout` nanoseconds.
    Poll { timeout: u64 },
    /// Read the input.
    Read,
    /// Draw a slippage from zero up to `bound`.
    DrawSlippage { bound: Double },
    /// Read the time since the last step of the market.
    ReadClock,
    /// Draw the noise of each instrument, less than its bound in either direction.
    DrawNoise { bounds: Vec<Double> },
    /// Count the time since the last step of the market from now.
    RestartClock,
    /// End the session.
    Quit,
    /// Nothing: this is not what the session was waiting for.
    Ignore,
}

/// How long to wait for input: up to the next step of the market.
pub open spec fn time_left(elapsed: nat) -> nat {
    if elapsed >= TICK_NANOS {
        0
    } else {
        (TICK_NANOS - elapsed) as nat
    }
}

/// The bounds of the noise of each instrument.
pub open spec fn volatilities(a: AppView) -> Seq<Value> {
    a.instruments.map_values(|i: InstrumentView| i.volatility)
}

/// How long to wait for input when `elapsed` nanoseconds have passed since the last step.
pub fn poll_timeout(elapsed: u128) -> (r: u64)
    ensures
        r == time_left(elapsed as nat),
{
    if elapsed >= TICK_NANOS as u128 {
        0
    } else {
        TICK_NANOS - elapsed as u64
    }
}

/// Whether the next step of the market is due.
pub fn tick_due(elapsed: u128) -> (r: bool)
    ensures
        r == (elapsed >= TICK_NANOS),
{
    elapsed >= TICK_NANOS as u128
}

/// A terminal in use.
pub struct Session {
    pub app: App,
    pub phase: Phase,
}

impl Session {
    /// A session whose screen is to be drawn first.
    pub fn new() -> (r: Self)
        ensures
            r.app@ == started(),
            r.app@.consistent(),
            valid(r.app@),
            r.phase == Phase::Drawing,
    {
        Session { app: App::new(), phase: Phase::Drawing }
    }

    /// The bounds of the noise of each instrument.
    fn noise_bounds(&self) -> (r: Vec<Double>)
        ensures
            values(r@) == volatilities(self.app@),
    {
        let mut r: Vec<Double> = Vec::new();
        let mut i: usize = 0;
        while i < self.app.instruments.len()
            invariant
                i <= self.app.instruments@.len(),
                r@.len() == i,
                forall|j: int|
                    0 <= j < i ==> (#[trigger] r@[j])@ == self.app@.instruments[j].volatility,
            decreases self.app.instruments@.len() - i,
        {
            r.push(self.app.instruments[i].volatility);
            i = i + 1;
        }
        assert(values(r@) =~= volatilities(self.app@));
        r
    }

    /// Handles a key and says what comes next.
    fn press(&mut self, key: KeyCode, slippage: Double) -> (r: Action)
        requires
            old(self).app@.consistent(),
        ensures
            final(self).app@ == pressed(old(self).app@, key, slippage@),
            valid(old(self).app@) ==> valid(final(self).app@),
            quits(key) ==> final(self).phase == Phase::Ended && r == Action::Quit,
            !quits(key) ==> final(self).phase == Phase::Timing && r == Action::ReadClock,
    {
        let goes_on = self.app.handle_key(key, slippage);
        if goes_on {
            self.phase = Phase::Timing;
            Action::ReadClock
        } else {
            self.phase = Phase::Ended;
            Action::Quit
        }
    }

    /// Takes in what happened and says what is to be done next.
    pub fn step(&mut self, event: Event) -> (r: Action)
        requires
            old(self).app@.consistent(),
            old(self).phase == Phase::Moving ==> old(self).app.clock < u64::MAX,
        ensures
            final(self).app@.consistent(),
            valid(old(self).app@) ==> valid(final(self).app@),
            match (old(self).phase, event) {
                (Phase::Drawing, Event::Drawn { elapsed }) => {
                    &&& final(self).phase == Phase::Polling
                    &&& final(self).app@ == old(self).app@
                    &&& r matches Action::Poll { timeout } && timeout == time_left(elapsed as nat)
                },
                (Phase::Polling, Event::Polled { ready }) => {
                    &&& final(self).app@ == old(self).app@
                    &&& ready ==> final(self).phase == Phase::Reading && r == Action::Read
                    &&& !ready ==> final(self).phase == Phase::Timing && r == Action::ReadClock
                },
                (Phase::Reading, Event::Read { key: None }) => {
                    &&& final(self).phase == Phase::Timing
                    &&& final(self).app@ == old(self).app@
                    &&& r == Action::ReadClock
                },
                (Phase::Reading, Event::Read { key: Some(key) }) => if places_order(
                    old(self).app@,
                    key,
                ) {
                    &&& final(self).phase == (Phase::Pricing { key })
                    &&& final(self).app@ == old(self).app@
                    &&& r matches Action::DrawSlippage { bound } && bound@ == slippage_limit(
                        old(self).app@,
                    )
                } else {
                    &&& final(self).app@ == pressed(old(self).app@, key, zero())
                    &&& quits(key) ==> final(self).phase == Phase::Ended && r == Action::Quit
                    &&& !quits(key) ==> final(self).phase == Phase::Timing && r
                        == Action::ReadClock
                },
                (Phase::Pricing { key }, Event::Slippage { amount }) => {
                    &&& final(self).app@ == pressed(old(self).app@, key, amount@)
                    &&& quits(key) ==> final(self).phase == Phase::Ended && r == Action::Quit
                    &&& !quits(key) ==> final(self).phase == Phase::Timing && r
                        == Action::ReadClock
                },
                (Phase::Timing, Event::Timed { elapsed }) => {
                    &&& final(self).app@ == old(self).app@
                    &&& elapsed >= TICK_NANOS ==> {
                        &&& final(self).phase == Phase::Moving
                        &&& r matches Action::DrawNoise { bounds } && values(bounds@)
                            == volatilities(old(self).app@)
                    }
                    &&& elapsed < TICK_NANOS ==> final(self).phase == Phase::Drawing && r
                        == Action::Draw
                },
                (Phase::Moving, Event::Noise { amounts }) => if amounts@.len() == old(
                    self,
                ).app@.instruments.len() {
                    &&& final(self).phase == Phase::Restarting
                    &&& final(self).app@ == ticked(old(self).app@, values(amounts@))
                    &&& r == Action::RestartClock
                } else {
                    &&& *final(self) == *old(self)
                    &&& r == Action::Ignore
                },
                (Phase::Restarting, Event::Restarted) => {
                    &&& final(self).phase == Phase::Drawing
                    &&& final(self).app@ == old(self).app@
                    &&& r == Action::Draw
                },
                _ => *final(self) == *old(self) && r == Action::Ignore,
            },
    {
        match (self.phase, event) {
            (Phase::Drawing, Event::Drawn { elapsed }) => {
                self.phase = Phase::Polling;
                Action::Poll { timeout: poll_timeout(elapsed) }
            },
            (Phase::Polling, Event::Polled { ready }) => {
                if ready {
                    self.phase = Phase::Reading;
                    Action::Read
                } else {
                    self.phase = Phase::Timing;
                    Action::ReadClock
                }
            },
            (Phase::Reading, Event::Read { key }) => {
                match key {
                    None => {
                        self.phase = Phase::Timing;
                        Action::ReadClock
                    },
                    Some(key) => match self.app.slippage_bound(key) {
                        Some(bound) => {
                            self.phase = Phase::Pricing { key };
                            Action::DrawSlippage { bound }
                        },
                        None => self.press(key, Double::signed_zero(false)),
                    },
                }
            },
            (Phase::Pricing { key }, Event::Slippage { amount }) => self.press(key, amount),
            (Phase::Timing, Event::Timed { elapsed }) => {
                if tick_due(elapsed) {
                    self.phase = Phase::Moving;
                    Action::DrawNoise { bounds: self.noise_bounds() }
                } else {
                    self.phase = Phase::Drawing;
                    Action::Draw
                }
            },
            (Phase::Moving, Event::Noise { amounts }) => {
                if amounts.len() != self.app.instruments.len() {
                    return Action::Ignore;
                }
                self.app.on_tick(&amounts);
                self.phase = Phase::Restarting;
                Action::RestartClock
            },
            (Phase::Restarting, Event::Restarted) => {
                self.phase = Phase::Drawing;
                Action::Draw
            },
            _ => Action::Ignore,
        }
    }
}

} // verus!
