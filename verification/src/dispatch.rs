//! The dispatch engine: one state that owns the shortcut table and the zoom
//! state, and one function that takes each event, of either source, to the
//! next state and to what the host does about it.

use crate::combination::{Button, Combination, Modifiers};
use crate::config::{first_match, lemma_first_match, valid_table, Config, Shortcut, UNIT};
use crate::magnifier::{applied, effect_of, lemma_applied_in_range, Effect, Magnifier};
use vstd::prelude::*;

verus! {

/// What the pointer did, as the system reports it.
#[derive(Clone, Copy, Debug, PartialEq, Eq, Structural)]
pub enum PointerMessage {
    Move,
    LeftDown,
    LeftUp,
    MiddleDown,
    MiddleUp,
    RightDown,
    RightUp,
    Wheel,
    WheelHorizontal,
    SideDown,
    SideUp,
    Other,
}

/// An event of one of the two sources.
#[derive(Clone, Copy, Debug, PartialEq, Eq, Structural)]
pub enum Event {
    /// The shortcut at `index` was triggered: by its key, or by a pointer
    /// event that the engine answered with `Reaction::Trigger`.
    Hotkey { index: usize },
    /// The pointer did `message`. `data` is the word that the system sends
    /// with a wheel or side button message, `modifiers` the modifier keys held
    /// when the event is dispatched.
    Pointer { message: PointerMessage, data: u32, modifiers: Modifiers },
}

/// What the host does about an event.
#[derive(Clone, Copy, Debug, PartialEq, Eq, Structural)]
pub enum Reaction {
    /// Nothing; a pointer event goes on to its other consumers.
    Pass,
    /// The cursor moved: compute the viewport anew and apply it. The event
    /// goes on to its other consumers.
    Follow,
    /// A press matched the shortcut at this index: consume the event and
    /// queue a hotkey event for the index.
    Trigger(usize),
    /// A release matched a shortcut: consume the event.
    Swallow,
    /// The shortcut is cooling down, or the engine has stopped: nothing ran.
    Dropped,
    /// The action of the shortcut ran; the effect says what is due.
    Ran(Effect),
}

/// The state of the engine: the shortcut table, the zoom factor in
/// thousandths, and whether an exit action has run.
pub ghost struct EngineState {
    pub table: Seq<Shortcut>,
    pub factor: int,
    pub exited: bool,
}

/// The engine.
#[derive(Debug)]
pub struct Engine {
    config: Config,
    magnifier: Magnifier,
    exited: bool,
}

/// The discriminator of a wheel message: 1 where the rotation, the upper half
/// of `data` read as a signed number, is negative (down, or to the left).
pub open spec fn wheel_extra(data: u32) -> i32 {
    if data >= 0x8000_0000 {
        1
    } else {
        0
    }
}

/// The number by which the system names the second side button; the first
/// is 1.
pub const SECOND_SIDE_BUTTON: u32 = 2;

/// The discriminator of a side button message: 1 where the upper half of
/// `data`, which names the button, names the second side button.
pub open spec fn side_extra(data: u32) -> i32 {
    if data / 0x1_0000 == SECOND_SIDE_BUTTON {
        1
    } else {
        0
    }
}

/// The button that a message is about, its discriminator, and whether the
/// message is a press. A move is about no button, nor is an unknown message.
pub open spec fn decode(message: PointerMessage, data: u32) -> Option<(Button, i32, bool)> {
    match message {
        PointerMessage::Move => None,
        PointerMessage::LeftDown => Some((Button::Left, 0i32, true)),
        PointerMessage::LeftUp => Some((Button::Left, 0i32, false)),
        PointerMessage::MiddleDown => Some((Button::Middle, 0i32, true)),
        PointerMessage::MiddleUp => Some((Button::Middle, 0i32, false)),
        PointerMessage::RightDown => Some((Button::Right, 0i32, true)),
        PointerMessage::RightUp => Some((Button::Right, 0i32, false)),
        PointerMessage::Wheel => Some((Button::WheelVertical, wheel_extra(data), true)),
        PointerMessage::WheelHorizontal => Some(
            (Button::WheelHorizontal, wheel_extra(data), true),
        ),
        PointerMessage::SideDown => Some((Button::Side, side_extra(data), true)),
        PointerMessage::SideUp => Some((Button::Side, side_extra(data), false)),
        PointerMessage::Other => None,
    }
}

/// The answer to a pointer event. A move asks for the viewport. Any other
/// message is matched against the table, first match wins: a press triggers
/// the shortcut, a release is only consumed, and without a match the event
/// passes.
pub open spec fn pointer_reaction(
    table: Seq<Shortcut>,
    message: PointerMessage,
    data: u32,
    modifiers: Modifiers,
) -> Reaction {
    match decode(message, data) {
        None => if message is Move {
            Reaction::Follow
        } else {
            Reaction::Pass
        },
        Some((button, extra, down)) => match first_match(
            table,
            Combination::Button { modifiers, button, extra },
        ) {
            Some(i) => if down {
                Reaction::Trigger(i as usize)
            } else {
                Reaction::Swallow
            },
            None => Reaction::Pass,
        },
    }
}

/// The state after the shortcut at `index` ran at `now`.
pub open spec fn run(state: EngineState, index: int, now: u64) -> EngineState {
    let shortcut = state.table[index];
    EngineState {
        table: state.table.update(index, Shortcut { last_run: now, ..shortcut }),
        factor: applied(state.factor, shortcut.action),
        exited: shortcut.action is Exit,
    }
}

/// One step of the engine: the state after `event` at time `now`, and what
/// the host does. Once an exit action has run nothing changes any more. A
/// hotkey event runs its shortcut unless the shortcut is cooling down; a
/// pointer event changes nothing.
pub open spec fn step(state: EngineState, event: Event, now: u64) -> (EngineState, Reaction) {
    match event {
        Event::Hotkey { index } => if state.exited || index >= state.table.len()
            || !state.table[index as int].ready(now) {
            (state, Reaction::Dropped)
        } else {
            (
                run(state, index as int, now),
                Reaction::Ran(effect_of(state.table[index as int].action)),
            )
        },
        Event::Pointer { message, data, modifiers } => if state.exited {
            (state, Reaction::Pass)
        } else {
            (state, pointer_reaction(state.table, message, data, modifiers))
        },
    }
}

/// The table's actions are valid, its indices can be held, and the factor is
/// 1.0 or more.
pub open spec fn wf_state(state: EngineState) -> bool {
    &&& valid_table(state.table)
    &&& state.table.len() <= usize::MAX
    &&& UNIT <= state.factor <= i64::MAX
}

/// The state after each of `events` was handled at its time, in order.
pub open spec fn run_all(state: EngineState, events: Seq<(Event, u64)>) -> EngineState
    decreases events.len(),
{
    if events.len() == 0 {
        state
    } else {
        step(run_all(state, events.drop_last()), events.last().0, events.last().1).0
    }
}

/// A step keeps a well-formed state well formed: the factor never falls
/// below 1.0.
pub proof fn lemma_step_keeps_wf(state: EngineState, event: Event, now: u64)
    requires
        wf_state(state),
    ensures
        wf_state(step(state, event, now).0),
{
    if let Event::Hotkey { index } = event {
        if index < state.table.len() {
            let shortcut = state.table[index as int];
            lemma_applied_in_range(state.factor, shortcut.action);
            let table = run(state, index as int, now).table;
            assert forall|i: int| 0 <= i < table.len() implies (#[trigger] table[i]).action.valid() by {
                assert(state.table[i].action.valid());
            }
        }
    }
}

/// Exit precedence: once an exit action has run, no event changes the state
/// any more, and none is answered with more than `Pass` or `Dropped`.
pub proof fn lemma_exit_is_final(state: EngineState, events: Seq<(Event, u64)>)
    requires
        state.exited,
    ensures
        run_all(state, events) == state,
        forall|i: int|
            0 <= i < events.len() ==> {
                let (after, reaction) = #[trigger] step(state, events[i].0, events[i].1);
                after == state && (reaction == Reaction::Pass || reaction == Reaction::Dropped)
            },
    decreases events.len(),
{
    if events.len() > 0 {
        lemma_exit_is_final(state, events.drop_last());
    }
}

/// The step that runs an exit action leaves the engine stopped: whatever is
/// still queued changes nothing.
pub proof fn lemma_exit_precedence(
    state: EngineState,
    event: Event,
    now: u64,
    queued: Seq<(Event, u64)>,
)
    requires
        step(state, event, now).1 == Reaction::Ran(Effect::Exit),
    ensures
        step(state, event, now).0.exited,
        step(state, event, now).0.factor == state.factor,
        run_all(step(state, event, now).0, queued) == step(state, event, now).0,
{
    lemma_exit_is_final(step(state, event, now).0, queued);
}

/// The cool-down gate: after the shortcut at `index` ran at `first`, a
/// trigger at `second` is dropped and changes nothing while less than the
/// cool-down time has passed, and runs the shortcut again once it has.
pub proof fn lemma_cooldown_gate(state: EngineState, index: usize, first: u64, second: u64)
    requires
        index < state.table.len(),
        step(state, Event::Hotkey { index }, first).1 == Reaction::Ran(Effect::Recompute),
        first <= second,
    ensures
        ({
            let after = step(state, Event::Hotkey { index }, first).0;
            let again = step(after, Event::Hotkey { index }, second);
            if second - first < state.table[index as int].cooltime {
                again == (after, Reaction::Dropped)
            } else {
                again.1 == Reaction::Ran(Effect::Recompute)
            }
        }),
{
}

/// `k` is the least index of `table` whose shortcut has `combination`.
pub open spec fn is_first(table: Seq<Shortcut>, combination: Combination, k: int) -> bool {
    &&& 0 <= k < table.len()
    &&& table[k].combination == combination
    &&& forall|j: int| 0 <= j < k ==> (#[trigger] table[j]).combination != combination
}

/// First match wins. A running engine answers a pointer event about a
/// button, whatever the time, by its combination alone: if shortcuts of the
/// table have it, a press (or a turn of the wheel) triggers the one with the
/// least index and no other, and a release is consumed; if none has it, the
/// event passes. The state stays as it is.
pub proof fn lemma_first_match_wins(
    state: EngineState,
    message: PointerMessage,
    data: u32,
    modifiers: Modifiers,
    now: u64,
)
    requires
        wf_state(state),
        !state.exited,
        decode(message, data) is Some,
    ensures
        ({
            let (button, extra, down) = decode(message, data)->0;
            let combination = Combination::Button { modifiers, button, extra };
            let (after, reaction) = step(state, Event::Pointer { message, data, modifiers }, now);
            &&& after == state
            &&& reaction matches Reaction::Trigger(k) ==> down && is_first(
                state.table,
                combination,
                k as int,
            )
            &&& reaction == Reaction::Swallow ==> !down && exists|k: int|
                is_first(state.table, combination, k)
            &&& reaction == Reaction::Pass ==> forall|i: int|
                0 <= i < state.table.len() ==> (#[trigger] state.table[i]).combination
                    != combination
            &&& reaction is Trigger || reaction == Reaction::Swallow || reaction == Reaction::Pass
        }),
{
    let (button, extra, down) = decode(message, data)->0;
    let combination = Combination::Button { modifiers, button, extra };
    lemma_first_match(state.table, combination);
    if let Some(k) = first_match(state.table, combination) {
        assert(is_first(state.table, combination, k));
    }
}

impl View for Engine {
    type V = EngineState;

    closed spec fn view(&self) -> EngineState {
        EngineState { table: self.config@, factor: self.magnifier@, exited: self.exited }
    }
}

impl Engine {
    /// The engine's state is well formed.
    pub open spec fn wf(&self) -> bool {
        wf_state(self@)
    }

    /// The engine over the table `config`, unmagnified and running.
    pub fn new(config: Config) -> (engine: Engine)
        requires
            config.wf(),
        ensures
            engine@ == (EngineState { table: config@, factor: UNIT as int, exited: false }),
            engine.wf(),
    {
        Engine { config, magnifier: Magnifier::new(), exited: false }
    }

    /// The shortcut table.
    pub fn config(&self) -> (config: &Config)
        ensures
            config@ == self@.table,
    {
        &self.config
    }

    /// The zoom state.
    pub fn magnifier(&self) -> (magnifier: &Magnifier)
        ensures
            magnifier@ == self@.factor,
    {
        &self.magnifier
    }

    /// Whether an exit action has run.
    pub fn exited(&self) -> (exited: bool)
        ensures
            exited == self@.exited,
    {
        self.exited
    }

    /// Takes one step: handles `event` at time `now`, in milliseconds.
    pub fn dispatch(&mut self, event: Event, now: u64) -> (reaction: Reaction)
        requires
            old(self).wf(),
            event matches Event::Hotkey { index } ==> index < old(self)@.table.len(),
        ensures
            (final(self)@, reaction) == step(old(self)@, event, now),
            final(self).wf(),
            reaction matches Reaction::Trigger(index) ==> index < final(self)@.table.len(),
    {
        match event {
            Event::Hotkey { index } => self.hotkey(index, now),
            Event::Pointer { message, data, modifiers } => self.pointer(message, data, modifiers),
        }
    }

    /// Handles a hotkey event: runs the shortcut at `index` unless it is
    /// cooling down at `now`.
    fn hotkey(&mut self, index: usize, now: u64) -> (reaction: Reaction)
        requires
            old(self).wf(),
            index < old(self)@.table.len(),
        ensures
            (final(self)@, reaction) == step(old(self)@, Event::Hotkey { index }, now),
            final(self).wf(),
    {
        if self.exited {
            return Reaction::Dropped;
        }
        let shortcut = self.config.get(index);
        let elapsed: u64 = if now >= shortcut.last_run {
            now - shortcut.last_run
        } else {
            0
        };
        if elapsed < shortcut.cooltime {
            return Reaction::Dropped;
        }
        self.config.mark_run(index, now);
        let effect = self.magnifier.do_action(&shortcut.action);
        self.exited = match effect {
            Effect::Exit => true,
            Effect::Recompute => false,
        };
        Reaction::Ran(effect)
    }

    /// Handles a pointer event.
    fn pointer(&self, message: PointerMessage, data: u32, modifiers: Modifiers) -> (reaction:
        Reaction)
        ensures
            reaction == step(self@, Event::Pointer { message, data, modifiers }, 0).1,
            reaction matches Reaction::Trigger(index) ==> index < self@.table.len(),
    {
        if self.exited {
            return Reaction::Pass;
        }
        let (button, extra, down) = match message {
            PointerMessage::Move => {
                return Reaction::Follow;
            },
            PointerMessage::Other => {
                return Reaction::Pass;
            },
            PointerMessage::LeftDown => (Button::Left, 0i32, true),
            PointerMessage::LeftUp => (Button::Left, 0i32, false),
            PointerMessage::MiddleDown => (Button::Middle, 0i32, true),
            PointerMessage::MiddleUp => (Button::Middle, 0i32, false),
            PointerMessage::RightDown => (Button::Right, 0i32, true),
            PointerMessage::RightUp => (Button::Right, 0i32, false),
            PointerMessage::Wheel => (Button::WheelVertical, wheel_bit(data), true),
            PointerMessage::WheelHorizontal => (Button::WheelHorizontal, wheel_bit(data), true),
            PointerMessage::SideDown => (Button::Side, side_bit(data), true),
            PointerMessage::SideUp => (Button::Side, side_bit(data), false),
        };
        proof {
            lemma_first_match(self@.table, Combination::Button { modifiers, button, extra });
        }
        match self.config.find(&Combination::Button { modifiers, button, extra }) {
            Some(i) => if down {
                Reaction::Trigger(i)
            } else {
                Reaction::Swallow
            },
            None => Reaction::Pass,
        }
    }
}

fn wheel_bit(data: u32) -> (extra: i32)
    ensures
        extra == wheel_extra(data),
{
    if data >= 0x8000_0000 {
        1
    } else {
        0
    }
}

fn side_bit(data: u32) -> (extra: i32)
    ensures
        extra == side_extra(data),
{
    if data / 0x1_0000 == SECOND_SIDE_BUTTON {
        1
    } else {
        0
    }
}

} // verus!
