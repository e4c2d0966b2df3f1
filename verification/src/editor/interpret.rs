//! Drive the [`Sim`] editor over a keystroke stream and report the result.
use vstd::prelude::*;
use super::sim::{keys_spec, text_spec, Sim, SimV};
use super::{event_view, events_view, Behaviors, EditorState, Event, EventV};
use crate::text::{chars_of, string_of};

verus! {

/// The model state after one event: the editor state and the offset `%0`
/// last landed on.
pub open spec fn step_spec(acc: (SimV, Option<int>), b: Behaviors, ev: EventV) -> (SimV, Option<int>) {
    match ev {
        EventV::Mark(n) => if n == 0 {
            (acc.0, Some(acc.0.cursor))
        } else {
            acc
        },
        EventV::Text(s) => (text_spec(acc.0, b, s), acc.1),
        EventV::Key(k, n) => (keys_spec(acc.0, b, k, n as nat), acc.1),
    }
}

/// The model state after a whole event stream, from an empty buffer.
pub open spec fn run_spec(evs: Seq<EventV>, b: Behaviors) -> (SimV, Option<int>)
    decreases evs.len(),
{
    if evs.len() == 0 {
        (SimV { buffer: Seq::empty(), cursor: 0 }, None)
    } else {
        step_spec(run_spec(evs.drop_last(), b), b, evs.last())
    }
}

/// An optional offset as an optional integer.
pub open spec fn opt_int(o: Option<usize>) -> Option<int> {
    match o {
        Some(x) => Some(x as int),
        None => None,
    }
}

/// Fold one event into the simulation, recording where `%0` lands.
fn apply_event(sim: &mut Sim, ev: &Event, target: &mut Option<usize>)
    requires
        old(sim).wf(),
    ensures
        final(sim).wf(),
        final(sim).behaviors == old(sim).behaviors,
        (final(sim).view(), opt_int(*final(target))) == step_spec(
            (old(sim).view(), opt_int(*old(target))),
            old(sim).behaviors,
            event_view(*ev),
        ),
{
    match ev {
        Event::Mark(n) => {
            if *n == 0 {
                *target = Some(sim.cursor);
            }
        },
        Event::Text(s) => {
            let cs = chars_of(s.as_str());
            let ghost st0 = sim.view();
            let mut i: usize = 0;
            assert(cs@.take(0) == Seq::<char>::empty());
            while i < cs.len()
                invariant
                    i <= cs@.len(),
                    sim.wf(),
                    sim.behaviors == old(sim).behaviors,
                    sim.view() == text_spec(st0, sim.behaviors, cs@.take(i as int)),
                decreases cs.len() - i,
            {
                sim.type_char(cs[i]);
                i = i + 1;
                assert(cs@.take(i as int).drop_last() == cs@.take((i - 1) as int));
            }
            assert(cs@.take(i as int) == cs@);
        },
        Event::Key { key, n } => {
            let ghost st0 = sim.view();
            let mut i: usize = 0;
            while i < *n
                invariant
                    i <= *n,
                    sim.wf(),
                    sim.behaviors == old(sim).behaviors,
                    sim.view() == keys_spec(st0, sim.behaviors, *key, i as nat),
                decreases *n - i,
            {
                sim.apply_key(*key);
                i = i + 1;
            }
        },
    }
}

/// Run a keystroke stream through an editor with the given behaviors.
pub fn interpret(events: &[Event], b: Behaviors) -> (r: EditorState)
    ensures
        r.buffer@ == run_spec(events_view(events@), b).0.buffer,
        r.rest == run_spec(events_view(events@), b).0.cursor,
        opt_int(r.target) == run_spec(events_view(events@), b).1,
{
    let mut sim = Sim::new(b);
    let mut target: Option<usize> = None;
    let mut i: usize = 0;
    while i < events.len()
        invariant
            i <= events@.len(),
            sim.wf(),
            sim.behaviors == b,
            (sim.view(), opt_int(target)) == run_spec(events_view(events@.take(i as int)), b),
        decreases events.len() - i,
    {
        proof {
            assert(events_view(events@.take(i + 1)).drop_last() == events_view(events@.take(i as int)));
            assert(events_view(events@.take(i + 1)).last() == event_view(events@[i as int]));
        }
        apply_event(&mut sim, &events[i], &mut target);
        i = i + 1;
    }
    assert(events@.take(i as int) == events@);
    EditorState { buffer: string_of(sim.buffer.as_slice()), rest: sim.cursor, target }
}

} // verus!
