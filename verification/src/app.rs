//! The decision core of the application loop: terminal-size tracking, the
//! `Running`/`Terminated` state machine, and how each event updates the tab
//! selection.

use vstd::prelude::*;
use crate::tabs::{MyTabs, next_sel, prev_sel};
use crate::events::{Event, EventQueue, Key};

verus! {

broadcast use vstd::seq_lib::lemma_seq_skip_len, vstd::seq_lib::lemma_seq_skip_index, vstd::seq_lib::lemma_seq_skip_of_skip;

/// The terminal extent sampled once per loop iteration, in character cells.
#[derive(Clone, Copy, PartialEq, Eq, Structural, Debug)]
pub struct TermSize {
    pub width: u16,
    pub height: u16,
}

/// Whether the application loop keeps running.
#[derive(Clone, Copy, PartialEq, Eq, Structural, Debug)]
pub enum LoopState {
    Running,
    Terminated,
}

/// The state the application loop owns: last known terminal size, the tab
/// set, and whether the loop is still running.
pub struct App<'a> {
    pub size: TermSize,
    pub tabs: MyTabs<'a>,
    pub state: LoopState,
}

/// The quit key ends the loop.
pub open spec fn is_quit(e: Event) -> bool {
    e == Event::KeyPress(Key::Char('q'))
}

/// How one event moves the tab selection: Left steps back, Right steps
/// forward, everything else leaves it alone.
pub open spec fn step_sel(sel: int, len: int, e: Event) -> int {
    match e {
        Event::KeyPress(Key::Left) => prev_sel(sel, len),
        Event::KeyPress(Key::Right) => next_sel(sel, len),
        _ => sel,
    }
}

/// The result of feeding a sequence of events to a running loop, front first:
/// the final selection, whether the loop is still running, and how many
/// events it consumed (it stops at the first quit key and consumes nothing
/// after it).
pub open spec fn run_result(sel: int, len: int, events: Seq<Event>) -> (int, bool, nat)
    decreases events.len(),
{
    if events.len() == 0 {
        (sel, true, 0)
    } else if is_quit(events[0]) {
        (sel, false, 1nat)
    } else {
        let rest = run_result(step_sel(sel, len, events[0]), len, events.drop_first());
        (rest.0, rest.1, (rest.2 + 1) as nat)
    }
}

impl<'a> App<'a> {
    pub open spec fn wf(self) -> bool {
        self.tabs.wf()
    }

    /// Record a freshly sampled terminal size; reports whether it changed,
    /// which forces a full layout recompute.
    pub fn update_size(&mut self, width: u16, height: u16) -> (changed: bool)
        ensures
            final(self).size == (TermSize { width, height }),
            final(self).tabs == old(self).tabs,
            final(self).state == old(self).state,
            changed == (old(self).size != (TermSize { width, height })),
    {
        let new_size = TermSize { width, height };
        let changed = self.size.width != width || self.size.height != height;
        self.size = new_size;
        changed
    }

    /// Consume one event: quit terminates the loop, Left/Right move the tab
    /// selection with wraparound, any other key or a tick changes nothing.
    pub fn handle_event(&mut self, e: Event)
        requires
            old(self).wf(),
            old(self).state == LoopState::Running,
        ensures
            final(self).wf(),
            final(self).tabs.titles == old(self).tabs.titles,
            final(self).size == old(self).size,
            final(self).tabs.selection == step_sel(
                old(self).tabs.selection as int,
                old(self).tabs.titles@.len() as int,
                e,
            ),
            final(self).state == (if is_quit(e) {
                LoopState::Terminated
            } else {
                LoopState::Running
            }),
    {
        match e {
            Event::KeyPress(k) => {
                match k {
                    Key::Char(c) => {
                        if c == 'q' {
                            self.state = LoopState::Terminated;
                        }
                    },
                    Key::Left => {
                        self.tabs.previous();
                    },
                    Key::Right => {
                        self.tabs.next();
                    },
                    _ => {},
                }
            },
            Event::Tick => {},
        }
    }
}

/// Feed queued events, front first, to a running application until the quit
/// key terminates it or the queue runs dry, exactly as the application loop
/// consumes them between renders. Returns how many events were consumed;
/// events after the quit key stay in the queue.
pub fn drain_events<'a>(app: &mut App<'a>, q: &mut EventQueue) -> (consumed: usize)
    requires
        old(app).wf(),
        old(app).state == LoopState::Running,
    ensures
        final(app).wf(),
        final(app).tabs.titles == old(app).tabs.titles,
        final(app).size == old(app).size,
        ({
            let r = run_result(
                old(app).tabs.selection as int,
                old(app).tabs.titles@.len() as int,
                old(q)@,
            );
            &&& final(app).tabs.selection == r.0
            &&& (final(app).state == LoopState::Running) == r.1
            &&& consumed == r.2
            &&& final(q)@ == old(q)@.skip(consumed as int)
        }),
{
    let ghost sel0: int = app.tabs.selection as int;
    let ghost len0: int = app.tabs.titles@.len() as int;
    let ghost ev0: Seq<Event> = q@;
    let ghost size0 = app.size;
    let ghost titles0 = app.tabs.titles;
    let total: usize = q.len();
    let mut consumed: usize = 0;
    while app.state == LoopState::Running && q.len() > 0
        invariant
            app.wf(),
            app.tabs.titles == titles0,
            app.size == size0,
            len0 == titles0@.len() as int,
            ev0.len() == total as int,
            consumed + q@.len() == total,
            q@ == ev0.skip(consumed as int),
            app.state == LoopState::Running ==> ({
                let r = run_result(app.tabs.selection as int, len0, q@);
                run_result(sel0, len0, ev0) == (r.0, r.1, (r.2 + consumed) as nat)
            }),
            app.state != LoopState::Running ==> run_result(sel0, len0, ev0) == (
                app.tabs.selection as int,
                false,
                consumed as nat,
            ),
        decreases q@.len(),
    {
        let ghost qpre = q@;
        let ghost selpre: int = app.tabs.selection as int;
        let e = q.pop().unwrap();
        consumed = consumed + 1;
        app.handle_event(e);
        proof {
            assert(qpre == ev0.skip(consumed - 1));
            assert(q@ =~= qpre.skip(1));
            vstd::seq_lib::lemma_seq_skip_of_skip(ev0, consumed - 1, 1);
            assert(q@ =~= ev0.skip(consumed as int));
            assert(run_result(selpre, len0, qpre) == (if is_quit(e) {
                (selpre, false, 1nat)
            } else {
                let rest = run_result(step_sel(selpre, len0, e), len0, qpre.drop_first());
                (rest.0, rest.1, (rest.2 + 1) as nat)
            }));
            if app.state == LoopState::Running {
                let rest = run_result(app.tabs.selection as int, len0, q@);
                assert(run_result(selpre, len0, qpre) == (rest.0, rest.1, (rest.2 + 1) as nat));
            }
        }
    }
    proof {
        if app.state == LoopState::Running {
            assert(q@.len() == 0);
            assert(run_result(app.tabs.selection as int, len0, q@) == (
                app.tabs.selection as int,
                true,
                0nat,
            ));
        }
        assert(q@ =~= ev0.skip(consumed as int));
    }
    consumed
}

} // verus!
