//! The simulation control strip: the decisions behind the step, step-back,
//! reset, run and pause controls, separated from any rendering so that a
//! front end only forwards events.

use vstd::prelude::*;

use crate::common::SimError;
use crate::simulator::{
    eval_from, init_state, init_storage, sim_wf, spec_clock, spec_pass, spec_un_clock, EvalOut,
    Simulator,
};

verus! {

/// One control event from the strip.
#[derive(PartialEq, Eq, Structural, Clone, Copy)]
pub enum MenuEvent {
    Reset,
    StepBack,
    Step,
    Play,
    Pause,
}

/// The control state of the simulation menu: whether free running is
/// paused.
pub struct Menu {
    pub pause: bool,
}

impl Menu {
    /// A fresh control strip; simulation starts paused.
    pub fn new() -> (m: Menu)
        ensures
            m.pause,
    {
        Menu { pause: true }
    }

    /// Applies one control event: `Reset` rebuilds cycle 0 and pauses,
    /// `StepBack` undoes one cycle, `Step` advances one cycle, `Play` and
    /// `Pause` only switch the running flag.  Step errors are the
    /// simulator's own and leave it unchanged.
    pub fn control(&mut self, sim: &mut Simulator, e: MenuEvent) -> (r: Result<(), SimError>)
        requires
            sim_wf(old(sim)@),
        ensures
            sim_wf(final(sim)@),
            match e {
                MenuEvent::Reset => {
                    &&& r is Ok
                    &&& final(self).pause
                    &&& final(sim)@.store == old(sim)@.store
                    &&& final(sim)@.base == old(sim)@.base
                    &&& final(sim)@.resolved == old(sim)@.resolved
                    &&& final(sim)@.order == old(sim)@.order
                    &&& final(sim)@.history.len() == 0
                    &&& (EvalOut::Done {
                        state: final(sim)@.state,
                        storage: final(sim)@.storage,
                    }) == eval_from(
                        old(sim)@.store,
                        old(sim)@.base,
                        old(sim)@.resolved,
                        old(sim)@.order,
                        0,
                        init_state(old(sim)@.store),
                        init_state(old(sim)@.store),
                        init_storage(old(sim)@.store),
                    )
                },
                MenuEvent::StepBack => final(self).pause == old(self).pause && match r {
                    Ok(()) => spec_un_clock(old(sim)@) == Some(final(sim)@),
                    Err(e) => {
                        &&& final(sim)@ == old(sim)@
                        &&& e is HistoryUnderflow
                        &&& old(sim)@.history.len() == 0
                    },
                },
                MenuEvent::Step => final(self).pause == old(self).pause && match r {
                    Ok(()) => spec_clock(old(sim)@) == Some(final(sim)@),
                    Err(e) => {
                        &&& final(sim)@ == old(sim)@
                        &&& spec_clock(old(sim)@) is None
                        &&& e matches SimError::IndexError { id, value } && spec_pass(old(sim)@)
                            == (EvalOut::Fault { id: id@, value })
                    },
                },
                MenuEvent::Play => r is Ok && !final(self).pause && final(sim)@ == old(sim)@,
                MenuEvent::Pause => r is Ok && final(self).pause && final(sim)@ == old(sim)@,
            },
    {
        match e {
            MenuEvent::Reset => {
                sim.reset();
                self.pause = true;
                Ok(())
            },
            MenuEvent::StepBack => sim.un_clock(),
            MenuEvent::Step => sim.clock(),
            MenuEvent::Play => {
                self.pause = false;
                Ok(())
            },
            MenuEvent::Pause => {
                self.pause = true;
                Ok(())
            },
        }
    }
}

} // verus!
