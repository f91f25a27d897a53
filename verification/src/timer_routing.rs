//! The timer interrupt router: on every tick, the active modes say which
//! subsystems get the tick.  Work the library cannot do, like stepping the
//! game, comes back to the caller as a flag.

use vstd::prelude::*;

verus! {

/// Which consumers the timer tick feeds.
pub struct Modes {
    pub terminal: bool,
    pub tetris: bool,
    pub beep: bool,
    pub song: bool,
    pub vim: bool,
}

impl Modes {
    pub fn new() -> (r: Modes)
        ensures
            r.terminal == true,
            r.tetris == false,
            r.beep == false,
            r.song == false,
            r.vim == false,
    {
        Modes { terminal: true, tetris: false, beep: false, song: false, vim: false }
    }
}

/// What a tick asks of the caller: whether the game loop is due, whether
/// the text cursor must blink, whether the editor cursor must blink, and
/// the divisor to program when a sound changes.
pub struct TickOutcome {
    pub run_tetris: bool,
    pub blink_text: bool,
    pub blink_editor: bool,
    pub sound: Option<i32>,
}

/// The router itself: only the mode flags.
pub struct TimeRouter {
    pub mode: Modes,
}

impl TimeRouter {
    pub fn new() -> (r: TimeRouter)
        ensures
            r.mode.terminal == true,
            r.mode.tetris == false,
            r.mode.beep == false,
            r.mode.song == false,
            r.mode.vim == false,
    {
        TimeRouter { mode: Modes::new() }
    }

    /// One timer tick: the terminal blink timer and seed advance in
    /// terminal mode, the beep timer in beep mode, the song in song mode,
    /// the editor blink timer in editor mode; the game tick is handed
    /// back.
    pub fn handle(
        &mut self,
        mc: &mut crate::vga_buffer::ModeController,
        seed: &mut crate::rng::RngSeed,
        sp: &mut crate::speaker::PcSpeaker,
        kmodes: &mut crate::keyboard_routing::Modes,
        vim: &mut crate::vi::FakeVim,
    ) -> (r: TickOutcome)
        requires
            old(vim).wf(),
        ensures
            final(vim).wf(),
            r.run_tetris == old(self).mode.tetris,
            final(self).mode.tetris == old(self).mode.tetris,
            final(self).mode.vim == old(self).mode.vim,
            r.blink_text == (old(self).mode.terminal && old(mc).blink_timer == 0),
            !old(self).mode.terminal ==> *final(mc) == *old(mc) && *final(seed) == *old(seed),
            old(self).mode.terminal ==> final(seed).times == (if old(seed).times < u64::MAX {
                (old(seed).times + 1) as u64
            } else {
                0u64
            }) && final(mc).text == old(mc).text && final(mc).blink_timer == (if old(
                mc,
            ).blink_timer == 0 {
                4usize
            } else {
                (old(mc).blink_timer - 1) as usize
            }),
            !old(self).mode.beep && !old(self).mode.song ==> *final(sp) == *old(sp),
            old(self).mode.beep ==> ({
                let stopped = old(sp).timer >= i32::MAX || old(sp).timer + 1 >= old(
                    sp,
                ).timer_limit;
                &&& final(sp).timer_done == (stopped || old(sp).timer_done)
                &&& (old(self).mode.song || final(self).mode.beep == !stopped)
            }),
            !old(self).mode.song ==> r.sound is None,
            r.blink_editor ==> old(self).mode.vim,
            !old(self).mode.vim ==> *final(vim) == *old(vim),
    {
        let mut outcome = TickOutcome {
            run_tetris: self.mode.tetris,
            blink_text: false,
            blink_editor: false,
            sound: None,
        };
        if self.mode.terminal {
            outcome.blink_text = mc.blink_current();
            seed.inc();
        }
        if self.mode.beep {
            sp.inc_timer(&mut self.mode);
        }
        if self.mode.song {
            outcome.sound = sp.song_loop(&mut self.mode, kmodes);
        }
        if self.mode.vim {
            outcome.blink_editor = vim.blink_cursor();
        }
        outcome
    }
}

} // verus!
