//! The PC speaker state machine: beep timers and the song loop.  The
//! library decides what to play; writing the tone ports is the caller's
//! business, so every sound decision comes back as the divisor to program,
//! or nothing when the speaker is to stay as it is.

use vstd::prelude::*;
use crate::timer_routing::Modes;
use crate::keyboard_routing::Modes as KeyModes;

verus! {

/// Frequency of the interval timer the divisor is taken from.
pub const PIT_HZ: i32 = 1193180;

/// The note the song plays at a tick, or nothing.  A zero frequency is a
/// rest.
pub open spec fn tet_note(t: i32) -> Option<i32> {
    if t == 3 || t == 39 || t == 69 || t == 126 || t == 138 || t == 168 {
        Some(659)
    } else if t == 9 || t == 24 || t == 51 || t == 57 || t == 150 || t == 156 {
        Some(493)
    } else if t == 12 || t == 21 || t == 36 || t == 45 || t == 75 || t == 135 || t == 147 || t == 159
        || t == 174 {
        Some(523)
    } else if t == 15 || t == 48 || t == 63 || t == 105 || t == 144 || t == 162 {
        Some(587)
    } else if t == 27 || t == 33 || t == 81 || t == 87 || t == 180 || t == 186 || t == 364 || t == 370 {
        Some(440)
    } else if t == 93 || t == 192 || t == 394 {
        Some(0)
    } else if t == 111 || t == 123 {
        Some(698)
    } else if t == 114 {
        Some(880)
    } else if t == 120 {
        Some(783)
    } else if t == 198 || t == 304 || t == 358 {
        Some(329)
    } else if t == 210 || t == 246 || t == 316 || t == 352 {
        Some(261)
    } else if t == 222 || t == 328 {
        Some(293)
    } else if t == 234 || t == 292 || t == 340 {
        Some(246)
    } else if t == 268 {
        Some(220)
    } else if t == 280 {
        Some(207)
    } else if t == 376 {
        Some(415)
    } else {
        None
    }
}

/// The speaker state: beep timer, song position and the last divisor.
pub struct PcSpeaker {
    pub timer: i32,
    pub current_run: i32,
    pub total_runs: i32,
    pub timer_limit: i32,
    pub timer_done: bool,
    pub div: i32,
}

impl PcSpeaker {
    pub fn new() -> (r: PcSpeaker)
        ensures
            r.timer == 0,
            r.current_run == 1,
            r.total_runs == 1,
            r.timer_limit == 0,
            r.timer_done == false,
            r.div == 0,
    {
        PcSpeaker { timer: 0, current_run: 1, total_runs: 1, timer_limit: 0, timer_done: false, div: 0 }
    }

    /// Works out the timer divisor for a frequency; a zero frequency asks
    /// only for silence.
    pub fn play_sound(&mut self, frequence: i32) -> (r: Option<i32>)
        ensures
            frequence == 0 ==> r is None && *final(self) == *old(self),
            frequence != 0 ==> r == Some(final(self).div) && *final(self) == (PcSpeaker {
                div: final(self).div,
                ..*old(self)
            }),
            frequence > 0 ==> final(self).div == PIT_HZ / frequence,
    {
        if frequence == 0 {
            return None;
        }
        proof {
            assert(frequence != 0);
        }
        self.div = PIT_HZ / frequence;
        Some(self.div)
    }

    /// Starts the song from the top, counting the run.
    pub fn start_song_loop(&mut self, repeat: i32, tmodes: &mut Modes, kmodes: &mut KeyModes)
        ensures
            final(self).timer == 0,
            final(self).total_runs == repeat,
            final(self).current_run == if old(self).current_run < i32::MAX {
                old(self).current_run + 1
            } else {
                i32::MAX as int
            },
            final(self).timer_limit == old(self).timer_limit,
            final(self).timer_done == old(self).timer_done,
            final(self).div == old(self).div,
            *final(tmodes) == (Modes { terminal: false, song: true, ..*old(tmodes) }),
            *final(kmodes) == (KeyModes { song: true, ..*old(kmodes) }),
    {
        self.timer = 0;
        if self.current_run < i32::MAX {
            self.current_run = self.current_run + 1;
        }
        self.total_runs = repeat;
        tmodes.terminal = false;
        tmodes.song = true;
        kmodes.song = true;
    }

    /// One tick of the song: the position advances and the note due at it,
    /// if any, comes back as a divisor to program; past the last tick the
    /// song ends or repeats.
    pub fn song_loop(&mut self, tmodes: &mut Modes, kmodes: &mut KeyModes) -> (r: Option<i32>)
        ensures
            final(self).timer_limit == old(self).timer_limit,
            final(self).timer_done == old(self).timer_done,
            final(tmodes).vim == old(tmodes).vim,
            final(tmodes).tetris == old(tmodes).tetris,
            final(tmodes).beep == old(tmodes).beep,
    {
        if self.timer < i32::MAX {
            self.timer = self.timer + 1;
        }
        self.tet_ost(tmodes, kmodes)
    }

    /// Ends the song loop, or starts the next run when more repeats are
    /// owed and the stop was not forced.
    pub fn stop_song_loop(&mut self, force: bool, tmodes: &mut Modes, kmodes: &mut KeyModes)
        ensures
            force ==> final(self).current_run == 0 && *final(tmodes) == (Modes {
                terminal: true,
                song: false,
                ..*old(tmodes)
            }) && *final(kmodes) == (KeyModes { song: false, ..*old(kmodes) }),
            final(self).timer_limit == old(self).timer_limit,
            final(self).timer_done == old(self).timer_done,
            final(tmodes).vim == old(tmodes).vim,
            final(tmodes).tetris == old(tmodes).tetris,
            final(tmodes).beep == old(tmodes).beep,
    {
        tmodes.terminal = true;
        tmodes.song = false;
        kmodes.song = false;
        if force {
            self.current_run = 0;
        } else if self.total_runs == 0 || self.current_run < self.total_runs {
            self.start_song_loop(self.total_runs, tmodes, kmodes);
        } else {
            self.current_run = 0;
        }
    }

    /// Arms the beep timer.
    pub fn start_timer(&mut self, limit: i32, tmodes: &mut Modes)
        ensures
            *final(self) == (PcSpeaker {
                timer: 0,
                timer_limit: limit,
                timer_done: false,
                ..*old(self)
            }),
            *final(tmodes) == (Modes { terminal: false, beep: true, ..*old(tmodes) }),
    {
        self.timer = 0;
        self.timer_limit = limit;
        self.timer_done = false;
        tmodes.terminal = false;
        tmodes.beep = true;
    }

    /// One tick of the beep timer; at the limit the beep ends and the
    /// caller must silence the speaker, which the result reports.
    pub fn inc_timer(&mut self, tmodes: &mut Modes) -> (stopped: bool)
        ensures
            stopped == (old(self).timer >= i32::MAX || old(self).timer + 1 >= old(self).timer_limit),
            final(self).timer_done == (stopped || old(self).timer_done),
            !stopped ==> final(self).timer == old(self).timer + 1 && *final(tmodes) == *old(
                tmodes,
            ),
            stopped ==> *final(tmodes) == (Modes { terminal: true, beep: false, ..*old(tmodes) }),
    {
        if self.timer < i32::MAX {
            self.timer = self.timer + 1;
        }
        if self.timer >= self.timer_limit || self.timer == i32::MAX {
            self.stop_timer(tmodes);
            true
        } else {
            false
        }
    }

    /// Disarms the beep timer.
    pub fn stop_timer(&mut self, tmodes: &mut Modes)
        ensures
            final(self).timer_done == true,
            final(self).timer == old(self).timer,
            final(self).timer_limit == old(self).timer_limit,
            *final(tmodes) == (Modes { terminal: true, beep: false, ..*old(tmodes) }),
    {
        tmodes.terminal = true;
        tmodes.beep = false;
        self.timer_done = true;
    }

    /// The note table of the song: at a note tick the divisor for its
    /// frequency comes back; past the last tick the loop ends or repeats.
    pub fn tet_ost(&mut self, tmodes: &mut Modes, kmodes: &mut KeyModes) -> (r: Option<i32>)
        ensures
            match tet_note(old(self).timer) {
                Some(f) => (f == 0 ==> r is None) && (f > 0 ==> (r matches Some(d) && d == PIT_HZ
                    / f)),
                None => r is None,
            },
            final(self).timer_limit == old(self).timer_limit,
            final(self).timer_done == old(self).timer_done,
            final(tmodes).vim == old(tmodes).vim,
            final(tmodes).tetris == old(tmodes).tetris,
            final(tmodes).beep == old(tmodes).beep,
    {
        let t = self.timer;
        let f: i32;
        if t == 3 || t == 39 || t == 69 || t == 126 || t == 138 || t == 168 {
            f = 659;
        } else if t == 9 || t == 24 || t == 51 || t == 57 || t == 150 || t == 156 {
            f = 493;
        } else if t == 12 || t == 21 || t == 36 || t == 45 || t == 75 || t == 135 || t == 147 || t
            == 159 || t == 174 {
            f = 523;
        } else if t == 15 || t == 48 || t == 63 || t == 105 || t == 144 || t == 162 {
            f = 587;
        } else if t == 27 || t == 33 || t == 81 || t == 87 || t == 180 || t == 186 || t == 364 || t
            == 370 {
            f = 440;
        } else if t == 93 || t == 192 || t == 394 {
            f = 0;
        } else if t == 111 || t == 123 {
            f = 698;
        } else if t == 114 {
            f = 880;
        } else if t == 120 {
            f = 783;
        } else if t == 198 || t == 304 || t == 358 {
            f = 329;
        } else if t == 210 || t == 246 || t == 316 || t == 352 {
            f = 261;
        } else if t == 222 || t == 328 {
            f = 293;
        } else if t == 234 || t == 292 || t == 340 {
            f = 246;
        } else if t == 268 {
            f = 220;
        } else if t == 280 {
            f = 207;
        } else if t == 376 {
            f = 415;
        } else {
            if t == 400 {
                self.stop_song_loop(false, tmodes, kmodes);
            }
            return None;
        }
        self.play_sound(f)
    }
}

/// A plain beep: program the returned divisor, then let the timer stop it.
pub fn beep(sp: &mut PcSpeaker, tmodes: &mut Modes, freq: i32, len: i32) -> (r: Option<i32>)
    ensures
        final(sp).timer == 0,
        final(sp).timer_limit == len,
        freq > 0 ==> (r matches Some(d) && d == PIT_HZ / freq),
        freq == 0 ==> r is None,
{
    let r = sp.play_sound(freq);
    sp.start_timer(len, tmodes);
    r
}

/// One tick of the beep timer.
pub fn inc_speaker_timer_fn(sp: &mut PcSpeaker, tmodes: &mut Modes) -> (stopped: bool)
    ensures
        stopped == (old(sp).timer >= i32::MAX || old(sp).timer + 1 >= old(sp).timer_limit),
{
    sp.inc_timer(tmodes)
}

/// Starts the song for the given number of runs; zero runs forever.
pub fn play_tet_ost_fn(sp: &mut PcSpeaker, tmodes: &mut Modes, kmodes: &mut KeyModes, num: i32)
    ensures
        final(sp).timer == 0,
        final(sp).total_runs == num,
        final(tmodes).song == true,
        final(tmodes).terminal == false,
        final(kmodes).song == true,
{
    sp.start_song_loop(num, tmodes, kmodes);
}

/// Cuts the song off.
pub fn end_tet_ost_fn(sp: &mut PcSpeaker, tmodes: &mut Modes, kmodes: &mut KeyModes)
    ensures
        final(sp).current_run == 0,
        final(tmodes).song == false,
        final(tmodes).terminal == true,
        final(kmodes).song == false,
{
    sp.stop_song_loop(true, tmodes, kmodes);
}

} // verus!
