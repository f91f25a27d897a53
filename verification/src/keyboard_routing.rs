//! The keyboard interrupt router: the active modes say where a key goes.
//! Screen work the library cannot do comes back to the caller as a small
//! command code, the codes the game understands.

use vstd::prelude::*;
use crate::vi::FakeVim;
use crate::commands::CommandRunner;

verus! {

/// Which consumers keys are routed to.
pub struct Modes {
    pub terminal: bool,
    pub screenbuffer: bool,
    pub tetris: bool,
    pub tetris_score: bool,
    pub song: bool,
    pub textedit: bool,
    pub brainf: bool,
    pub bfesc: bool,
}

impl Modes {
    pub fn new() -> (r: Modes)
        ensures
            r.terminal == true,
            r.screenbuffer == false,
            r.tetris == false,
            r.tetris_score == false,
            r.song == false,
            r.textedit == false,
            r.brainf == false,
            r.bfesc == false,
    {
        Modes {
            terminal: true,
            screenbuffer: false,
            tetris: false,
            tetris_score: false,
            song: false,
            textedit: false,
            brainf: false,
            bfesc: false,
        }
    }
}

/// The router itself: only the mode flags.
pub struct KeyboardRouter {
    pub mode: Modes,
}

impl KeyboardRouter {
    pub fn new() -> (r: KeyboardRouter)
        ensures
            r.mode.terminal == true,
            r.mode.tetris == false,
            r.mode.textedit == false,
            r.mode.bfesc == false,
    {
        KeyboardRouter { mode: Modes::new() }
    }

    /// An arrow key left or right: in the terminal the caller moves the
    /// screen cursor, in the game it is a move command, in the editor the
    /// cursor moves at once.
    pub fn move_cursor(&self, dist: i8, vim: &mut FakeVim) -> (r: (bool, Option<u8>))
        requires
            old(vim).wf(),
        ensures
            final(vim).wf(),
            r.0 == (self.mode.terminal || self.mode.screenbuffer),
            r.1 == if !(self.mode.terminal || self.mode.screenbuffer) && self.mode.tetris {
                if dist > 0 {
                    Some(2u8)
                } else {
                    Some(1u8)
                }
            } else {
                None::<u8>
            },
            !self.mode.textedit ==> *final(vim) == *old(vim),
    {
        let mut game: Option<u8> = None;
        let screen = self.mode.terminal || self.mode.screenbuffer;
        if !screen && self.mode.tetris {
            if dist > 0 {
                game = Some(2);
            } else {
                game = Some(1);
            }
        }
        if self.mode.textedit {
            if dist > 0 {
                vim.right();
            } else {
                vim.left();
            }
        }
        (screen, game)
    }

    /// A down arrow: a drop command for the game, a cursor move for the
    /// editor.
    pub fn down(&self, vim: &mut FakeVim) -> (r: Option<u8>)
        requires
            old(vim).wf(),
        ensures
            final(vim).wf(),
            r == if self.mode.tetris {
                Some(3u8)
            } else {
                None::<u8>
            },
            !self.mode.textedit ==> *final(vim) == *old(vim),
    {
        let r: Option<u8> = if self.mode.tetris {
            Some(3)
        } else {
            None
        };
        if self.mode.textedit {
            vim.down();
        }
        r
    }

    /// An up arrow: a rotate command for the game, a cursor move for the
    /// editor.
    pub fn up(&self, vim: &mut FakeVim) -> (r: Option<u8>)
        requires
            old(vim).wf(),
        ensures
            final(vim).wf(),
            r == if self.mode.tetris {
                Some(6u8)
            } else {
                None::<u8>
            },
            !self.mode.textedit ==> *final(vim) == *old(vim),
    {
        let r: Option<u8> = if self.mode.tetris {
            Some(6)
        } else {
            None
        };
        if self.mode.textedit {
            vim.up();
        }
        r
    }

    /// The escape key: a quit command for the game, leaving insert or
    /// command state for the editor, and the way back to the terminal for
    /// the interpreter.
    pub fn esc(&mut self, vim: &mut FakeVim) -> (r: Option<u8>)
        requires
            old(vim).wf(),
        ensures
            final(vim).wf(),
            r == if old(self).mode.tetris || old(self).mode.tetris_score {
                Some(9u8)
            } else {
                None::<u8>
            },
            old(self).mode.bfesc ==> final(self).mode.brainf == false && final(self).mode.bfesc
                == false && final(self).mode.terminal == true,
            !old(self).mode.bfesc ==> final(self).mode == old(self).mode,
            !old(self).mode.textedit ==> *final(vim) == *old(vim),
    {
        let r: Option<u8> = if self.mode.tetris || self.mode.tetris_score {
            Some(9)
        } else {
            None
        };
        if self.mode.textedit {
            vim.handle_esc();
        }
        if self.mode.bfesc {
            self.mode.brainf = false;
            self.mode.bfesc = false;
            self.mode.terminal = true;
        }
        r
    }
}

/// A cursor step left in the command line.
pub fn left(cr: &mut CommandRunner)
    requires
        old(cr).wf(),
    ensures
        final(cr).wf(),
        final(cr).index == if old(cr).index != 0 {
            (old(cr).index - 1) as usize
        } else {
            0usize
        },
        final(cr).command_buffer == old(cr).command_buffer,
{
    cr.move_command_cursor(-1);
}

/// A cursor step right in the command line.
pub fn right(cr: &mut CommandRunner)
    requires
        old(cr).wf(),
    ensures
        final(cr).wf(),
        final(cr).index == if old(cr).index < old(cr).command_buffer@.len() {
            (old(cr).index + 1) as usize
        } else {
            old(cr).index
        },
        final(cr).command_buffer == old(cr).command_buffer,
{
    cr.move_command_cursor(1);
}

} // verus!
