//! The little screen editor: a byte buffer, a viewport cursor, and the
//! command line at the bottom.  The library keeps the state; drawing, and
//! the file commands typed after a colon, are carried out by the caller,
//! which receives the finished command line to act on.

use vstd::prelude::*;

verus! {

/// Columns of the editing area.
pub const SCREEN_WIDTH: usize = 76;

/// Rows of the editing area.
pub const SCREEN_HEIGHT: usize = 56;

/// The editor state.
pub struct FakeVim {
    /// The edited bytes.
    pub data: Vec<u8>,
    /// Offset of the first byte shown on screen.
    pub data_screen_index: usize,
    /// The rendered character grid, row-major, one byte per cell.
    pub char_buffer: Vec<u8>,
    pub cursor_x: usize,
    pub cursor_y: usize,
    pub cursor_blink_timer: i32,
    pub blink_on: bool,
    pub command_mode: bool,
    pub input_mode: bool,
    /// The line being typed after a colon.
    pub command_buffer: Vec<u8>,
}

impl FakeVim {
    /// The grid has one cell per screen position and the cursor stays on
    /// the grid.
    pub open spec fn wf(self) -> bool {
        &&& self.char_buffer@.len() == 4256
        &&& self.cursor_x < 76
        &&& self.cursor_y < 56
    }

    pub fn new() -> (r: FakeVim)
        ensures
            r.wf(),
            r.data@ == Seq::<u8>::empty(),
            r.cursor_x == 0,
            r.cursor_y == 0,
            r.data_screen_index == 0,
            r.command_mode == false,
            r.input_mode == false,
            r.cursor_blink_timer == 5,
            r.blink_on == false,
    {
        let mut grid: Vec<u8> = Vec::new();
        crate::codec::push_zeros(&mut grid, 4256);
        FakeVim {
            data: Vec::new(),
            data_screen_index: 0,
            char_buffer: grid,
            cursor_x: 0,
            cursor_y: 0,
            cursor_blink_timer: 5,
            blink_on: false,
            command_mode: false,
            input_mode: false,
            command_buffer: Vec::new(),
        }
    }

    /// Snaps the cursor left onto the last filled cell of its row.
    fn snap_to_text(&mut self)
        requires
            old(self).wf(),
        ensures
            final(self).wf(),
            final(self).data == old(self).data,
            final(self).cursor_y == old(self).cursor_y,
            final(self).cursor_x <= old(self).cursor_x,
    {
        let ghost x0 = self.cursor_x;
        while self.cursor_x > 0 && self.char_buffer[self.cursor_y * 76 + self.cursor_x] == 0
            invariant
                self.wf(),
                self.data == old(self).data,
                self.cursor_y == old(self).cursor_y,
                self.cursor_x <= x0,
                x0 == old(self).cursor_x,
            decreases self.cursor_x,
        {
            self.cursor_x = self.cursor_x - 1;
        }
    }

    /// A row up; at the top of the screen the viewport scrolls back by up
    /// to one row's worth of bytes.
    pub fn up(&mut self)
        requires
            old(self).wf(),
        ensures
            final(self).wf(),
            final(self).data == old(self).data,
            old(self).cursor_y > 0 ==> final(self).cursor_y == old(self).cursor_y - 1,
            old(self).cursor_y == 0 ==> final(self).cursor_y == 0,
    {
        if self.cursor_y > 0 {
            self.cursor_y = self.cursor_y - 1;
        } else {
            if self.data_screen_index > 76 {
                self.data_screen_index = self.data_screen_index - 76;
            } else {
                self.data_screen_index = 0;
            }
        }
        self.snap_to_text();
    }

    /// A row down; at the bottom the viewport scrolls forward to the next
    /// line break, or by a whole row.
    pub fn down(&mut self)
        requires
            old(self).wf(),
        ensures
            final(self).wf(),
            final(self).data == old(self).data,
            old(self).cursor_y < 55 ==> final(self).cursor_y == old(self).cursor_y + 1,
            old(self).cursor_y == 55 ==> final(self).cursor_y == 55,
    {
        if self.cursor_y < 55 {
            self.cursor_y = self.cursor_y + 1;
        } else {
            let mut moved = false;
            let mut i: usize = 0;
            let avail: usize = if self.data_screen_index <= self.data.len() {
                self.data.len() - self.data_screen_index
            } else {
                0
            };
            let ghost dsi0 = self.data_screen_index;
            while i < 76 && !moved
                invariant
                    self.wf(),
                    self.data == old(self).data,
                    self.cursor_y == old(self).cursor_y,
                    0 <= i <= 76,
                    avail <= self.data@.len(),
                    self.data@.len() <= usize::MAX,
                    !moved ==> self.data_screen_index == dsi0,
                    dsi0 + avail <= self.data@.len() || avail == 0,
                decreases 76 - i, (if moved { 0int } else { 1int }),
            {
                if !moved && i < avail {
                    if self.data[self.data_screen_index + i] == 10 {
                        self.data_screen_index = self.data_screen_index + i + 1;
                        moved = true;
                    }
                }
                i = i + 1;
            }
            if !moved {
                if self.data_screen_index <= usize::MAX - 76 {
                    self.data_screen_index = self.data_screen_index + 76;
                }
            }
        }
        self.snap_to_text();
    }

    /// A column left; at the left edge the cursor wraps to the end of the
    /// row above.
    pub fn left(&mut self)
        requires
            old(self).wf(),
        ensures
            final(self).wf(),
            final(self).data == old(self).data,
            old(self).cursor_x > 0 ==> final(self).cursor_x <= old(self).cursor_x - 1
                && final(self).cursor_y == old(self).cursor_y,
    {
        if self.cursor_x > 0 {
            self.cursor_x = self.cursor_x - 1;
            self.snap_to_text();
        } else {
            let top = self.data_screen_index == 0 && self.cursor_y == 0;
            if !top {
                self.cursor_x = 75;
            }
            self.up();
        }
    }

    /// A column right; at the right edge the cursor wraps to the start of
    /// the row below, and never rests past the text.
    pub fn right(&mut self)
        requires
            old(self).wf(),
        ensures
            final(self).wf(),
            final(self).data == old(self).data,
    {
        if self.cursor_x < 75 {
            self.cursor_x = self.cursor_x + 1;
        } else {
            self.cursor_x = 0;
            self.down();
        }
        if self.char_buffer[self.cursor_y * 76 + self.cursor_x] == 0 && self.cursor_x > 0 {
            self.cursor_x = self.cursor_x - 1;
        }
    }

    /// Leaves insert and command state.
    pub fn handle_esc(&mut self)
        requires
            old(self).wf(),
        ensures
            final(self).wf(),
            *final(self) == (FakeVim { input_mode: false, command_mode: false, ..*old(self) }),
    {
        self.input_mode = false;
        self.command_mode = false;
    }

    /// One blink-timer tick: past zero the cursor toggles and the timer
    /// rewinds; otherwise it counts down.  Reports whether the caller must
    /// redraw the cursor cell.
    pub fn blink_cursor(&mut self) -> (r: bool)
        requires
            old(self).wf(),
        ensures
            final(self).wf(),
            final(self).data == old(self).data,
            r == (old(self).cursor_blink_timer < 0),
            r ==> final(self).blink_on == !old(self).blink_on && final(self).cursor_blink_timer
                == 4,
            !r ==> final(self).blink_on == old(self).blink_on && final(self).cursor_blink_timer
                == old(self).cursor_blink_timer - 1,
    {
        if self.cursor_blink_timer < 0 {
            self.blink_on = !self.blink_on;
            self.cursor_blink_timer = 4;
            true
        } else {
            self.cursor_blink_timer = self.cursor_blink_timer - 1;
            false
        }
    }

    /// Rebuilds the character grid from the data, breaking rows at line
    /// feeds and at the right edge.
    pub fn render_buffer(&mut self)
        requires
            old(self).wf(),
        ensures
            final(self).wf(),
            final(self).data == old(self).data,
            final(self).cursor_x == old(self).cursor_x,
            final(self).cursor_y == old(self).cursor_y,
    {
        let mut grid: Vec<u8> = Vec::new();
        crate::codec::push_zeros(&mut grid, 4256);
        let mut x: usize = 0;
        let mut y: usize = 0;
        let mut i: usize = self.data_screen_index;
        let n = self.data.len();
        while i < n && y < 56
            invariant
                self.wf(),
                grid@.len() == 4256,
                x < 76,
                y <= 56,
                n == self.data@.len(),
                self.data_screen_index <= i,
            decreases n - i,
        {
            let d = self.data[i];
            if d == 10 {
                grid.set(y * 76 + x, 10);
                x = 0;
                y = y + 1;
            } else {
                grid.set(y * 76 + x, d);
                x = x + 1;
                if x >= 76 {
                    x = 0;
                    y = y + 1;
                }
            }
            i = i + 1;
        }
        self.char_buffer = grid;
    }

    /// Inserts a byte at the cursor's place in the data, or removes the
    /// byte before it on a backspace, and moves the cursor along.
    pub fn insert_char(&mut self, chr: u8)
        requires
            old(self).wf(),
        ensures
            final(self).wf(),
            final(self).data@.len() <= old(self).data@.len() + 1,
    {
        // find the data offset the cursor stands on
        let mut x: usize = 0;
        let mut y: usize = 0;
        let mut i: usize = self.data_screen_index;
        let n = self.data.len();
        let mut at: Option<usize> = None;
        while i < n && y < 56 && at.is_none()
            invariant
                self.wf(),
                x < 76,
                y <= 56,
                n == self.data@.len(),
                at matches Some(a) ==> a <= n,
            decreases n - i, (if at.is_none() { 1int } else { 0int }),
        {
            if x == self.cursor_x && y == self.cursor_y {
                at = Some(i);
            } else {
                let d = self.data[i];
                if d == 10 {
                    x = 0;
                    y = y + 1;
                } else {
                    x = x + 1;
                    if x >= 76 {
                        x = 0;
                        y = y + 1;
                    }
                }
                i = i + 1;
            }
        }
        match at {
            Some(a) => {
                if chr == 8 {
                    if a != 0 {
                        self.data.remove(a - 1);
                        self.left();
                    } else if a < self.data.len() {
                        self.data.remove(a);
                        self.left();
                    }
                } else {
                    proof {
                        assert(a <= self.data@.len());
                    }
                    self.data.insert(a, chr);
                    self.right();
                }
            },
            None => {
                if chr != 8 {
                    self.data.push(chr);
                    self.right();
                }
            },
        }
        self.render_buffer();
    }

    /// A keystroke in command state: a line feed finishes the command line
    /// and hands it to the caller to act on, a backspace shortens it, any
    /// other byte extends it.
    pub fn handle_command(&mut self, c: u8) -> (r: Option<Vec<u8>>)
        requires
            old(self).wf(),
        ensures
            final(self).wf(),
            c == 10 ==> (r matches Some(line) && line@ == old(self).command_buffer@) && final(self).command_buffer@ == Seq::<u8>::empty() && final(self).command_mode == false,
            c != 10 ==> r is None,
            c == 8 ==> final(self).command_buffer@.len() <= old(self).command_buffer@.len(),
            c != 10 && c != 8 ==> final(self).command_buffer@ == old(self).command_buffer@.push(c),
    {
        if c == 10 {
            let mut out: Vec<u8> = Vec::new();
            crate::paths::push_copy(&mut out, &self.command_buffer);
            self.command_buffer = Vec::new();
            self.command_mode = false;
            proof {
                assert(out@ =~= old(self).command_buffer@);
            }
            Some(out)
        } else if c == 8 {
            self.command_buffer.pop();
            None
        } else {
            self.command_buffer.push(c);
            None
        }
    }

    /// A keystroke: routed to insertion, to the command line, or taken as
    /// one of the bare-state keys `i` and `:`.
    pub fn handle_scancode(&mut self, scancode: u8) -> (r: Option<Vec<u8>>)
        requires
            old(self).wf(),
        ensures
            final(self).wf(),
            old(self).input_mode ==> r is None,
            !old(self).input_mode && !old(self).command_mode && scancode == 105 ==> final(self).input_mode == true && r is None,
    {
        if self.input_mode {
            self.insert_char(scancode);
            None
        } else if self.command_mode {
            self.handle_command(scancode)
        } else {
            if scancode == 105 {
                self.command_mode = false;
                self.input_mode = true;
            } else if scancode == 58 {
                self.command_mode = true;
                self.command_buffer = Vec::new();
                return self.handle_command(scancode);
            }
            None
        }
    }
}

} // verus!
