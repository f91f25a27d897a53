//! The display-mode bookkeeping worth stating: packed color codes, screen
//! cells, and the text-or-graphics mode controller with its blink timer.
//! Drawing itself happens outside the library.

use vstd::prelude::*;

verus! {

/// Rows of the text-mode screen.
pub const BUFFER_HEIGHT: usize = 25;

/// Columns of the text-mode screen.
pub const BUFFER_WIDTH: usize = 80;

/// Rows of the graphics-mode character grid.
pub const BUFFER_HEIGHT_ADVANCED: usize = 60;

/// A foreground and background color packed in one byte: the background
/// in the high four bits, the foreground in the low four.
pub struct ColorCode {
    pub code: u8,
}

impl ColorCode {
    /// Packs two four-bit color values.
    pub fn new(foreground: u8, background: u8) -> (r: ColorCode)
        requires
            foreground < 16,
            background < 16,
        ensures
            r.code == background * 16 + foreground,
    {
        proof {
            assert((background << 4) | foreground == background * 16 + foreground) by (bit_vector)
                requires
                    foreground < 16,
                    background < 16,
            ;
        }
        ColorCode { code: (background << 4) | foreground }
    }

    /// Unpacks the two color values.
    pub fn decompose(&self) -> (r: (u8, u8))
        ensures
            r.0 == self.code % 16,
            r.1 == self.code / 16,
    {
        let c = self.code;
        proof {
            assert(((c << 4) >> 4) == c % 16 && (c >> 4) == c / 16) by (bit_vector);
        }
        ((c << 4) >> 4, c >> 4)
    }
}

/// One cell of the screen: a character and its colors.
pub struct ScreenChar {
    pub ascii_character: u8,
    pub color_code: ColorCode,
}

impl ScreenChar {
    /// A blank black cell.
    pub fn new() -> (r: ScreenChar)
        ensures
            r.ascii_character == 0,
            r.color_code.code == 0,
    {
        ScreenChar { ascii_character: 0, color_code: ColorCode { code: 0 } }
    }

    /// Repaints the cell.
    pub fn set_color(&mut self, color: ColorCode)
        ensures
            final(self).ascii_character == old(self).ascii_character,
            final(self).color_code == color,
    {
        self.color_code = color;
    }
}

/// Whether the display stands in text or graphics mode, and the blink
/// timer of the cursor.
pub struct ModeController {
    pub text: bool,
    pub blink_timer: usize,
}

impl ModeController {
    /// Starts in text mode with the blink timer spent.
    pub fn new() -> (r: ModeController)
        ensures
            r.text == true,
            r.blink_timer == 0,
    {
        ModeController { text: true, blink_timer: 0 }
    }

    /// Reports which renderer the caller must bring up for the current
    /// mode: true for the text writer, false for the graphics writer.
    pub fn init(&mut self) -> (r: bool)
        ensures
            *final(self) == *old(self),
            r == old(self).text,
    {
        self.text
    }

    /// Enters text mode; reports whether the caller must reinitialize the
    /// text writer, which is due exactly when the mode changed.
    pub fn text_init(&mut self) -> (r: bool)
        ensures
            final(self).text == true,
            final(self).blink_timer == old(self).blink_timer,
            r == !old(self).text,
    {
        if !self.text {
            self.text = true;
            true
        } else {
            false
        }
    }

    /// Enters graphics mode; reports whether the caller must reinitialize
    /// the graphics writer.
    pub fn graphics_init(&mut self) -> (r: bool)
        ensures
            final(self).text == false,
            final(self).blink_timer == old(self).blink_timer,
            r == old(self).text,
    {
        if self.text {
            self.text = false;
            true
        } else {
            false
        }
    }

    /// Steps the blink timer: every fifth tick the cursor must blink, and
    /// the timer rewinds; in between it counts down.  Reports whether the
    /// caller must blink now.
    pub fn blink_current(&mut self) -> (r: bool)
        ensures
            final(self).text == old(self).text,
            r == (old(self).blink_timer == 0),
            final(self).blink_timer == if old(self).blink_timer == 0 {
                4usize
            } else {
                (old(self).blink_timer - 1) as usize
            },
    {
        if self.blink_timer == 0 {
            self.blink_timer = 4;
            true
        } else {
            self.blink_timer = self.blink_timer - 1;
            false
        }
    }
}

} // verus!
