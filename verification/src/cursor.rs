//! The cursor: a two-dimensional position with sticky-column memory.
//!
//! `x` is the 1-based column in the current line, `vertical_x` the last
//! deliberately chosen column (kept across vertical motion), `relative_y`
//! the 1-based row inside the viewport and `absolute_y` the 1-based
//! document line number. All motions clamp instead of panicking.

use vstd::prelude::*;

verus! {

pub struct Cursor {
    pub x: u16,
    pub vertical_x: u16,
    pub relative_y: u16,
    pub absolute_y: u16,
}

impl Cursor {
    /// Move one line up: the document line floors at 1, and the viewport
    /// row floors at its top.
    pub fn move_up(&mut self)
        ensures
            final(self).absolute_y == if old(self).absolute_y > 1 {
                (old(self).absolute_y - 1) as u16
            } else {
                old(self).absolute_y
            },
            final(self).relative_y == if old(self).relative_y > 1 {
                (old(self).relative_y - 1) as u16
            } else {
                old(self).relative_y
            },
            final(self).x == old(self).x,
            final(self).vertical_x == old(self).vertical_x,
    {
        if self.absolute_y > 1 {
            self.absolute_y = self.absolute_y - 1;
        }
        if self.relative_y > 1 {
            self.relative_y = self.relative_y - 1;
        }
    }

    /// Move one line down; the viewport row stops at the bottom row
    /// `max_y - 1`, where the caller scrolls instead.
    pub fn move_down(&mut self, max_y: u16)
        requires
            old(self).absolute_y < u16::MAX,
        ensures
            final(self).absolute_y == old(self).absolute_y + 1,
            final(self).relative_y == if old(self).relative_y + 1 >= max_y {
                old(self).relative_y
            } else {
                (old(self).relative_y + 1) as u16
            },
            final(self).x == old(self).x,
            final(self).vertical_x == old(self).vertical_x,
    {
        self.absolute_y = self.absolute_y + 1;
        if self.relative_y as u32 + 1 < max_y as u32 {
            self.relative_y = self.relative_y + 1;
        }
    }

    /// Move one column right.
    pub fn move_right(&mut self)
        requires
            old(self).x < u16::MAX,
        ensures
            final(self).x == old(self).x + 1,
            final(self).vertical_x == old(self).vertical_x,
            final(self).relative_y == old(self).relative_y,
            final(self).absolute_y == old(self).absolute_y,
    {
        self.x = self.x + 1;
    }

    /// Move one column left; the column floors at 1.
    pub fn move_left(&mut self)
        ensures
            final(self).x == if old(self).x > 1 {
                (old(self).x - 1) as u16
            } else {
                old(self).x
            },
            final(self).vertical_x == old(self).vertical_x,
            final(self).relative_y == old(self).relative_y,
            final(self).absolute_y == old(self).absolute_y,
    {
        if self.x > 1 {
            self.x = self.x - 1;
        }
    }

    /// Place the column directly.
    pub fn set_x(&mut self, x: u16)
        ensures
            final(self).x == x,
            final(self).vertical_x == old(self).vertical_x,
            final(self).relative_y == old(self).relative_y,
            final(self).absolute_y == old(self).absolute_y,
    {
        self.x = x;
    }
}

} // verus!
