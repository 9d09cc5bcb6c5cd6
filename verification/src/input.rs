//! Which device steers the rat. Moving the mouse hands control to the
//! cursor; a movement key hands it back to the keyboard, while the cursor
//! position is remembered for when the mouse returns.

use vstd::prelude::*;

verus! {

/// The four movement directions.
#[derive(Clone, Copy, Debug, PartialEq, Eq, Structural)]
pub enum Dir {
    Up,
    Down,
    Left,
    Right,
}

/// A key as far as movement is concerned.
#[derive(Clone, Copy, Debug, PartialEq, Eq, Structural)]
pub enum Key {
    Up,
    Down,
    Left,
    Right,
    Char(char),
    Other,
}

/// The movement a key stands for: the arrows, and WASD in either case.
pub open spec fn spec_dir_of(k: Key) -> Option<Dir> {
    match k {
        Key::Up => Some(Dir::Up),
        Key::Down => Some(Dir::Down),
        Key::Left => Some(Dir::Left),
        Key::Right => Some(Dir::Right),
        Key::Char(c) => if c == 'w' || c == 'W' {
            Some(Dir::Up)
        } else if c == 's' || c == 'S' {
            Some(Dir::Down)
        } else if c == 'a' || c == 'A' {
            Some(Dir::Left)
        } else if c == 'd' || c == 'D' {
            Some(Dir::Right)
        } else {
            None
        },
        Key::Other => None,
    }
}

/// The movement a key stands for: the arrows, and WASD in either case.
pub fn dir_of(k: Key) -> (r: Option<Dir>)
    ensures
        r == spec_dir_of(k),
{
    match k {
        Key::Up => Some(Dir::Up),
        Key::Down => Some(Dir::Down),
        Key::Left => Some(Dir::Left),
        Key::Right => Some(Dir::Right),
        Key::Char(c) => {
            if c == 'w' || c == 'W' {
                Some(Dir::Up)
            } else if c == 's' || c == 'S' {
                Some(Dir::Down)
            } else if c == 'a' || c == 'A' {
                Some(Dir::Left)
            } else if c == 'd' || c == 'D' {
                Some(Dir::Right)
            } else {
                None
            }
        },
        Key::Other => None,
    }
}

/// What a mouse event did.
#[derive(Clone, Copy, Debug, PartialEq, Eq, Structural)]
pub enum MouseKind {
    Moved,
    Drag,
    Down,
    Up,
    Scroll,
}

/// The latest cursor cell and whether the cursor steers.
#[derive(Clone, Copy, Debug, PartialEq, Eq)]
pub struct Pointer {
    /// Latest mouse cursor cell (column, row), kept across frames.
    pub mouse_pos: Option<(u16, u16)>,
    /// The mouse was the most recent movement input.
    pub prefer_mouse: bool,
}

impl Pointer {
    /// No cursor seen yet; the keyboard steers.
    pub fn new() -> (p: Pointer)
        ensures
            p == (Pointer { mouse_pos: None, prefer_mouse: false }),
    {
        Pointer { mouse_pos: None, prefer_mouse: false }
    }

    /// A mouse event: moving, dragging or pressing records the cell and
    /// hands control to the cursor; releases and scrolling change nothing.
    pub fn on_mouse(&mut self, kind: MouseKind, column: u16, row: u16)
        ensures
            *final(self) == (match kind {
                MouseKind::Moved | MouseKind::Drag | MouseKind::Down => Pointer {
                    mouse_pos: Some((column, row)),
                    prefer_mouse: true,
                },
                _ => *old(self),
            }),
    {
        match kind {
            MouseKind::Moved | MouseKind::Drag | MouseKind::Down => {
                self.mouse_pos = Some((column, row));
                self.prefer_mouse = true;
            },
            _ => {},
        }
    }

    /// A key pressed or repeated: a movement key hands control back to the
    /// keyboard; the cursor cell is kept.
    pub fn on_key(&mut self, k: Key)
        ensures
            final(self).mouse_pos == old(self).mouse_pos,
            final(self).prefer_mouse == (old(self).prefer_mouse && spec_dir_of(k) is None),
    {
        if dir_of(k).is_some() {
            self.prefer_mouse = false;
        }
    }
}

} // verus!
