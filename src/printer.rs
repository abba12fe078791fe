//! Text-mode console cursor and colours. The caller writes the cells and
//! moves the screen; the printer decides where each character lands.
use vstd::prelude::*;
use vstd::string::StrSliceExecFns;

verus! {

pub const VGA_WIDTH: u16 = 80;
pub const VGA_HEIGHT: u16 = 25;

pub const COLOR_BLACK: u8 = 0x0;
pub const COLOR_BLUE: u8 = 0x1;
pub const COLOR_GREEN: u8 = 0x2;
pub const COLOR_CYAN: u8 = 0x3;
pub const COLOR_RED: u8 = 0x4;
pub const COLOR_MAGENTA: u8 = 0x5;
pub const COLOR_YELLOW: u8 = 0x6;
pub const COLOR_WHITE: u8 = 0x7;
pub const COLOR_LIGHT_BLACK: u8 = 0x8;
pub const COLOR_LIGHT_BLUE: u8 = 0x9;
pub const COLOR_LIGHT_GREEN: u8 = 0xA;
pub const COLOR_LIGHT_CYAN: u8 = 0xB;
pub const COLOR_LIGHT_RED: u8 = 0xC;
pub const COLOR_LIGHT_MAGENTA: u8 = 0xD;
pub const COLOR_LIGHT_YELLOW: u8 = 0xE;
pub const COLOR_LIGHT_WHITE: u8 = 0xF;

/// One thing for the screen to do: put a character with an attribute into
/// a cell, or move every row up by one.
#[derive(Clone, Copy, PartialEq, Eq, Structural, Debug)]
pub enum ScreenOp {
    Put { cell: u16, byte: u8, attribute: u8 },
    Scroll,
}

/// Cursor position and current colours.
#[derive(Clone, Copy, PartialEq, Eq, Structural, Debug)]
pub struct Printer {
    pub x: u16,
    pub y: u16,
    pub fg_color: u8,
    pub bg_color: u8,
}

impl Printer {
    /// The cursor is on the screen and the colours are 4-bit.
    pub open spec fn wf(&self) -> bool {
        self.x < VGA_WIDTH && self.y < VGA_HEIGHT && self.fg_color < 16 && self.bg_color < 16
    }

    /// Top left, white on black.
    pub fn new() -> (r: Printer)
        ensures
            r.wf(),
            r.x == 0 && r.y == 0,
            r.fg_color == COLOR_WHITE && r.bg_color == COLOR_BLACK,
    {
        Printer { x: 0, y: 0, fg_color: COLOR_WHITE, bg_color: COLOR_BLACK }
    }

    /// Cell index of the cursor.
    pub fn cursor(&self) -> (r: u16)
        requires
            self.wf(),
        ensures
            r == self.y * VGA_WIDTH + self.x,
    {
        self.y * VGA_WIDTH + self.x
    }

    /// Attribute byte of the current colours.
    pub fn attribute(&self) -> (r: u8)
        requires
            self.wf(),
        ensures
            r == self.bg_color * 16 + self.fg_color,
    {
        self.bg_color * 16 + self.fg_color
    }

    pub fn set_colors(&mut self, fg_color: u8, bg_color: u8)
        requires
            fg_color < 16,
            bg_color < 16,
        ensures
            *final(self) == (Printer { fg_color, bg_color, ..*old(self) }),
    {
        self.fg_color = fg_color;
        self.bg_color = bg_color;
    }

    /// Back to white on black.
    pub fn reset_colors(&mut self)
        ensures
            *final(self) == (Printer { fg_color: COLOR_WHITE, bg_color: COLOR_BLACK, ..*old(self) }),
    {
        self.set_colors(COLOR_WHITE, COLOR_BLACK)
    }

    /// Moves to the start of the next line; on the last line the screen
    /// scrolls instead (returned true) and the cursor stays on that line.
    pub fn new_line(&mut self) -> (r: bool)
        requires
            old(self).wf(),
        ensures
            final(self).wf(),
            r == (old(self).y == VGA_HEIGHT - 1),
            final(self).x == 0,
            final(self).y == if r { old(self).y } else { (old(self).y + 1) as u16 },
            final(self).fg_color == old(self).fg_color && final(self).bg_color == old(self).bg_color,
    {
        let scrolled = self.y == VGA_HEIGHT - 1;
        if !scrolled {
            self.y = self.y + 1;
        }
        self.x = 0;
        scrolled
    }

    /// Prints `c`: a newline moves to the next line; any other character
    /// (its low byte) goes into the cursor cell, which then advances, wrapping
    /// to the next line, and scrolling after the last cell of the screen.
    pub fn printc(&mut self, c: char) -> (r: Vec<ScreenOp>)
        requires
            old(self).wf(),
        ensures
            final(self).wf(),
            *final(self) == after_char(*old(self), c),
            r@ == ops_of(*old(self), c),
    {
        let mut r: Vec<ScreenOp> = Vec::new();
        if c as u32 == 10 {
            if self.new_line() {
                r.push(ScreenOp::Scroll);
            }
            assert(r@ =~= ops_of(*old(self), c));
            return r;
        }
        let cell = self.cursor();
        let code = c as u32;
        let byte = (code % 256) as u8;
        r.push(ScreenOp::Put { cell, byte, attribute: self.attribute() });
        if self.y >= VGA_HEIGHT - 1 && self.x >= VGA_WIDTH - 1 {
            r.push(ScreenOp::Scroll);
            self.x = 0;
        } else {
            self.x = self.x + 1;
            if self.x >= VGA_WIDTH {
                self.x = 0;
                self.y = self.y + 1;
            }
        }
        assert(r@ =~= ops_of(*old(self), c));
        r
    }

    /// Prints `s` from cell `cursor` (where the hardware cursor stands): the
    /// screen operations of each character in turn.
    pub fn prints(&mut self, cursor: u16, s: &str) -> (r: Vec<ScreenOp>)
        requires
            old(self).fg_color < 16 && old(self).bg_color < 16,
            cursor < VGA_WIDTH * VGA_HEIGHT,
        ensures
            final(self).wf(),
            ({
                let start = Printer { x: (cursor % VGA_WIDTH) as u16, y: (cursor / VGA_WIDTH) as u16, ..*old(self) };
                *final(self) == run_end(start, s@) && r@ == run_ops(start, s@)
            }),
    {
        self.x = cursor % VGA_WIDTH;
        self.y = cursor / VGA_WIDTH;
        let ghost start = *self;
        let mut r: Vec<ScreenOp> = Vec::new();
        let n = s.unicode_len();
        let mut i: usize = 0;
        while i < n
            invariant
                n == s@.len(),
                0 <= i <= n,
                start.wf(),
                self.wf(),
                *self == run_end(start, s@.subrange(0, i as int)),
                r@ == run_ops(start, s@.subrange(0, i as int)),
            decreases n - i,
        {
            let c = s.get_char(i);
            let ghost before = r@;
            let ghost p = *self;
            let ops = self.printc(c);
            let mut k: usize = 0;
            while k < ops.len()
                invariant
                    0 <= k <= ops@.len(),
                    r@ == before + ops@.subrange(0, k as int),
                decreases ops@.len() - k,
            {
                r.push(ops[k]);
                assert(r@ =~= before + ops@.subrange(0, k + 1));
                k = k + 1;
            }
            proof {
                let pre = s@.subrange(0, i + 1);
                assert(pre.drop_last() =~= s@.subrange(0, i as int));
                assert(pre.last() == c);
                lemma_run_wf(start, s@.subrange(0, i as int));
                assert(ops@.subrange(0, ops@.len() as int) =~= ops@);
            }
            i = i + 1;
        }
        proof {
            assert(s@.subrange(0, n as int) =~= s@);
        }
        r
    }

    /// Moves the cursor back one cell, to the end of the previous line from
    /// the start of a line; returns the cell to blank, or none at the top
    /// left.
    pub fn delete(&mut self) -> (r: Option<u16>)
        requires
            old(self).wf(),
        ensures
            final(self).wf(),
            final(self).fg_color == old(self).fg_color && final(self).bg_color == old(self).bg_color,
            old(self).x > 0 ==> final(self).x == old(self).x - 1 && final(self).y == old(self).y,
            old(self).x == 0 && old(self).y > 0 ==> final(self).x == VGA_WIDTH - 1 && final(self).y == old(self).y
                - 1,
            old(self).x == 0 && old(self).y == 0 ==> r is None && *final(self) == *old(self),
            r is Some <==> (old(self).x > 0 || old(self).y > 0),
            r matches Some(cell) ==> cell == final(self).y * VGA_WIDTH + final(self).x,
    {
        if self.x > 0 {
            self.x = self.x - 1;
        } else if self.y > 0 {
            self.y = self.y - 1;
            self.x = VGA_WIDTH - 1;
        } else {
            return None;
        }
        Some(self.cursor())
    }

    /// Homes the cursor; the caller blanks the screen with `attribute()`.
    pub fn clear(&mut self)
        ensures
            *final(self) == (Printer { x: 0, y: 0, ..*old(self) }),
    {
        self.x = 0;
        self.y = 0;
    }
}

/// The printer after printing `c`.
pub open spec fn after_char(p: Printer, c: char) -> Printer {
    if c as u32 == 10 {
        Printer { x: 0, y: if p.y == VGA_HEIGHT - 1 { p.y } else { (p.y + 1) as u16 }, ..p }
    } else if p.y >= VGA_HEIGHT - 1 && p.x >= VGA_WIDTH - 1 {
        Printer { x: 0, ..p }
    } else if p.x + 1 >= VGA_WIDTH {
        Printer { x: 0, y: (p.y + 1) as u16, ..p }
    } else {
        Printer { x: (p.x + 1) as u16, ..p }
    }
}

/// The screen operations of printing `c`.
pub open spec fn ops_of(p: Printer, c: char) -> Seq<ScreenOp> {
    if c as u32 == 10 {
        if p.y == VGA_HEIGHT - 1 { seq![ScreenOp::Scroll] } else { Seq::empty() }
    } else {
        let put = ScreenOp::Put {
            cell: (p.y * VGA_WIDTH + p.x) as u16,
            byte: (c as u32 % 256) as u8,
            attribute: (p.bg_color * 16 + p.fg_color) as u8,
        };
        if p.y >= VGA_HEIGHT - 1 && p.x >= VGA_WIDTH - 1 { seq![put, ScreenOp::Scroll] } else { seq![put] }
    }
}

/// The printer after printing `s` from `p`.
pub open spec fn run_end(p: Printer, s: Seq<char>) -> Printer
    decreases s.len(),
{
    if s.len() == 0 {
        p
    } else {
        after_char(run_end(p, s.drop_last()), s.last())
    }
}

/// The screen operations of printing `s` from `p`.
pub open spec fn run_ops(p: Printer, s: Seq<char>) -> Seq<ScreenOp>
    decreases s.len(),
{
    if s.len() == 0 {
        Seq::empty()
    } else {
        run_ops(p, s.drop_last()) + ops_of(run_end(p, s.drop_last()), s.last())
    }
}

proof fn lemma_run_wf(p: Printer, s: Seq<char>)
    requires
        p.wf(),
    ensures
        run_end(p, s).wf(),
    decreases s.len(),
{
    if s.len() > 0 {
        lemma_run_wf(p, s.drop_last());
    }
}

} // verus!
