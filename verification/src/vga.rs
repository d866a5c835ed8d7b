//! A model of the boot-time text console.
//!
//! The console is a `width x height` grid of character cells, two bytes per
//! cell (the character and its attribute), with a cursor. This type holds
//! the cell buffer itself; the environment that owns the real video memory
//! copies the buffer out. Unlike raw video memory, the model clips: once
//! the cursor has moved past the last line it stays there, and characters
//! written off screen change no cell.

use vstd::prelude::*;
use vstd::string::StringSliceAdditionalSpecFns;

verus! {

/// The observable console state: the cursor and the cell bytes.
pub struct VgaState {
    pub xpos: int,
    pub ypos: int,
    pub screen: Seq<u8>,
}

/// Display for logs and messages while booting.
pub struct TextVGA {
    width: i32,
    height: i32,
    base: usize,
    xpos: i32,
    ypos: i32,
    vram: Vec<u8>,
}

impl View for TextVGA {
    type V = VgaState;

    closed spec fn view(&self) -> VgaState {
        VgaState { xpos: self.xpos as int, ypos: self.ypos as int, screen: self.vram@ }
    }
}

/// One character applied to a console state: a newline returns the cursor
/// to the line start and moves down a line; any other byte is stored at
/// the cursor with attribute `0xf`, and the cursor advances, wrapping at
/// the line end. The cursor stops on the line below the last one, and a
/// byte arriving there changes no cell.
pub open spec fn spec_putc(s: VgaState, c: u8, width: int, height: int) -> VgaState {
    if c == 10 {
        VgaState {
            xpos: 0,
            ypos: if s.ypos < height {
                s.ypos + 1
            } else {
                s.ypos
            },
            ..s
        }
    } else {
        let screen = if s.ypos < height {
            let off = (width * s.ypos + s.xpos) * 2;
            s.screen.update(off, c).update(off + 1, 0xf)
        } else {
            s.screen
        };
        if s.xpos + 1 >= width {
            VgaState {
                xpos: 0,
                ypos: if s.ypos < height {
                    s.ypos + 1
                } else {
                    s.ypos
                },
                screen,
            }
        } else {
            VgaState { xpos: s.xpos + 1, ypos: s.ypos, screen }
        }
    }
}

/// The first `n` bytes of `bs` applied in order.
pub open spec fn spec_puts(s: VgaState, bs: Seq<u8>, n: int, width: int, height: int) -> VgaState
    decreases n,
{
    if n <= 0 {
        s
    } else {
        spec_putc(spec_puts(s, bs, n - 1, width, height), bs[n - 1], width, height)
    }
}

impl TextVGA {
    pub closed spec fn spec_width(self) -> int {
        self.width as int
    }

    pub closed spec fn spec_height(self) -> int {
        self.height as int
    }

    pub closed spec fn spec_base(self) -> usize {
        self.base
    }

    /// The cursor is on screen (or just below it) and the buffer covers
    /// the grid.
    pub open spec fn wf(self) -> bool {
        &&& 1 <= self.spec_width()
        &&& 1 <= self.spec_height()
        &&& 2 * self.spec_width() * self.spec_height() <= i32::MAX
        &&& 0 <= self@.xpos < self.spec_width()
        &&& 0 <= self@.ypos <= self.spec_height()
        &&& self@.screen.len() == 2 * self.spec_width() * self.spec_height()
    }

    /// A console over a cleared buffer, with the cursor at the top left.
    /// `vram` records the physical address the model stands for.
    pub fn new(width: i32, height: i32, vram: usize) -> (r: Self)
        requires
            1 <= width,
            1 <= height,
            2 * width * height <= i32::MAX,
        ensures
            r.wf(),
            r.spec_width() == width,
            r.spec_height() == height,
            r.spec_base() == vram,
            r@.xpos == 0,
            r@.ypos == 0,
            r@.screen == Seq::new((2 * width * height) as nat, |k: int| 0u8),
    {
        let cells: usize = 2 * (width as usize) * (height as usize);
        let mut buf: Vec<u8> = Vec::new();
        let mut k: usize = 0;
        while k < cells
            invariant
                k <= cells,
                buf@.len() == k,
                forall|j: int| 0 <= j < k ==> buf@[j] == 0u8,
            decreases cells - k,
        {
            buf.push(0);
            k = k + 1;
        }
        let r = TextVGA { width, height, base: vram, xpos: 0, ypos: 0, vram: buf };
        proof {
            assert(r@.screen =~= Seq::new((2 * width * height) as nat, |j: int| 0u8));
        }
        r
    }

    /// Write one character at the cursor and advance it.
    pub fn putc(&mut self, c: u8)
        requires
            old(self).wf(),
        ensures
            final(self).wf(),
            final(self)@ == spec_putc(
                old(self)@,
                c,
                old(self).spec_width(),
                old(self).spec_height(),
            ),
            final(self).spec_width() == old(self).spec_width(),
            final(self).spec_height() == old(self).spec_height(),
            final(self).spec_base() == old(self).spec_base(),
    {
        if c == 10 {
            self.xpos = 0;
            if self.ypos < self.height {
                self.ypos = self.ypos + 1;
            }
            return ;
        }
        if self.ypos < self.height {
            proof {
                let w = self.width as int;
                let h = self.height as int;
                let x = self.xpos as int;
                let y = self.ypos as int;
                assert(0 <= w * y && 0 <= w * y + x && (w * y + x) * 2 + 1 < 2 * w * h) by (nonlinear_arith)
                    requires
                        0 <= x < w,
                        0 <= y,
                        y < h,
                        1 <= w,
                ;
            }
            let off = ((self.width * self.ypos + self.xpos) * 2) as usize;
            self.vram.set(off, c);
            self.vram.set(off + 1, 0xf);
        }
        if self.xpos + 1 >= self.width {
            self.xpos = 0;
            if self.ypos < self.height {
                self.ypos = self.ypos + 1;
            }
        } else {
            self.xpos = self.xpos + 1;
        }
    }

    /// Write a string, character by character.
    pub fn puts(&mut self, s: &str)
        requires
            old(self).wf(),
        ensures
            final(self).wf(),
            final(self)@ == spec_puts(
                old(self)@,
                s.spec_bytes(),
                s.spec_bytes().len() as int,
                old(self).spec_width(),
                old(self).spec_height(),
            ),
            final(self).spec_width() == old(self).spec_width(),
            final(self).spec_height() == old(self).spec_height(),
            final(self).spec_base() == old(self).spec_base(),
    {
        let bs = s.as_bytes();
        let n = bs.len();
        let mut k: usize = 0;
        while k < n
            invariant
                k <= n,
                n == s.spec_bytes().len(),
                bs@ == s.spec_bytes(),
                self.wf(),
                self.spec_width() == old(self).spec_width(),
                self.spec_height() == old(self).spec_height(),
                self.spec_base() == old(self).spec_base(),
                self@ == spec_puts(
                    old(self)@,
                    s.spec_bytes(),
                    k as int,
                    old(self).spec_width(),
                    old(self).spec_height(),
                ),
            decreases n - k,
        {
            self.putc(bs[k]);
            k = k + 1;
        }
    }

    /// The modeled cell buffer, row-major, two bytes per cell.
    pub fn screen(&self) -> (r: &Vec<u8>)
        ensures
            r@ == self@.screen,
    {
        &self.vram
    }
}

/// The boot logger: it renders everything it is handed onto the console.
pub struct Logger {
    pub textvga: TextVGA,
}

impl Logger {
    pub fn new(textvga: TextVGA) -> (r: Self)
        ensures
            r.textvga == textvga,
    {
        Logger { textvga }
    }

    /// Append a string to the console.
    pub fn write_str(&mut self, s: &str)
        requires
            old(self).textvga.wf(),
        ensures
            final(self).textvga.wf(),
            final(self).textvga@ == spec_puts(
                old(self).textvga@,
                s.spec_bytes(),
                s.spec_bytes().len() as int,
                old(self).textvga.spec_width(),
                old(self).textvga.spec_height(),
            ),
    {
        self.textvga.puts(s);
    }
}

} // verus!
