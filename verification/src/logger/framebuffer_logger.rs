use vstd::prelude::*;
use crate::loader::elf;
use crate::loader::elf::read_u32;
use crate::mem::manager::MemoryManager;
use crate::mem::virtual_allocator::MapFetchType;

verus! {

pub const PSF_MAGIC: u32 = 0x864AB572;

/// The colour of text.
pub const INK: u32 = 0x00AAAAAA;

/// Glyphs, each as rows of bits from left to right.
pub struct Font {
    pub numglyph: u64,
    pub bytesperglyph: u64,
    pub height: u64,
    pub width: u64,
    pub glyphs: Vec<u8>,
}

#[verifier::ext_equal]
pub struct FontView {
    pub numglyph: u64,
    pub bytesperglyph: u64,
    pub height: u64,
    pub width: u64,
    pub glyphs: Seq<u8>,
}

impl View for Font {
    type V = FontView;

    open spec fn view(&self) -> FontView {
        FontView {
            numglyph: self.numglyph,
            bytesperglyph: self.bytesperglyph,
            height: self.height,
            width: self.width,
            glyphs: self.glyphs@,
        }
    }
}

pub open spec fn bytes_per_row(width: int) -> int {
    (width + 7) / 8
}

impl FontView {
    /// There are all the bytes that glyphs can need.
    pub open spec fn well_formed(self) -> bool {
        &&& 0 < self.height
        &&& 0 < self.width <= u32::MAX
        &&& self.height * bytes_per_row(self.width as int) <= self.bytesperglyph <= u32::MAX
        &&& self.numglyph <= u32::MAX
        &&& self.numglyph * self.bytesperglyph <= self.glyphs.len()
    }

    /// Whether a glyph has ink at a place.
    pub open spec fn ink(self, code: int, x: int, y: int) -> bool {
        let b = self.glyphs[code * self.bytesperglyph + y * bytes_per_row(self.width as int) + x / 8];
        b & (1u8 << ((7 - x % 8) as u8)) != 0
    }
}

/// A font file can be used.
pub open spec fn font_file_ok(b: Seq<u8>) -> bool {
    &&& b.len() >= 32
    &&& elf::le32(b, 0) == PSF_MAGIC
    &&& elf::le32(b, 8) < b.len()
    &&& elf::le32(b, 28) > 0
    &&& elf::le32(b, 20) / bytes_per_row(elf::le32(b, 28)) > 0
    &&& elf::le32(b, 16) * elf::le32(b, 20) <= b.len() - elf::le32(b, 8)
}

/// The font in a file. How tall its glyphs are follows from how many bytes they have.
pub open spec fn font_in(b: Seq<u8>) -> FontView {
    FontView {
        numglyph: elf::le32(b, 16) as u64,
        bytesperglyph: elf::le32(b, 20) as u64,
        height: (elf::le32(b, 20) / bytes_per_row(elf::le32(b, 28))) as u64,
        width: elf::le32(b, 28) as u64,
        glyphs: b.skip(elf::le32(b, 8)),
    }
}

/// Reads a font file.
pub fn load_font(data: &Vec<u8>) -> (r: Font)
    requires
        font_file_ok(data@),
    ensures
        r@.well_formed(),
        r@ == font_in(data@),
{
    let headersize: u64 = read_u32(data, 8) as u64;
    let numglyph: u64 = read_u32(data, 16) as u64;
    let bytesperglyph: u64 = read_u32(data, 20) as u64;
    let width: u64 = read_u32(data, 28) as u64;
    let bpr: u64 = (width + 7) / 8;
    let height: u64 = bytesperglyph / bpr;
    assert(height * bpr <= bytesperglyph) by (nonlinear_arith)
        requires
            height == bytesperglyph / bpr,
            bpr > 0,
    ;
    let mut glyphs: Vec<u8> = Vec::new();
    let n: usize = data.len();
    let mut i: usize = headersize as usize;
    while i < n
        invariant
            headersize <= i <= n,
            n == data@.len(),
            glyphs@ == data@.subrange(headersize as int, i as int),
        decreases n - i,
    {
        glyphs.push(data[i]);
        assert(data@.subrange(headersize as int, i + 1) =~= data@.subrange(headersize as int, i as int).push(
            data@[i as int]));
        i = i + 1;
    }
    assert(glyphs@ =~= data@.skip(headersize as int));
    Font { numglyph, bytesperglyph, height, width, glyphs }
}

/// A text screen. Its picture is kept in a ring of text rows, so that scrolling moves nothing.
pub struct FramebufferLogger {
    pub fb_base: u64,
    pub glyph_base: u64,
    pub width: u64,
    pub height: u64,
    /// Pixels from one row to the next.
    pub stride: u64,
    pub current_x: u64,
    pub current_y: u64,
    pub font: Font,
    pub scratch: Vec<u32>,
    pub dirty_min_y: u64,
    pub dirty_max_y: u64,
    /// The text row of the ring that is at the top of the screen.
    pub display_start_row: u64,
    pub is_cursor_disabled: bool,
    /// From which row on the cursor fills its cell.
    pub cursor_from: u64,
}

/// The pixel of a picture in a row and column.
pub open spec fn px(s: Seq<u32>, stride: int, r: int, c: int) -> u32 {
    s[r * stride + c]
}

/// A picture without anything on it.
pub open spec fn blank(n: nat) -> Seq<u32> {
    Seq::new(n, |i: int| 0u32)
}

/// Where a character is drawn.
pub struct Cell {
    pub x: int,
    pub top: int,
    pub w: int,
    pub h: int,
}

pub open spec fn in_cell(cell: Cell, r: int, c: int) -> bool {
    cell.top <= r < cell.top + cell.h && cell.x <= c < cell.x + cell.w
}

/// A picture with the pixels of a cell replaced.
pub open spec fn painted(s: Seq<u32>, stride: int, cell: Cell, f: spec_fn(int, int) -> u32) -> Seq<u32> {
    Seq::new(s.len(), |i: int| {
        let r = i / stride;
        let c = i % stride;
        if in_cell(cell, r, c) { f(r - cell.top, c - cell.x) } else { s[i] }
    })
}

pub(crate) proof fn lemma_px_index(stride: int, height: int, r: int, c: int)
    requires
        0 < stride,
        0 <= r < height,
        0 <= c < stride,
    ensures
        0 <= r * stride + c < height * stride,
        (r * stride + c) / stride == r,
        (r * stride + c) % stride == c,
{
    vstd::arithmetic::div_mod::lemma_fundamental_div_mod_converse(r * stride + c, stride, r, c);
    assert(r * stride + c < height * stride) by (nonlinear_arith)
        requires
            0 <= r < height,
            0 <= c < stride,
    ;
    assert(0 <= r * stride) by (nonlinear_arith)
        requires
            0 <= r,
            0 < stride,
    ;
}

proof fn lemma_index_px(stride: int, height: int, i: int)
    requires
        0 < stride,
        0 <= i < height * stride,
    ensures
        0 <= i / stride < height,
        0 <= i % stride < stride,
        (i / stride) * stride + i % stride == i,
{
    vstd::arithmetic::div_mod::lemma_fundamental_div_mod(i, stride);
    assert(0 <= i / stride < height && 0 <= i % stride < stride && (i / stride) * stride + i % stride == i)
        by (nonlinear_arith)
        requires
            0 < stride,
            0 <= i < height * stride,
    ;
}

/// What a text screen is.
#[verifier::ext_equal]
pub struct Screen {
    /// Where the framebuffer and the glyphs are.
    pub fb_base: u64,
    pub glyph_base: u64,
    pub width: u64,
    pub height: u64,
    pub stride: u64,
    pub x: u64,
    pub y: u64,
    pub font: FontView,
    pub pixels: Seq<u32>,
    pub dirty_min: u64,
    pub dirty_max: u64,
    pub start_row: u64,
    pub cursor_disabled: bool,
    pub cursor_from: u64,
}

impl View for FramebufferLogger {
    type V = Screen;

    open spec fn view(&self) -> Screen {
        Screen {
            fb_base: self.fb_base,
            glyph_base: self.glyph_base,
            width: self.width,
            height: self.height,
            stride: self.stride,
            x: self.current_x,
            y: self.current_y,
            font: self.font@,
            pixels: self.scratch@,
            dirty_min: self.dirty_min_y,
            dirty_max: self.dirty_max_y,
            start_row: self.display_start_row,
            cursor_disabled: self.is_cursor_disabled,
            cursor_from: self.cursor_from,
        }
    }
}

/// A screen with nothing on it and the cursor at its top.
pub open spec fn new_screen(fb_base: u64, width: u64, height: u64, stride: u64, data: Seq<u8>, data_at: u64, cursor_from: u64)
    -> Screen
{
    Screen {
        fb_base,
        glyph_base: (data_at + elf::le32(data, 8)) as u64,
        width,
        height,
        stride,
        x: 0,
        y: 0,
        font: font_in(data),
        pixels: blank((height * stride) as nat),
        dirty_min: u64::MAX,
        dirty_max: 0,
        start_row: 0,
        cursor_disabled: false,
        cursor_from,
    }
}

/// What a glyph looks like.
pub open spec fn glyph_px(font: FontView, code: int) -> spec_fn(int, int) -> u32 {
    |y: int, x: int| if font.ink(code, x, y) { INK } else { 0 }
}

pub open spec fn plain(v: u32) -> spec_fn(int, int) -> u32 {
    |y: int, x: int| v
}

impl Screen {
    /// The picture has a whole number of text rows, the cursor is on one of them, and the tables are
    /// large enough.
    pub open spec fn well_formed(self) -> bool {
        &&& self.font.well_formed()
        &&& 0 < self.width <= self.stride
        &&& self.width + 4 * self.font.width <= u64::MAX
        &&& 0 < self.height
        &&& 2 * self.height <= u64::MAX
        &&& self.font.height <= self.height
        &&& self.height % self.font.height == 0
        &&& self.y % self.font.height == 0
        &&& self.y < self.height
        &&& self.x < self.width
        &&& self.start_row < self.rows()
        &&& self.pixels.len() == self.height * self.stride
        &&& self.cursor_from <= self.font.height
        &&& self.dirty_max <= self.height
        &&& self.dirty_max % self.font.height == 0
        &&& self.dirty_min == u64::MAX || self.dirty_min % self.font.height == 0
    }

    /// How many text rows there are.
    pub open spec fn rows(self) -> int {
        (self.height / self.font.height) as int
    }

    /// The text row of the ring that the cursor is in.
    pub open spec fn ring_row(self) -> int {
        (self.start_row + self.y as int / self.font.height as int) % self.rows()
    }

    /// The cell at the cursor, as far as it is on the screen.
    pub open spec fn cell(self) -> Cell {
        let fw = self.font.width as int;
        let fh = self.font.height as int;
        Cell {
            x: self.x as int,
            top: self.ring_row() * fh,
            w: if fw < self.width - self.x { fw } else { self.width - self.x },
            h: fh,
        }
    }

    pub open spec fn dirtied(self, from: int, to: int) -> Screen {
        Screen {
            dirty_min: if from < self.dirty_min { from as u64 } else { self.dirty_min },
            dirty_max: if to > self.dirty_max { to as u64 } else { self.dirty_max },
            ..self
        }
    }

    /// A character has been drawn at the cursor. One without a glyph leaves no mark.
    pub open spec fn char_drawn(self, code: int) -> Screen {
        if code >= self.font.numglyph {
            self
        } else {
            Screen {
                pixels: painted(self.pixels, self.stride as int, self.cell(), glyph_px(self.font, code)),
                ..self.dirtied(self.y as int, self.y + self.font.height)
            }
        }
    }

    /// The cursor has been drawn or wiped off: the lower part of its cell.
    pub open spec fn cursor_drawn(self, visible: bool) -> Screen {
        if self.cursor_disabled {
            self
        } else {
            let c = self.cell();
            let from = self.cursor_from as int;
            let part = Cell { top: c.top + from, h: c.h - from, ..c };
            Screen {
                pixels: painted(self.pixels, self.stride as int, part, plain(if visible { INK } else { 0 })),
                ..self.dirtied(self.y as int, self.y + self.font.height)
            }
        }
    }

    /// The top text row has gone and there is an empty one at the bottom.
    pub open spec fn scrolled(self) -> Screen {
        let start = (self.start_row + 1) % self.rows();
        let bottom = (start + self.rows() - 1) % self.rows();
        let fh = self.font.height as int;
        Screen {
            start_row: start as u64,
            pixels: painted(
                self.pixels, self.stride as int, Cell { x: 0, top: bottom * fh, w: self.stride as int, h: fh }, plain(0)),
            ..self.dirtied(0, self.height as int)
        }
    }

    /// The cursor is at the beginning of the next text row.
    pub open spec fn next_line(self) -> Screen {
        if self.y + self.font.height >= self.height {
            Screen { x: 0, ..self.scrolled() }
        } else {
            Screen { x: 0, y: (self.y + self.font.height) as u64, ..self }
        }
    }

    /// The cursor has moved to the right, which may take it to the next text row.
    pub open spec fn moved_to(self, x: int) -> Screen {
        if x >= self.width { self.next_line() } else { Screen { x: x as u64, ..self } }
    }

    /// The picture is blank, and the cursor is at its top.
    pub open spec fn cleared(self) -> Screen {
        Screen {
            x: 0,
            y: 0,
            start_row: 0,
            dirty_min: u64::MAX,
            dirty_max: 0,
            pixels: blank(self.pixels.len()),
            ..self
        }
    }

    /// A character has been put out. A backspace does not leave its text row.
    pub open spec fn char_put(self, c: char) -> Screen {
        let fw = self.font.width as int;
        if c == '\n' {
            self.next_line()
        } else if c == '\r' {
            Screen { x: 0, ..self }
        } else if c == '\t' {
            self.moved_to(self.x + (4 * fw - self.x as int % (4 * fw)))
        } else if c == '\x08' {
            Screen { x: if self.x <= fw { 0 } else { (self.x - fw) as u64 }, ..self }
        } else {
            self.char_drawn(c as int).moved_to(self.x + fw)
        }
    }

    /// The first `n` characters of a text of `len` bytes have been put out. The cursor is off meanwhile,
    /// and comes back with the last byte.
    pub open spec fn text_put(self, s: Seq<char>, len: int, n: nat) -> Screen
        decreases n,
    {
        if n == 0 {
            self
        } else {
            let a = self.text_put(s, len, (n - 1) as nat);
            let b = if n == 1 { a.cursor_drawn(false) } else { a };
            let d = b.char_put(s[n - 1]);
            if n == len { d.cursor_drawn(true) } else { d }
        }
    }
}

/// Painting a row pixel by pixel.
proof fn lemma_paint_pixel(s: Seq<u32>, stride: int, height: int, cell: Cell, f: spec_fn(int, int) -> u32, v: u32)
    requires
        0 < stride,
        s.len() == height * stride,
        cell.h == 1,
        0 <= cell.top < height,
        0 <= cell.x,
        0 <= cell.w,
        cell.x + cell.w < stride,
        v == f(0, cell.w),
    ensures
        0 <= cell.top * stride + cell.x + cell.w < s.len(),
        painted(s, stride, cell, f).update(cell.top * stride + cell.x + cell.w, v) == painted(
            s, stride, Cell { w: cell.w + 1, ..cell }, f),
{
    let idx = cell.top * stride + cell.x + cell.w;
    lemma_px_index(stride, height, cell.top, cell.x + cell.w);
    assert(idx == cell.top * stride + (cell.x + cell.w));
    let a = painted(s, stride, cell, f).update(idx, v);
    let b = painted(s, stride, Cell { w: cell.w + 1, ..cell }, f);
    assert forall|i: int| 0 <= i < s.len() implies a[i] == b[i] by {
        lemma_index_px(stride, height, i);
    }
    assert(a =~= b);
}

pub open spec fn row_of(f: spec_fn(int, int) -> u32, y: int) -> spec_fn(int, int) -> u32 {
    |r: int, c: int| f(y, c)
}

/// Painting a cell row by row.
proof fn lemma_paint_row(s: Seq<u32>, stride: int, cell: Cell, f: spec_fn(int, int) -> u32)
    requires
        0 <= cell.h,
    ensures
        painted(
            painted(s, stride, cell, f), stride, Cell { top: cell.top + cell.h, h: 1, ..cell }, row_of(f, cell.h))
            == painted(s, stride, Cell { h: cell.h + 1, ..cell }, f),
{
    let a = painted(
        painted(s, stride, cell, f), stride, Cell { top: cell.top + cell.h, h: 1, ..cell }, row_of(f, cell.h));
    let b = painted(s, stride, Cell { h: cell.h + 1, ..cell }, f);
    assert(a =~= b);
}

proof fn lemma_paint_nothing(s: Seq<u32>, stride: int, cell: Cell, f: spec_fn(int, int) -> u32)
    requires
        cell.h <= 0 || cell.w <= 0,
    ensures
        painted(s, stride, cell, f) == s,
{
    assert(painted(s, stride, cell, f) =~= s);
}

/// The text row of the cursor ends on the screen, where another may begin.
pub(crate) proof fn lemma_next_row(s: Screen)
    requires
        s.well_formed(),
    ensures
        (s.y + s.font.height) % s.font.height as int == 0,
        s.y + s.font.height <= s.height,
        0int % s.font.height as int == 0,
{
    let fh = s.font.height as int;
    let y = s.y as int;
    let h = s.height as int;
    vstd::arithmetic::div_mod::lemma_fundamental_div_mod(y, fh);
    vstd::arithmetic::div_mod::lemma_fundamental_div_mod(h, fh);
    let a = y / fh;
    let n = h / fh;
    assert((y + fh) % fh == 0 && 0int % fh == 0) by (nonlinear_arith)
        requires
            y % fh == 0,
            fh > 0,
    ;
    assert(y + fh <= h) by (nonlinear_arith)
        requires
            y == fh * a,
            h == fh * n,
            y < h,
            fh > 0,
    ;
}

pub(crate) proof fn lemma_rows(s: Screen)
    requires
        s.well_formed(),
    ensures
        0 < s.rows(),
        s.rows() * s.font.height == s.height,
        0 <= s.ring_row() < s.rows(),
        forall|k: int| 0 <= k < s.rows() ==> 0 <= #[trigger] (k * s.font.height) && k * s.font.height + s.font.height <= s.height,
        0 <= s.y as int / s.font.height as int,
{
    let fh = s.font.height as int;
    let h = s.height as int;
    let n = s.rows();
    vstd::arithmetic::div_mod::lemma_fundamental_div_mod(h, fh);
    assert(n > 0) by (nonlinear_arith)
        requires
            h == fh * n + 0,
            h > 0,
            fh > 0,
    ;
    assert(n * fh == fh * n) by (nonlinear_arith);
    assert forall|k: int| 0 <= k < n implies 0 <= #[trigger] (k * s.font.height) && k * s.font.height + s.font.height <= h by {
        assert(0 <= k * fh && k * fh + fh <= n * fh) by (nonlinear_arith)
            requires
                0 <= k < n,
                fh > 0,
        ;
    }
    let y = s.y as int;
    assert(0 <= y / fh) by (nonlinear_arith)
        requires
            0 <= y,
            fh > 0,
    ;
    let z = s.start_row + y / fh;
    assert(0 <= z % n < n) by (nonlinear_arith)
        requires
            0 <= z,
            n > 0,
    ;
}

fn wipe(picture: &mut Vec<u32>)
    ensures
        final(picture)@ == blank(old(picture)@.len()),
{
    let ghost n = picture@.len();
    let mut i: usize = 0;
    while i < picture.len()
        invariant
            i <= picture@.len(),
            picture@.len() == n,
            forall|k: int| 0 <= k < i ==> picture@[k] == 0,
        decreases n - i,
    {
        picture.set(i, 0);
        i = i + 1;
    }
    assert(picture@ =~= blank(n));
}

impl FramebufferLogger {
    /// Expands the range of rows that have to be shown anew.
    fn mark_dirty(&mut self, y_start: u64, y_end: u64)
        ensures
            final(self)@ == old(self)@.dirtied(y_start as int, y_end as int),
    {
        if y_start < self.dirty_min_y {
            self.dirty_min_y = y_start;
        }
        if y_end > self.dirty_max_y {
            self.dirty_max_y = y_end;
        }
    }

    /// Fills a cell with one colour.
    fn fill(&mut self, x: u64, top: u64, w: u64, h: u64, v: u32)
        requires
            0 < old(self).stride,
            old(self).scratch@.len() == old(self).height * old(self).stride,
            x + w <= old(self).stride,
            top + h <= old(self).height,
        ensures
            final(self)@ == (Screen {
                pixels: painted(
                    old(self)@.pixels,
                    old(self).stride as int,
                    Cell { x: x as int, top: top as int, w: w as int, h: h as int },
                    plain(v),
                ),
                ..old(self)@
            }),
    {
        let ghost v0 = self@;
        let ghost stride = self.stride as int;
        let ghost height = self.height as int;
        let ghost f = plain(v);
        let mut y: u64 = 0;
        proof {
            lemma_paint_nothing(v0.pixels, stride, Cell { x: x as int, top: top as int, w: w as int, h: 0 }, f);
        }
        while y < h
            invariant
                y <= h,
                f == plain(v),
                stride == self.stride,
                height == self.height,
                0 < stride,
                x + w <= stride,
                top + h <= height,
                v0.pixels.len() == height * stride,
                v0.stride == stride,
                self@ == (Screen {
                    pixels: painted(
                        v0.pixels, stride, Cell { x: x as int, top: top as int, w: w as int, h: y as int }, f),
                    ..v0
                }),
            decreases h - y,
        {
            let ghost s1 = self@.pixels;
            let ghost g = row_of(f, y as int);
            let mut k: u64 = 0;
            proof {
                lemma_paint_nothing(s1, stride, Cell { x: x as int, top: top + y, w: 0, h: 1 }, g);
            }
            while k < w
                invariant
                    k <= w,
                    y < h,
                    f == plain(v),
                    g == row_of(f, y as int),
                    stride == self.stride,
                    height == self.height,
                    0 < stride,
                    x + w <= stride,
                    top + h <= height,
                    s1.len() == height * stride,
                    v0.stride == stride,
                    self@ == (Screen {
                        pixels: painted(s1, stride, Cell { x: x as int, top: top + y, w: k as int, h: 1 }, g),
                        ..v0
                    }),
                decreases w - k,
            {
                proof {
                    lemma_paint_pixel(s1, stride, height, Cell { x: x as int, top: top + y, w: k as int, h: 1 }, g, v);
                    lemma_px_index(stride, height, top + y, x + k);
                }
                let len: usize = self.scratch.len();
                let i: u64 = (top + y) * self.stride + x + k;
                self.scratch.set(i as usize, v);
                k = k + 1;
            }
            proof {
                lemma_paint_row(
                    v0.pixels, stride, Cell { x: x as int, top: top as int, w: w as int, h: y as int }, f);
            }
            y = y + 1;
        }
    }
}

proof fn lemma_glyph_index(font: FontView, code: int, x: int, y: int)
    requires
        font.well_formed(),
        0 <= code < font.numglyph,
        0 <= x < font.width,
        0 <= y < font.height,
    ensures
        0 <= code * font.bytesperglyph + y * bytes_per_row(font.width as int) + x / 8 < font.glyphs.len(),
        0 <= code * font.bytesperglyph,
        0 <= y * bytes_per_row(font.width as int) <= font.bytesperglyph,
{
    let b = font.bytesperglyph as int;
    let r = bytes_per_row(font.width as int);
    let h = font.height as int;
    let n = font.numglyph as int;
    assert(x / 8 < r);
    assert(0 <= y * r && y * r + r <= h * r) by (nonlinear_arith)
        requires
            0 <= y < h,
            0 <= r,
    ;
    assert(0 <= code * b && code * b + b <= n * b) by (nonlinear_arith)
        requires
            0 <= code < n,
            0 <= b,
    ;
}

impl FramebufferLogger {
    /// Whether the glyph of a character has ink at a place.
    fn glyph_bit(&self, code: u64, x: u64, y: u64) -> (r: bool)
        requires
            self.font@.well_formed(),
            code < self.font.numglyph,
            x < self.font.width,
            y < self.font.height,
        ensures
            r == self.font@.ink(code as int, x as int, y as int),
    {
        proof {
            lemma_glyph_index(self.font@, code as int, x as int, y as int);
        }
        let bpr: u64 = (self.font.width + 7) / 8;
        let len: usize = self.font.glyphs.len();
        let i: u64 = code * self.font.bytesperglyph + y * bpr + x / 8;
        let b: u8 = self.font.glyphs[i as usize];
        let bit: u8 = 7 - (x % 8) as u8;
        b & (1u8 << bit) != 0
    }

    /// The text row of the ring that the cursor is in.
    fn ring_row(&self) -> (r: u64)
        requires
            self@.well_formed(),
        ensures
            r == self@.ring_row(),
            r < self@.rows(),
    {
        proof {
            lemma_rows(self@);
        }
        let rows: u64 = self.height / self.font.height;
        (self.display_start_row + self.current_y / self.font.height) % rows
    }

    /// Draws a character at the cursor.
    fn draw_char(&mut self, code: u64)
        requires
            old(self)@.well_formed(),
        ensures
            final(self)@ == old(self)@.char_drawn(code as int),
            final(self)@.well_formed(),
    {
        if code >= self.font.numglyph {
            return;
        }
        let ghost v0 = self@;
        proof {
            lemma_rows(v0);
            lemma_next_row(v0);
        }
        let fh: u64 = self.font.height;
        let fw: u64 = self.font.width;
        let x: u64 = self.current_x;
        let row: u64 = self.ring_row();
        assert(row * fh + fh <= v0.height);
        let top: u64 = row * fh;
        let w: u64 = if fw < self.width - x { fw } else { self.width - x };
        self.mark_dirty(self.current_y, self.current_y + fh);
        let ghost v1 = self@;
        let ghost stride = self.stride as int;
        let ghost height = self.height as int;
        let ghost f = glyph_px(v0.font, code as int);
        let mut y: u64 = 0;
        proof {
            lemma_paint_nothing(v0.pixels, stride, Cell { x: x as int, top: top as int, w: w as int, h: 0 }, f);
        }
        while y < fh
            invariant
                y <= fh,
                fh == v0.font.height,
                fw == v0.font.width,
                w <= fw,
                code < v0.font.numglyph,
                v0.font.well_formed(),
                f == glyph_px(v0.font, code as int),
                stride == self.stride,
                height == self.height,
                0 < stride,
                x + w <= stride,
                top + fh <= height,
                v0.pixels.len() == height * stride,
                v1.stride == stride,
                v1.font == v0.font,
                self@ == (Screen {
                    pixels: painted(
                        v0.pixels, stride, Cell { x: x as int, top: top as int, w: w as int, h: y as int }, f),
                    ..v1
                }),
            decreases fh - y,
        {
            let ghost s1 = self@.pixels;
            let ghost g = row_of(f, y as int);
            let mut k: u64 = 0;
            proof {
                lemma_paint_nothing(s1, stride, Cell { x: x as int, top: top + y, w: 0, h: 1 }, g);
            }
            while k < w
                invariant
                    k <= w,
                    y < fh,
                    fh == v0.font.height,
                    fw == v0.font.width,
                    w <= fw,
                    code < v0.font.numglyph,
                    v0.font.well_formed(),
                    f == glyph_px(v0.font, code as int),
                    g == row_of(f, y as int),
                    stride == self.stride,
                    height == self.height,
                    0 < stride,
                    x + w <= stride,
                    top + fh <= height,
                    s1.len() == height * stride,
                    v1.stride == stride,
                    v1.font == v0.font,
                    self@ == (Screen {
                        pixels: painted(s1, stride, Cell { x: x as int, top: top + y, w: k as int, h: 1 }, g),
                        ..v1
                    }),
                decreases w - k,
            {
                let v: u32 = if self.glyph_bit(code, k, y) { INK } else { 0 };
                proof {
                    lemma_paint_pixel(s1, stride, height, Cell { x: x as int, top: top + y, w: k as int, h: 1 }, g, v);
                    lemma_px_index(stride, height, top + y, x + k);
                }
                let len: usize = self.scratch.len();
                let i: u64 = (top + y) * self.stride + x + k;
                self.scratch.set(i as usize, v);
                k = k + 1;
            }
            proof {
                lemma_paint_row(
                    v0.pixels, stride, Cell { x: x as int, top: top as int, w: w as int, h: y as int }, f);
            }
            y = y + 1;
        }
    }

    /// Draws the cursor or wipes it off.
    fn draw_cursor(&mut self, is_visible: bool)
        requires
            old(self)@.well_formed(),
        ensures
            final(self)@ == old(self)@.cursor_drawn(is_visible),
            final(self)@.well_formed(),
    {
        if self.is_cursor_disabled {
            return;
        }
        let ghost v0 = self@;
        proof {
            lemma_rows(v0);
            lemma_next_row(v0);
        }
        let fh: u64 = self.font.height;
        let fw: u64 = self.font.width;
        let x: u64 = self.current_x;
        let row: u64 = self.ring_row();
        assert(row * fh + fh <= v0.height);
        let w: u64 = if fw < self.width - x { fw } else { self.width - x };
        self.mark_dirty(self.current_y, self.current_y + fh);
        let v: u32 = if is_visible { INK } else { 0 };
        let from: u64 = self.cursor_from;
        self.fill(x, row * fh + from, w, fh - from, v);
    }

    pub fn disable_cursor(&mut self)
        ensures
            final(self)@ == (Screen { cursor_disabled: true, ..old(self)@ }),
    {
        self.is_cursor_disabled = true;
    }

    /// Scrolls by one text row. The cursor stays in the last one.
    fn scroll_screen(&mut self)
        requires
            old(self)@.well_formed(),
        ensures
            final(self)@ == old(self)@.scrolled(),
            final(self)@.well_formed(),
    {
        let ghost v0 = self@;
        proof {
            lemma_rows(v0);
            lemma_next_row(v0);
        }
        let fh: u64 = self.font.height;
        let rows: u64 = self.height / fh;
        self.display_start_row = (self.display_start_row + 1) % rows;
        let bottom: u64 = (self.display_start_row + rows - 1) % rows;
        assert(bottom * fh + fh <= v0.height);
        let stride: u64 = self.stride;
        self.mark_dirty(0, self.height);
        self.fill(0, bottom * fh, stride, fh, 0);
    }

    fn next_line(&mut self)
        requires
            old(self)@.well_formed(),
        ensures
            final(self)@ == old(self)@.next_line(),
            final(self)@.well_formed(),
    {
        let ghost v0 = self@;
        self.current_x = 0;
        if self.current_y + self.font.height >= self.height {
            self.scroll_screen();
            assert(self@ == v0.next_line());
        } else {
            let ghost y = self.current_y as int;
            let ghost fh = self.font.height as int;
            self.current_y = self.current_y + self.font.height;
            assert((y + fh) % fh == 0) by (nonlinear_arith)
                requires
                    y % fh == 0,
                    fh > 0,
            ;
        }
    }

    fn move_to(&mut self, x: u64)
        requires
            old(self)@.well_formed(),
        ensures
            final(self)@ == old(self)@.moved_to(x as int),
            final(self)@.well_formed(),
    {
        if x >= self.width {
            self.next_line();
        } else {
            self.current_x = x;
        }
    }

    /// Puts a character out.
    fn put_char(&mut self, c: char)
        requires
            old(self)@.well_formed(),
        ensures
            final(self)@ == old(self)@.char_put(c),
            final(self)@.well_formed(),
    {
        let fw: u64 = self.font.width;
        if c == '\n' {
            self.next_line();
        } else if c == '\r' {
            self.current_x = 0;
        } else if c == '\t' {
            let tab: u64 = fw * 4;
            self.move_to(self.current_x + (tab - self.current_x % tab));
        } else if c == '\x08' {
            if self.current_x <= fw {
                self.current_x = 0;
            } else {
                self.current_x = self.current_x - fw;
            }
        } else {
            let x: u64 = self.current_x;
            self.draw_char(c as u64);
            self.move_to(x + fw);
        }
    }

    /// Puts a text out, `len` bytes long.
    pub fn write(&mut self, s: &Vec<char>, len: u64)
        requires
            old(self)@.well_formed(),
        ensures
            final(self)@ == old(self)@.text_put(s@, len as int, s@.len()),
            final(self)@.well_formed(),
    {
        let mut i: usize = 0;
        while i < s.len()
            invariant
                i <= s@.len(),
                self@.well_formed(),
                self@ == old(self)@.text_put(s@, len as int, i as nat),
            decreases s@.len() - i,
        {
            if i == 0 {
                self.draw_cursor(false);
            }
            self.put_char(s[i]);
            i = i + 1;
            if i as u64 == len {
                self.draw_cursor(true);
            }
        }
    }

    /// A blank screen of a size, at `fb_base`, for a font file that lies at `data_at`. The cursor fills its
    /// cell from row `cursor_from` on.
    pub fn init(fb_base: u64, width: u64, height: u64, stride: u64, data: &Vec<u8>, data_at: u64, cursor_from: u64,
        fb: &mut Vec<u32>) -> (r: FramebufferLogger)
        requires
            font_file_ok(data@),
            new_screen(fb_base, width, height, stride, data@, data_at, cursor_from).well_formed(),
            data_at + data@.len() <= u64::MAX,
            old(fb)@.len() == height * stride,
        ensures
            r@ == new_screen(fb_base, width, height, stride, data@, data_at, cursor_from),
            r@.well_formed(),
            final(fb)@ == blank(old(fb)@.len()),
    {
        let font: Font = load_font(data);
        let glyph_base: u64 = data_at + read_u32(data, 8) as u64;
        let n: usize = fb.len();
        let mut scratch: Vec<u32> = Vec::new();
        while scratch.len() < n
            invariant
                scratch@.len() <= n,
                forall|i: int| 0 <= i < scratch@.len() ==> scratch@[i] == 0,
            decreases n - scratch@.len(),
        {
            scratch.push(0);
        }
        assert(scratch@ =~= blank(n as nat));
        wipe(fb);
        FramebufferLogger {
            fb_base,
            glyph_base,
            width,
            height,
            stride,
            current_x: 0,
            current_y: 0,
            font,
            scratch,
            dirty_min_y: u64::MAX,
            dirty_max_y: 0,
            display_start_row: 0,
            is_cursor_disabled: false,
            cursor_from,
        }
    }

    /// Wipes the picture and what is on the screen. The cursor is at its top.
    pub fn clear_screen(&mut self, fb: &mut Vec<u32>)
        requires
            old(self)@.well_formed(),
            old(fb)@.len() == old(self)@.pixels.len(),
        ensures
            final(self)@ == old(self)@.cleared(),
            final(fb)@ == blank(old(fb)@.len()),
            final(self)@.well_formed(),
    {
        let ghost fh = self.font.height as int;
        proof {
            lemma_rows(self@);
            assert(0int % fh == 0) by (nonlinear_arith)
                requires
                    fh > 0,
            ;
        }
        wipe(&mut self.scratch);
        wipe(fb);
        self.display_start_row = 0;
        self.current_x = 0;
        self.current_y = 0;
        self.dirty_min_y = u64::MAX;
        self.dirty_max_y = 0;
    }

    /// Looks up where the framebuffer and the glyphs are in the new address space, and uses them there.
    /// They have to be mapped.
    pub fn relocate_framebuffer(&mut self, memory: &MemoryManager)
        requires
            memory.well_formed(),
            memory@.virt_at(old(self).fb_base, 0, MapFetchType::Any) is Some,
            memory@.virt_at(old(self).glyph_base, 0, MapFetchType::Kernel) is Some,
        ensures
            final(self)@ == (Screen {
                fb_base: memory@.virt_at(old(self).fb_base, 0, MapFetchType::Any)->0,
                glyph_base: memory@.virt_at(old(self).glyph_base, 0, MapFetchType::Kernel)->0,
                ..old(self)@
            }),
    {
        let fb: Option<u64> = memory.get_virtual_address(self.fb_base, 0, MapFetchType::Any);
        let glyphs: Option<u64> = memory.get_virtual_address(self.glyph_base, 0, MapFetchType::Kernel);
        if let Some(b) = fb {
            if let Some(g) = glyphs {
                self.fb_base = b;
                self.glyph_base = g;
            }
        }
    }
}

/// The row of the ring that is shown in a row of the screen.
pub open spec fn source_row(s: Screen, r: int) -> int {
    ((s.start_row + r / s.font.height as int) % s.rows()) * s.font.height + r % s.font.height as int
}

/// What the screen shows from a row on.
pub open spec fn shown_px(s: Screen, from: int) -> spec_fn(int, int) -> u32 {
    |y: int, x: int| px(s.pixels, s.stride as int, source_row(s, from + y), x)
}

impl Screen {
    /// What is on the screen once everything that has changed has been shown.
    pub open spec fn flushed(self, fb: Seq<u32>) -> Seq<u32> {
        if self.dirty_max <= self.dirty_min {
            fb
        } else {
            painted(
                fb,
                self.stride as int,
                Cell {
                    x: 0,
                    top: self.dirty_min as int,
                    w: self.stride as int,
                    h: self.dirty_max - self.dirty_min,
                },
                shown_px(self, self.dirty_min as int),
            )
        }
    }
}

pub(crate) proof fn lemma_source_row(s: Screen, r: int)
    requires
        s.well_formed(),
        0 <= r < s.height,
    ensures
        0 <= source_row(s, r) < s.height,
        0 <= r / s.font.height as int,
        0 <= r % s.font.height as int,
        0 <= (s.start_row + r / s.font.height as int) % s.rows() < s.rows(),
        0 <= ((s.start_row + r / s.font.height as int) % s.rows()) * s.font.height <= s.height,
{
    lemma_rows(s);
    let fh = s.font.height as int;
    let n = s.rows();
    assert(0 <= r / fh && 0 <= r % fh < fh) by (nonlinear_arith)
        requires
            0 <= r,
            fh > 0,
    ;
    let z = s.start_row + r / fh;
    assert(0 <= z % n < n) by (nonlinear_arith)
        requires
            0 <= z,
            n > 0,
    ;
    let k = z % n;
    assert(0 <= k * s.font.height && k * s.font.height + s.font.height <= s.height);
}

impl FramebufferLogger {
    /// Shows everything that has changed.
    pub fn flush_log(&mut self, fb: &mut Vec<u32>)
        requires
            old(self)@.well_formed(),
            old(fb)@.len() == old(self)@.pixels.len(),
        ensures
            final(fb)@ == old(self)@.flushed(old(fb)@),
            final(self)@ == (if old(self)@.dirty_max <= old(self)@.dirty_min {
                old(self)@
            } else {
                Screen { dirty_min: u64::MAX, dirty_max: 0, ..old(self)@ }
            }),
            final(self)@.well_formed(),
    {
        if self.dirty_max_y <= self.dirty_min_y {
            return;
        }
        let ghost v0 = self@;
        let ghost fb0 = fb@;
        let from: u64 = self.dirty_min_y;
        let to: u64 = self.dirty_max_y;
        let fh: u64 = self.font.height;
        let rows: u64 = self.height / fh;
        let stride: u64 = self.stride;
        let ghost f = shown_px(v0, from as int);
        proof {
            lemma_rows(v0);
            lemma_paint_nothing(fb0, stride as int, Cell { x: 0, top: from as int, w: stride as int, h: 0 }, f);
        }
        let mut r: u64 = from;
        while r < to
            invariant
                from <= r <= to,
                to <= v0.height,
                v0.well_formed(),
                self@ == v0,
                fh == v0.font.height,
                rows == v0.rows(),
                stride == v0.stride,
                fb0.len() == v0.height * stride,
                f == shown_px(v0, from as int),
                fb@ == painted(
                    fb0, stride as int, Cell { x: 0, top: from as int, w: stride as int, h: r - from }, f),
            decreases to - r,
        {
            proof {
                lemma_source_row(v0, r as int);
            }
            let src: u64 = ((self.display_start_row + r / fh) % rows) * fh + r % fh;
            let ghost y = r - from;
            let ghost g = row_of(f, y);
            let ghost s1 = fb@;
            proof {
                lemma_paint_nothing(s1, stride as int, Cell { x: 0, top: r as int, w: 0, h: 1 }, g);
            }
            let mut k: u64 = 0;
            while k < stride
                invariant
                    k <= stride,
                    from <= r < to,
                    to <= v0.height,
                    v0.well_formed(),
                    self@ == v0,
                    stride == v0.stride,
                    src == source_row(v0, r as int),
                    src < v0.height,
                    y == r - from,
                    f == shown_px(v0, from as int),
                    g == row_of(f, y),
                    s1.len() == v0.height * stride,
                    fb@ == painted(s1, stride as int, Cell { x: 0, top: r as int, w: k as int, h: 1 }, g),
                decreases stride - k,
            {
                proof {
                    lemma_px_index(stride as int, v0.height as int, src as int, k as int);
                    lemma_px_index(stride as int, v0.height as int, r as int, k as int);
                }
                let len: usize = self.scratch.len();
                let i: u64 = src * stride + k;
                let v: u32 = self.scratch[i as usize];
                proof {
                    lemma_paint_pixel(
                        s1, stride as int, v0.height as int, Cell { x: 0, top: r as int, w: k as int, h: 1 }, g, v);
                }
                let flen: usize = fb.len();
                let j: u64 = r * stride + k;
                fb.set(j as usize, v);
                k = k + 1;
            }
            proof {
                lemma_paint_row(fb0, stride as int, Cell { x: 0, top: from as int, w: stride as int, h: y }, f);
            }
            r = r + 1;
        }
        let ghost fhi = fh as int;
        assert(0int % fhi == 0) by (nonlinear_arith)
            requires
                fhi > 0,
        ;
        self.dirty_min_y = u64::MAX;
        self.dirty_max_y = 0;
    }
}

/// Scrolling moves every text row up by one: the row of the ring that was shown in a place is shown
/// one place higher, and the one that was at the top is at the bottom.
pub proof fn law_scrolled(s: Screen, k: int)
    requires
        s.well_formed(),
        0 <= k < s.rows(),
    ensures
        ({
            let t = s.scrolled();
            let row = (t.start_row + k) % s.rows();
            if k == s.rows() - 1 {
                row == (s.start_row as int)
            } else {
                row == (s.start_row + k + 1) % s.rows()
            }
        }),
{
    lemma_rows(s);
    let n = s.rows();
    let a = s.start_row as int;
    let b = (a + 1) % n;
    if a + 1 < n {
        vstd::arithmetic::div_mod::lemma_small_mod((a + 1) as nat, n as nat);
    } else {
        assert(a + 1 == n);
        vstd::arithmetic::div_mod::lemma_mod_self_0(n);
    }
    if a + 1 < n {
        if k == n - 1 {
            assert(b + k == a + n);
            vstd::arithmetic::div_mod::lemma_mod_add_multiples_vanish(a, n);
            vstd::arithmetic::div_mod::lemma_small_mod(a as nat, n as nat);
        }
    } else {
        vstd::arithmetic::div_mod::lemma_small_mod(k as nat, n as nat);
        if k < n - 1 {
            assert(a + k + 1 == n + k);
            vstd::arithmetic::div_mod::lemma_mod_add_multiples_vanish(k, n);
        }
    }
}

} // verus!
