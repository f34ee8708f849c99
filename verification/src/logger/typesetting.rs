use vstd::prelude::*;
use vstd::arithmetic::div_mod::{
    lemma_fundamental_div_mod, lemma_fundamental_div_mod_converse, lemma_mod_self_0, lemma_small_mod,
};
use crate::loader::elf;
use crate::logger::framebuffer_logger::{
    Cell, FontView, Screen, font_file_ok, font_in, law_scrolled, lemma_next_row, lemma_px_index, lemma_rows,
    lemma_source_row, painted, px,
};

verus! {

/// What a screen shows: the pixel in row `dy` of text row `t`, counted from the top, and column `x`.
pub open spec fn seen(s: Screen, t: int, dy: int, x: int) -> u32 {
    px(s.pixels, s.stride as int, ((s.start_row + t) % s.rows()) * s.font.height + dy, x)
}

/// What a glyph has in a place: a bit of the glyph's bytes, whose rows begin at a whole byte and whose
/// leftmost pixel is the highest bit.
pub open spec fn glyph_dot(font: FontView, code: int, dy: int, dx: int) -> u32 {
    let at = code * font.bytesperglyph + dy * ((font.width + 7) / 8) + dx / 8;
    if font.glyphs[at] & (128u8 >> ((dx % 8) as u8)) != 0 { 0x00AAAAAA } else { 0 }
}

/// A place on the screen.
pub open spec fn on_screen(s: Screen, t: int, dy: int, x: int) -> bool {
    0 <= t < s.rows() && 0 <= dy < s.font.height && 0 <= x < s.stride
}

/// A place in the cell at the cursor.
pub open spec fn at_cursor(s: Screen, t: int, x: int) -> bool {
    t * s.font.height == s.y && s.x <= x < s.x + s.font.width && x < s.width
}

/// A character that is drawn rather than obeyed.
pub open spec fn printable(c: char) -> bool {
    c != '\n' && c != '\r' && c != '\t' && c != '\x08'
}

proof fn lemma_same_row(n: int, start: int, a: int, b: int)
    requires
        0 < n,
        0 <= start,
        0 <= a < n,
        0 <= b < n,
        (start + a) % n == (start + b) % n,
    ensures
        a == b,
{
    lemma_fundamental_div_mod(start + a, n);
    lemma_fundamental_div_mod(start + b, n);
    let p = (start + a) / n;
    let q = (start + b) / n;
    assert(a == b) by (nonlinear_arith)
        requires
            a - b == n * p - n * q,
            -n < a - b < n,
    ;
}

proof fn lemma_row_apart(fh: int, q: int, g: int, dy: int, from: int, h: int)
    requires
        0 < fh,
        0 <= dy < fh,
        0 <= from,
        0 <= h,
        from + h <= fh,
    ensures
        (g * fh + from <= q * fh + dy < g * fh + from + h) == (q == g && from <= dy < from + h),
{
    if q < g {
        assert(q * fh + fh <= g * fh) by (nonlinear_arith)
            requires
                q + 1 <= g,
                0 < fh,
        ;
    } else if g < q {
        assert(g * fh + fh <= q * fh) by (nonlinear_arith)
            requires
                g + 1 <= q,
                0 < fh,
        ;
    }
}

/// Painting a part of ring row `g` changes what is seen in that part, and nothing else.
proof fn lemma_paint_seen(
    s: Screen, g: int, from: int, cell: Cell, f: spec_fn(int, int) -> u32, t: int, dy: int, x: int,
)
    requires
        s.well_formed(),
        0 <= g < s.rows(),
        0 <= from,
        0 <= cell.h,
        from + cell.h <= s.font.height,
        cell.top == g * s.font.height + from,
        on_screen(s, t, dy, x),
    ensures
        seen(Screen { pixels: painted(s.pixels, s.stride as int, cell, f), ..s }, t, dy, x)
            == if (s.start_row + t) % s.rows() == g && from <= dy < from + cell.h && cell.x <= x < cell.x + cell.w {
            f(dy - from, x - cell.x)
        } else {
            seen(s, t, dy, x)
        },
{
    lemma_rows(s);
    let fh = s.font.height as int;
    let q = (s.start_row + t) % s.rows();
    let z = s.start_row + t;
    let n = s.rows();
    assert(0 <= z % n < n) by (nonlinear_arith)
        requires
            0 <= z,
            n > 0,
    ;
    assert(0 <= q * s.font.height && q * s.font.height + s.font.height <= s.height);
    lemma_px_index(s.stride as int, s.height as int, q * fh + dy, x);
    lemma_row_apart(fh, q, g, dy, from, cell.h);
    if q == g {
        assert(q * fh + dy - cell.top == dy - from);
    }
}

proof fn lemma_cursor_row(s: Screen, t: int)
    requires
        s.well_formed(),
        0 <= t < s.rows(),
    ensures
        0 <= s.y as int / s.font.height as int,
        (s.y as int / s.font.height as int) < s.rows(),
        ((s.start_row + t) % s.rows() == s.ring_row()) == (t * s.font.height == s.y),
        t * s.font.height == s.y ==> t == s.y as int / s.font.height as int,
{
    lemma_rows(s);
    let fh = s.font.height as int;
    let y = s.y as int;
    let u = y / fh;
    lemma_fundamental_div_mod(y, fh);
    assert(u < s.rows()) by (nonlinear_arith)
        requires
            y == fh * u,
            y < s.rows() * fh,
            fh > 0,
    ;
    assert(y == u * fh) by (nonlinear_arith)
        requires
            y == fh * u,
    ;
    if (s.start_row + t) % s.rows() == s.ring_row() {
        lemma_same_row(s.rows(), s.start_row as int, t, u);
    }
    if t * fh == y {
        assert(t == u) by (nonlinear_arith)
            requires
                t * fh == u * fh,
                fh > 0,
        ;
    }
}

/// What is seen once a glyph has been drawn at the cursor.
pub open spec fn seen_with(s: Screen, code: int, t: int, dy: int, x: int) -> u32 {
    if at_cursor(s, t, x) { glyph_dot(s.font, code, dy, x - s.x) } else { seen(s, t, dy, x) }
}

proof fn lemma_glyph_seen(s: Screen, code: int, t: int, dy: int, x: int)
    requires
        s.well_formed(),
        code < s.font.numglyph,
        on_screen(s, t, dy, x),
    ensures
        seen(s.char_drawn(code), t, dy, x) == seen_with(s, code, t, dy, x),
{
    lemma_rows(s);
    lemma_cursor_row(s, t);
    let f = crate::logger::framebuffer_logger::glyph_px(s.font, code);
    lemma_paint_seen(s, s.ring_row(), 0, s.cell(), f, t, dy, x);
    let m = ((x - s.x) % 8) as u8;
    assert((1u8 << ((7 - m) as u8)) == (128u8 >> m)) by (bit_vector)
        requires
            m < 8,
    ;
}

/// Scrolling shows every text row one place higher, and an empty one at the bottom.
proof fn lemma_scroll_seen(s: Screen, t: int, dy: int, x: int)
    requires
        s.well_formed(),
        on_screen(s, t, dy, x),
    ensures
        s.scrolled().rows() == s.rows(),
        seen(s.scrolled(), t, dy, x) == if t + 1 < s.rows() { seen(s, t + 1, dy, x) } else { 0 },
{
    lemma_rows(s);
    law_scrolled(s, t);
    law_scrolled(s, s.rows() - 1);
    let n = s.rows();
    let a = s.start_row as int;
    if a + 1 < n {
        lemma_small_mod((a + 1) as nat, n as nat);
    } else {
        lemma_mod_self_0(n);
    }
    let start = (a + 1) % n;
    let bottom = (start + n - 1) % n;
    assert(bottom == a);
    let fh = s.font.height as int;
    let moved = Screen { start_row: start as u64, ..s.dirtied(0, s.height as int) };
    let cell = Cell { x: 0, top: bottom * fh, w: s.stride as int, h: fh };
    let f = crate::logger::framebuffer_logger::plain(0);
    lemma_next_row(s);
    assert(moved.well_formed());
    lemma_paint_seen(moved, bottom, 0, cell, f, t, dy, x);
    if t + 1 < n && (start + t) % n == bottom {
        lemma_same_row(n, start, t, n - 1);
    }
    assert((start + (n - 1)) == start + n - 1);
}

/// A character with a glyph replaces what is in the cell at the cursor, and the cursor moves on by one
/// cell. From the last cell of a text row it moves to the beginning of the next, and from that of the
/// bottom row the picture moves up by one text row.
pub proof fn law_glyph_put(s: Screen, c: char, t: int, dy: int, x: int)
    requires
        s.well_formed(),
        printable(c),
        (c as int) < s.font.numglyph,
        on_screen(s, t, dy, x),
    ensures
        ({
            let r = s.char_put(c);
            let last = s.x + s.font.width >= s.width;
            let bottom = s.y + s.font.height >= s.height;
            &&& r.x == (if last { 0 } else { s.x + s.font.width })
            &&& r.y == (if last && !bottom { s.y + s.font.height } else { s.y as int })
            &&& seen(r, t, dy, x) == if last && bottom {
                if t + 1 < s.rows() { seen_with(s, c as int, t + 1, dy, x) } else { 0 }
            } else {
                seen_with(s, c as int, t, dy, x)
            }
        }),
{
    let d = s.char_drawn(c as int);
    lemma_rows(s);
    lemma_next_row(s);
    lemma_glyph_seen(s, c as int, t, dy, x);
    assert(d.well_formed());
    if s.x + s.font.width >= s.width && s.y + s.font.height >= s.height {
        lemma_scroll_seen(d, t, dy, x);
        if t + 1 < s.rows() {
            lemma_glyph_seen(s, c as int, t + 1, dy, x);
        }
    }
}

/// A character without a glyph moves the cursor as one with a glyph does.
pub proof fn law_no_glyph_put(s: Screen, c: char)
    requires
        s.well_formed(),
        printable(c),
        (c as int) >= s.font.numglyph,
    ensures
        s.x + s.font.width < s.width ==> s.char_put(c) == (Screen { x: (s.x + s.font.width) as u64, ..s }),
        s.x + s.font.width >= s.width ==> s.char_put(c) == s.char_put('\n'),
{
}

/// A new line draws nothing and takes the cursor to the beginning of the next text row; from the bottom
/// row the picture moves up by one text row.
pub proof fn law_newline_put(s: Screen, t: int, dy: int, x: int)
    requires
        s.well_formed(),
        on_screen(s, t, dy, x),
    ensures
        ({
            let r = s.char_put('\n');
            let bottom = s.y + s.font.height >= s.height;
            &&& r.x == 0
            &&& r.y == (if bottom { s.y as int } else { s.y + s.font.height })
            &&& seen(r, t, dy, x) == if !bottom {
                seen(s, t, dy, x)
            } else if t + 1 < s.rows() {
                seen(s, t + 1, dy, x)
            } else {
                0
            }
        }),
{
    lemma_next_row(s);
    if s.y + s.font.height >= s.height {
        lemma_scroll_seen(s, t, dy, x);
    }
}

/// A carriage return takes the cursor to the beginning of its text row, a backspace one cell back but no
/// further than that, and neither draws anything.
pub proof fn law_cursor_back(s: Screen)
    requires
        s.well_formed(),
    ensures
        s.char_put('\r') == (Screen { x: 0, ..s }),
        ({
            let r = s.char_put('\x08');
            &&& r == (Screen { x: r.x, ..s })
            &&& s.x >= s.font.width ==> r.x + s.font.width == s.x
            &&& s.x < s.font.width ==> r.x == 0
        }),
{
}

/// A tab draws nothing. It takes the cursor to the next column that is a multiple of four cells, or as a
/// new line does where that column is not on the screen.
pub proof fn law_tab_put(s: Screen, k: int)
    requires
        s.well_formed(),
        0 <= k,
        k * (4 * s.font.width) <= s.x < (k + 1) * (4 * s.font.width),
    ensures
        (k + 1) * (4 * s.font.width) < s.width
            ==> s.char_put('\t') == (Screen { x: ((k + 1) * (4 * s.font.width)) as u64, ..s }),
        (k + 1) * (4 * s.font.width) >= s.width ==> s.char_put('\t') == s.char_put('\n'),
{
    let w = 4 * s.font.width as int;
    let x = s.x as int;
    assert((k + 1) * w == k * w + w) by (nonlinear_arith);
    lemma_fundamental_div_mod_converse(x, w, k, x - k * w);
}

/// The cursor fills the lower part of its cell with ink when it is shown, and empties it when it is taken
/// away; nothing else on the screen changes, and the cursor stays where it is.
pub proof fn law_cursor_drawn(s: Screen, visible: bool, t: int, dy: int, x: int)
    requires
        s.well_formed(),
        !s.cursor_disabled,
        on_screen(s, t, dy, x),
    ensures
        ({
            let r = s.cursor_drawn(visible);
            &&& r.x == s.x && r.y == s.y
            &&& seen(r, t, dy, x) == if at_cursor(s, t, x) && s.cursor_from <= dy {
                if visible { 0x00AAAAAA } else { 0 }
            } else {
                seen(s, t, dy, x)
            }
        }),
{
    lemma_rows(s);
    lemma_cursor_row(s, t);
    let c = s.cell();
    let from = s.cursor_from as int;
    let part = Cell { top: c.top + from, h: c.h - from, ..c };
    let f = crate::logger::framebuffer_logger::plain(if visible { 0x00AAAAAA } else { 0 });
    lemma_paint_seen(s, s.ring_row(), from, part, f, t, dy, x);
}

proof fn lemma_put_keeps(s: Screen, c: char)
    requires
        s.well_formed(),
    ensures
        s.char_put(c).well_formed(),
        s.char_put(c).font == s.font,
        s.char_put(c).width == s.width,
        s.char_put(c).height == s.height,
        s.char_put(c).stride == s.stride,
        s.char_put(c).cursor_disabled == s.cursor_disabled,
{
    lemma_rows(s);
    lemma_next_row(s);
    let n = s.rows();
    let a = s.start_row + 1;
    assert(0 <= a % n < n) by (nonlinear_arith)
        requires
            0 <= a,
            n > 0,
    ;
}

proof fn lemma_cursor_keeps(s: Screen, visible: bool)
    requires
        s.well_formed(),
    ensures
        s.cursor_drawn(visible).well_formed(),
        s.cursor_drawn(visible).font == s.font,
        s.cursor_drawn(visible).width == s.width,
        s.cursor_drawn(visible).height == s.height,
        s.cursor_drawn(visible).stride == s.stride,
        s.cursor_drawn(visible).cursor_disabled == s.cursor_disabled,
        s.cursor_drawn(visible).x == s.x,
        s.cursor_drawn(visible).y == s.y,
{
    lemma_rows(s);
    lemma_next_row(s);
}

/// The framebuffer shows what the screen shows in every row that is not waiting to be shown.
pub open spec fn in_step(s: Screen, fb: Seq<u32>) -> bool {
    forall|r: int, x: int| 0 <= r < s.height && 0 <= x < s.stride && !(s.dirty_min <= r < s.dirty_max)
        ==> #[trigger] px(fb, s.stride as int, r, x)
            == seen(s, r / s.font.height as int, r % s.font.height as int, x)
}

/// The framebuffer shows what the screen shows everywhere.
pub open spec fn shows(s: Screen, fb: Seq<u32>) -> bool {
    forall|r: int, x: int| 0 <= r < s.height && 0 <= x < s.stride
        ==> #[trigger] px(fb, s.stride as int, r, x)
            == seen(s, r / s.font.height as int, r % s.font.height as int, x)
}

/// Flushing brings the whole screen to the framebuffer, if only the rows that wait are behind.
pub proof fn law_flush_shows(s: Screen, fb: Seq<u32>)
    requires
        s.well_formed(),
        fb.len() == s.pixels.len(),
        in_step(s, fb),
    ensures
        shows(s, s.flushed(fb)),
{
    let out = s.flushed(fb);
    assert forall|r: int, x: int| 0 <= r < s.height && 0 <= x < s.stride implies
        #[trigger] px(out, s.stride as int, r, x)
            == seen(s, r / s.font.height as int, r % s.font.height as int, x) by {
        lemma_px_index(s.stride as int, s.height as int, r, x);
        assert(!(s.dirty_min <= r < s.dirty_max) ==> px(fb, s.stride as int, r, x)
            == seen(s, r / s.font.height as int, r % s.font.height as int, x));
    }
}

proof fn lemma_row_place(s: Screen, r: int)
    requires
        s.well_formed(),
        0 <= r < s.height,
    ensures
        0 <= r / s.font.height as int,
        r / (s.font.height as int) < s.rows(),
        0 <= r % s.font.height as int,
        r % (s.font.height as int) < s.font.height,
        (r / s.font.height as int) * s.font.height == s.y ==> s.y <= r < s.y + s.font.height,
{
    lemma_rows(s);
    lemma_source_row(s, r);
    let fh = s.font.height as int;
    let q = r / fh;
    lemma_fundamental_div_mod(r, fh);
    assert(q < s.rows() && q * fh == fh * q && 0 <= r % fh < fh) by (nonlinear_arith)
        requires
            q == r / fh,
            r == fh * q + r % fh,
            0 <= r < s.rows() * fh,
            fh > 0,
    ;
}

proof fn lemma_change_in_step(s: Screen, r: Screen, fb: Seq<u32>)
    requires
        s.well_formed(),
        in_step(s, fb),
        r.stride == s.stride,
        r.height == s.height,
        r.font == s.font,
        r.dirty_min <= s.dirty_min,
        r.dirty_max >= s.dirty_max,
        forall|t: int, dy: int, x: int| on_screen(s, t, dy, x) && t * s.font.height != s.y
            ==> #[trigger] seen(r, t, dy, x) == seen(s, t, dy, x),
        r.dirty_min <= s.y && s.y + s.font.height <= r.dirty_max
            || forall|t: int, dy: int, x: int| on_screen(s, t, dy, x)
                ==> #[trigger] seen(r, t, dy, x) == seen(s, t, dy, x),
    ensures
        in_step(r, fb),
{
    assert forall|i: int, x: int| 0 <= i < r.height && 0 <= x < r.stride && !(r.dirty_min <= i < r.dirty_max)
        implies #[trigger] px(fb, r.stride as int, i, x)
            == seen(r, i / r.font.height as int, i % r.font.height as int, x) by {
        lemma_row_place(s, i);
        let t = i / r.font.height as int;
        let dy = i % r.font.height as int;
        assert(on_screen(s, t, dy, x));
        assert(seen(r, t, dy, x) == seen(s, t, dy, x));
    }
}

/// Putting a character out leaves no row of the framebuffer behind that does not wait to be shown.
pub proof fn law_put_in_step(s: Screen, c: char, fb: Seq<u32>)
    requires
        s.well_formed(),
        in_step(s, fb),
    ensures
        in_step(s.char_put(c), fb),
{
    let r = s.char_put(c);
    lemma_put_keeps(s, c);
    lemma_next_row(s);
    if r.dirty_min == 0 && r.dirty_max == s.height {
    } else {
        assert forall|t: int, dy: int, x: int| on_screen(s, t, dy, x) && t * s.font.height != s.y
            implies #[trigger] seen(r, t, dy, x) == seen(s, t, dy, x) by {
            if printable(c) && (c as int) < s.font.numglyph {
                law_glyph_put(s, c, t, dy, x);
            }
        }
        if !(printable(c) && (c as int) < s.font.numglyph) {
            assert forall|t: int, dy: int, x: int| on_screen(s, t, dy, x)
                implies #[trigger] seen(r, t, dy, x) == seen(s, t, dy, x) by {}
        }
        lemma_change_in_step(s, r, fb);
    }
}

/// So does showing the cursor, and taking it away.
pub proof fn law_cursor_in_step(s: Screen, visible: bool, fb: Seq<u32>)
    requires
        s.well_formed(),
        in_step(s, fb),
    ensures
        in_step(s.cursor_drawn(visible), fb),
{
    let r = s.cursor_drawn(visible);
    lemma_next_row(s);
    if !s.cursor_disabled {
        assert forall|t: int, dy: int, x: int| on_screen(s, t, dy, x) && t * s.font.height != s.y
            implies #[trigger] seen(r, t, dy, x) == seen(s, t, dy, x) by {
            law_cursor_drawn(s, visible, t, dy, x);
        }
        lemma_change_in_step(s, r, fb);
    }
}

proof fn lemma_text_keeps(s: Screen, text: Seq<char>, len: int, n: nat)
    requires
        s.well_formed(),
        n <= text.len(),
    ensures
        s.text_put(text, len, n).well_formed(),
        s.text_put(text, len, n).font == s.font,
        s.text_put(text, len, n).width == s.width,
        s.text_put(text, len, n).height == s.height,
        s.text_put(text, len, n).stride == s.stride,
        s.text_put(text, len, n).cursor_disabled == s.cursor_disabled,
    decreases n,
{
    if n > 0 {
        lemma_text_keeps(s, text, len, (n - 1) as nat);
        let a = s.text_put(text, len, (n - 1) as nat);
        lemma_cursor_keeps(a, false);
        let b = if n == 1 { a.cursor_drawn(false) } else { a };
        lemma_put_keeps(b, text[n - 1]);
        lemma_cursor_keeps(b.char_put(text[n - 1]), true);
    }
}

/// A text that has been written is all on the framebuffer after the next flush, if the framebuffer was
/// not behind before.
pub proof fn law_written_text_shows(s: Screen, text: Seq<char>, len: int, fb: Seq<u32>)
    requires
        s.well_formed(),
        fb.len() == s.pixels.len(),
        in_step(s, fb),
    ensures
        ({
            let r = s.text_put(text, len, text.len());
            shows(r, r.flushed(fb))
        }),
{
    lemma_text_in_step(s, text, len, text.len(), fb);
    lemma_text_keeps(s, text, len, text.len());
    law_flush_shows(s.text_put(text, len, text.len()), fb);
}

proof fn lemma_text_in_step(s: Screen, text: Seq<char>, len: int, n: nat, fb: Seq<u32>)
    requires
        s.well_formed(),
        n <= text.len(),
        in_step(s, fb),
    ensures
        in_step(s.text_put(text, len, n), fb),
    decreases n,
{
    if n > 0 {
        lemma_text_in_step(s, text, len, (n - 1) as nat, fb);
        lemma_text_keeps(s, text, len, (n - 1) as nat);
        let a = s.text_put(text, len, (n - 1) as nat);
        law_cursor_in_step(a, false, fb);
        lemma_cursor_keeps(a, false);
        let b = if n == 1 { a.cursor_drawn(false) } else { a };
        law_put_in_step(b, text[n - 1], fb);
        lemma_put_keeps(b, text[n - 1]);
        law_cursor_in_step(b.char_put(text[n - 1]), true, fb);
    }
}

/// The number of cells in a text row; the last may be cut off by the edge of the screen.
pub open spec fn has_columns(s: Screen, c: int) -> bool {
    0 < c && (c - 1) * s.font.width < s.width && s.width <= c * s.font.width
}

/// The text row, counted from the first that was written, that is at the top of a screen of `rows` text
/// rows when the cursor is in text row `line`.
pub open spec fn top_line(rows: int, line: int) -> int {
    if line < rows { 0 } else { line - rows + 1 }
}

/// Character `k` of a text that is set in rows of `c` is on the screen, in its row and column, and shows
/// its glyph. `top` is the first row on the screen.
pub open spec fn shows_char(s: Screen, text: Seq<char>, c: int, top: int, k: int) -> bool {
    forall|dy: int, dx: int|
        0 <= dy < s.font.height && 0 <= dx < s.font.width && (k % c) * s.font.width + dx < s.width
            ==> #[trigger] seen(s, k / c - top, dy, (k % c) * s.font.width + dx)
                == glyph_dot(s.font, text[k] as int, dy, dx)
}

/// The cursor is where character `n` of a text that is set in rows of `c` goes.
pub open spec fn cursor_at(s: Screen, c: int, n: int) -> bool {
    s.x == (n % c) * s.font.width && s.y == (n / c - top_line(s.rows(), n / c)) * s.font.height
}

proof fn lemma_next_place(c: int, m: int)
    requires
        0 < c,
        0 <= m,
    ensures
        0 <= m % c < c,
        0 <= m / c,
        m % c + 1 < c ==> (m + 1) % c == m % c + 1 && (m + 1) / c == m / c,
        m % c + 1 == c ==> (m + 1) % c == 0 && (m + 1) / c == m / c + 1,
{
    lemma_fundamental_div_mod(m, c);
    let q = m / c;
    assert(0 <= m % c < c && 0 <= q) by (nonlinear_arith)
        requires
            0 < c,
            0 <= m,
            q == m / c,
    ;
    if m % c + 1 < c {
        assert(m + 1 == q * c + (m % c + 1)) by (nonlinear_arith)
            requires
                m == c * q + m % c,
        ;
        lemma_fundamental_div_mod_converse(m + 1, c, q, m % c + 1);
    } else {
        assert(m + 1 == (q + 1) * c + 0) by (nonlinear_arith)
            requires
                m == c * q + m % c,
                m % c + 1 == c,
        ;
        lemma_fundamental_div_mod_converse(m + 1, c, q + 1, 0);
    }
}

/// Where the cell of a column ends, and which columns are the last.
proof fn lemma_column(s: Screen, c: int, col: int)
    requires
        s.font.width > 0,
        has_columns(s, c),
        0 <= col < c,
    ensures
        (col + 1) * s.font.width == col * s.font.width + s.font.width,
        0 <= col * s.font.width < s.width,
        (col * s.font.width + s.font.width >= s.width) == (col + 1 == c),
{
    let fw = s.font.width as int;
    assert((col + 1) * fw == col * fw + fw) by (nonlinear_arith);
    assert(0 <= col * fw <= (c - 1) * fw) by (nonlinear_arith)
        requires
            0 <= col <= c - 1,
            fw > 0,
    ;
    if col + 1 < c {
        assert((col + 1) * fw <= (c - 1) * fw) by (nonlinear_arith)
            requires
                col + 1 <= c - 1,
                fw > 0,
        ;
    }
}

/// Two places of a text that are not one are in two cells.
proof fn lemma_order(c: int, k: int, m: int)
    requires
        0 < c,
        0 <= k < m,
    ensures
        k / c <= m / c,
        k / c == m / c ==> k % c < m % c,
{
    lemma_fundamental_div_mod(k, c);
    lemma_fundamental_div_mod(m, c);
    let p = k / c;
    let q = m / c;
    lemma_next_place(c, k);
    lemma_next_place(c, m);
    assert(p <= q) by (nonlinear_arith)
        requires
            c * p + k % c < c * q + m % c,
            0 <= k % c,
            m % c < c,
            0 < c,
    ;
}

/// The characters before the cursor are not in its cell.
proof fn lemma_outside_cursor(s: Screen, c: int, m: int, k: int, t: int, dx: int)
    requires
        s.well_formed(),
        has_columns(s, c),
        0 <= k < m,
        cursor_at(s, c, m),
        t == k / c - top_line(s.rows(), m / c),
        0 <= dx < s.font.width,
    ensures
        !at_cursor(s, t, (k % c) * s.font.width + dx),
{
    lemma_order(c, k, m);
    let fw = s.font.width as int;
    let fh = s.font.height as int;
    let u = m / c - top_line(s.rows(), m / c);
    if t * fh == s.y {
        assert(t == u) by (nonlinear_arith)
            requires
                t * fh == u * fh,
                fh > 0,
        ;
        assert((k % c) * fw + fw <= (m % c) * fw) by (nonlinear_arith)
            requires
                k % c + 1 <= m % c,
                fw > 0,
        ;
    }
}

/// Showing the cursor hides no character before it.
proof fn lemma_cursor_beside(s: Screen, text: Seq<char>, c: int, n: int, k: int)
    requires
        s.well_formed(),
        has_columns(s, c),
        cursor_at(s, c, n),
        0 <= k < n,
        top_line(s.rows(), n / c) <= k / c,
        shows_char(s, text, c, top_line(s.rows(), n / c), k),
    ensures
        shows_char(s.cursor_drawn(true), text, c, top_line(s.rows(), n / c), k),
{
    let r = s.cursor_drawn(true);
    let top = top_line(s.rows(), n / c);
    let t = k / c - top;
    lemma_order(c, k, n);
    lemma_next_place(c, k);
    lemma_next_place(c, n);
    lemma_rows(s);
    if !s.cursor_disabled {
        assert forall|dy: int, dx: int|
            0 <= dy < r.font.height && 0 <= dx < r.font.width && (k % c) * r.font.width + dx < r.width
            implies #[trigger] seen(r, t, dy, (k % c) * r.font.width + dx)
                == glyph_dot(r.font, text[k] as int, dy, dx) by {
            lemma_column(s, c, k % c);
            let x = (k % c) * s.font.width + dx;
            lemma_outside_cursor(s, c, n, k, t, dx);
            law_cursor_drawn(s, true, t, dy, x);
            assert(seen(s, t, dy, x) == glyph_dot(s.font, text[k] as int, dy, dx));
        }
    }
}

/// One more character of a text is set.
proof fn lemma_char_set(s: Screen, text: Seq<char>, c: int, m: int, k: int)
    requires
        s.well_formed(),
        has_columns(s, c),
        0 <= m < text.len(),
        cursor_at(s, c, m),
        printable(text[m]),
        (text[m] as int) < s.font.numglyph,
        0 <= k < m && top_line(s.rows(), m / c) <= k / c ==> shows_char(s, text, c, top_line(s.rows(), m / c), k),
    ensures
        cursor_at(s.char_put(text[m]), c, m + 1),
        0 <= k < m + 1 && top_line(s.rows(), (m + 1) / c) <= k / c ==> shows_char(
            s.char_put(text[m]), text, c, top_line(s.rows(), (m + 1) / c), k),
{
    let r = s.char_put(text[m]);
    let rows = s.rows();
    let fh = s.font.height as int;
    lemma_rows(s);
    lemma_put_keeps(s, text[m]);
    lemma_next_place(c, m);
    lemma_column(s, c, m % c);
    let top = top_line(rows, m / c);
    let line = m / c - top;
    let last = m % c + 1 == c;
    let bottom = s.y + s.font.height >= s.height;
    assert((line + 1) * fh == line * fh + fh) by (nonlinear_arith);
    assert(bottom == (line + 1 >= rows)) by (nonlinear_arith)
        requires
            bottom == ((line + 1) * fh >= rows * fh),
            fh > 0,
    ;
    law_glyph_put(s, text[m], 0, 0, 0);
    let top2 = top_line(rows, (m + 1) / c);
    if 0 <= k < m + 1 && top2 <= k / c {
        lemma_next_place(c, k);
        if k < m {
            lemma_order(c, k, m);
        }
        let t = k / c - top2;
        assert forall|dy: int, dx: int|
            0 <= dy < r.font.height && 0 <= dx < r.font.width && (k % c) * r.font.width + dx < r.width
            implies #[trigger] seen(r, t, dy, (k % c) * r.font.width + dx)
                == glyph_dot(r.font, text[k] as int, dy, dx) by {
            lemma_column(s, c, k % c);
            let x = (k % c) * s.font.width + dx;
            let u = k / c - top;
            law_glyph_put(s, text[m], t, dy, x);
            if k < m {
                lemma_outside_cursor(s, c, m, k, u, dx);
                assert(seen(s, u, dy, x) == glyph_dot(s.font, text[k] as int, dy, dx));
            }
        }
    }
}

/// A text of characters with glyphs, written on an empty screen, is set from the top left corner in rows
/// of as many characters as there are columns. The screen shows its last rows: every character that is in
/// one of them can be seen in its row and column, whether the cursor is shown or not, and the cursor is
/// behind the last character.
pub proof fn law_text_set(s: Screen, text: Seq<char>, len: int, c: int, n: nat, k: int)
    requires
        s.well_formed(),
        has_columns(s, c),
        s.x == 0 && s.y == 0,
        n <= text.len(),
        forall|i: int| 0 <= i < n ==> printable(#[trigger] text[i]) && (text[i] as int) < s.font.numglyph,
    ensures
        cursor_at(s.text_put(text, len, n), c, n as int),
        0 <= k < n && top_line(s.rows(), n as int / c) <= k / c ==> shows_char(
            s.text_put(text, len, n), text, c, top_line(s.rows(), n as int / c), k),
    decreases n,
{
    lemma_rows(s);
    lemma_small_mod(0, c as nat);
    assert(0int / c == 0) by (nonlinear_arith)
        requires
            0 < c,
    ;
    if n == 0 {
        let fw = s.font.width as int;
        let fh = s.font.height as int;
        assert(0 * fw == 0 && 0 * fh == 0);
        assert(n as int % c == 0 && n as int / c == 0);
    }
    if n > 0 {
        let m = (n - 1) as nat;
        law_text_set(s, text, len, c, m, k);
        lemma_text_keeps(s, text, len, m);
        let a = s.text_put(text, len, m);
        lemma_cursor_keeps(a, false);
        let b = if n == 1 { a.cursor_drawn(false) } else { a };
        let d = b.char_put(text[n - 1]);
        lemma_put_keeps(b, text[n - 1]);
        lemma_char_set(b, text, c, m as int, k);
        if n == len {
            lemma_cursor_keeps(d, true);
            if 0 <= k < n && top_line(s.rows(), n as int / c) <= k / c {
                lemma_cursor_beside(d, text, c, n as int, k);
            }
        }
    }
}

/// A font file says in its words where its glyphs begin, how many there are, how many bytes each has and how wide
/// it is; how tall follows.
pub proof fn law_font_read(b: Seq<u8>)
    requires
        font_file_ok(b),
    ensures
        ({
            let f = font_in(b);
            let row = (elf::le32(b, 28) + 7) / 8;
            &&& elf::le32(b, 0) == 0x864ab572
            &&& f.numglyph == elf::le32(b, 16)
            &&& f.bytesperglyph == elf::le32(b, 20)
            &&& f.width == elf::le32(b, 28)
            &&& f.height * row <= f.bytesperglyph
            &&& f.bytesperglyph < (f.height + 1) * row
            &&& forall|i: int| 0 <= i < b.len() - elf::le32(b, 8) ==> #[trigger] f.glyphs[i] == b[elf::le32(b, 8) + i]
        }),
{
    let n = elf::le32(b, 20);
    let row = (elf::le32(b, 28) + 7) / 8;
    let h = n / row;
    lemma_fundamental_div_mod(n, row);
    assert(h * row <= n && n < (h + 1) * row && 0 <= h <= n) by (nonlinear_arith)
        requires
            n == row * h + n % row,
            0 < row,
            0 <= n,
            h == n / row,
    ;
}

/// A screen that has been wiped shows nothing, and the cursor is at its top.
pub proof fn law_wiped(s: Screen, t: int, dy: int, x: int)
    requires
        s.well_formed(),
        on_screen(s, t, dy, x),
    ensures
        seen(s.cleared(), t, dy, x) == 0,
        s.cleared().x == 0,
        s.cleared().y == 0,
{
    lemma_rows(s);
    let n = s.rows();
    vstd::arithmetic::div_mod::lemma_small_mod(t as nat, n as nat);
    assert(0 <= t * s.font.height && t * s.font.height + s.font.height <= s.height);
    lemma_px_index(s.stride as int, s.height as int, t * s.font.height + dy, x);
}

} // verus!
