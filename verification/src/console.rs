//! A scrolling text console over the framebuffer: a fixed rows-by-columns
//! character grid with a cursor, rendered through the glyph rasterizer.
//!
//! The grid and cursor are the console's logical state; every operation's
//! contract states the exact state transition over `ConsoleState`.

use vstd::prelude::*;

use crate::graphics;
use crate::graphics::char_in_font;
use crate::graphics::glyph_of;
use crate::graphics::glyph_rendered;
use crate::graphics::glyph_covers;
use crate::graphics::pixel_bytes;
use crate::graphics::same_shape;
use crate::graphics::rect_filled;
use crate::graphics::rect_covers;
use crate::graphics::format_bytes;
use crate::graphics::Font;
use crate::graphics::FrameBuffer;

verus! {

/// Number of text rows in the console grid.
pub const ROWS: usize = 30;

/// Number of text columns in the console grid.
pub const COLS: usize = 50;

/// Horizontal pitch of the font in pixels (glyph width plus spacing).
pub const FONT_DX: u32 = 10;

/// Vertical pitch of the font in pixels.
pub const FONT_DY: u32 = 18;

/// Pixel width of the console region: `COLS * FONT_DX`.
pub const GRID_PIXEL_WIDTH: u32 = 500;

/// Pixel height of the console region: `ROWS * FONT_DY`.
pub const GRID_PIXEL_HEIGHT: u32 = 540;

/// The logical state of a console: the character grid and the cursor.
pub struct ConsoleState {
    pub grid: Seq<Seq<char>>,
    pub row: int,
    pub col: int,
}

/// A grid row holding only the empty sentinel.
pub open spec fn empty_row() -> Seq<char> {
    Seq::new(COLS as nat, |j: int| '\0')
}

/// A grid row holding only blanks, as the scroll leaves the bottom row.
pub open spec fn blank_row() -> Seq<char> {
    Seq::new(COLS as nat, |j: int| ' ')
}

/// The grid of a freshly constructed console.
pub open spec fn initial_grid() -> Seq<Seq<char>> {
    Seq::new(ROWS as nat, |i: int| empty_row())
}

/// One scroll step: every row takes the contents of the row below it and
/// the bottom row becomes blank.
pub open spec fn scrolled(grid: Seq<Seq<char>>) -> Seq<Seq<char>> {
    grid.subrange(1, ROWS as int).push(blank_row())
}

/// The state transition of a line break: the cursor returns to column
/// zero and moves down a row, scrolling at the bottom of the grid.
pub open spec fn new_line_spec(st: ConsoleState) -> ConsoleState {
    if st.row < ROWS - 1 {
        ConsoleState { grid: st.grid, row: st.row + 1, col: 0 }
    } else {
        ConsoleState { grid: scrolled(st.grid), row: st.row, col: 0 }
    }
}

/// The state transition of writing one character: a newline breaks the
/// line, a character left of the column limit is recorded and advances the
/// cursor, and a character at the limit is silently dropped.
pub open spec fn put_char_spec(st: ConsoleState, c: char) -> ConsoleState {
    if c == '\n' {
        new_line_spec(st)
    } else if st.col < COLS - 1 {
        ConsoleState {
            grid: st.grid.update(st.row, st.grid[st.row].update(st.col, c)),
            row: st.row,
            col: st.col + 1,
        }
    } else {
        st
    }
}

/// The state transition of writing a string, character by character.
pub open spec fn put_string_spec(st: ConsoleState, s: Seq<char>) -> ConsoleState
    decreases s.len(),
{
    if s.len() == 0 {
        st
    } else {
        put_string_spec(put_char_spec(st, s[0]), s.drop_first())
    }
}

/// Writing `s` and then one more character `c` is writing `s.push(c)`.
pub proof fn lemma_put_string_snoc(st: ConsoleState, s: Seq<char>, c: char)
    ensures
        put_string_spec(st, s.push(c)) == put_char_spec(put_string_spec(st, s), c),
    decreases s.len(),
{
    if s.len() == 0 {
        assert(s.push(c)[0] == c);
        assert(s.push(c).drop_first() =~= s);
        assert(put_string_spec(st, s.push(c)) == put_string_spec(put_char_spec(st, c), s));
        assert(put_string_spec(put_char_spec(st, c), s) == put_char_spec(st, c));
        assert(put_string_spec(st, s) == st);
    } else {
        assert(s.push(c)[0] == s[0]);
        assert(s.push(c).drop_first() =~= s.drop_first().push(c));
        assert(put_string_spec(st, s.push(c)) == put_string_spec(
            put_char_spec(st, s[0]),
            s.drop_first().push(c),
        ));
        lemma_put_string_snoc(put_char_spec(st, s[0]), s.drop_first(), c);
        assert(put_string_spec(st, s) == put_string_spec(put_char_spec(st, s[0]), s.drop_first()));
    }
}

/// The cells the scroll redraw repaints in one grid row: the prefix
/// before the row's first empty sentinel.
pub open spec fn redraw_prefix(row: Seq<char>) -> int
    decreases row.len(),
{
    if row.len() == 0 {
        0
    } else if row[0] == '\0' {
        0
    } else {
        1 + redraw_prefix(row.drop_first())
    }
}

/// `redraw_prefix` is the index of the row's first empty sentinel, or the
/// row length where there is none.
pub proof fn lemma_redraw_prefix(row: Seq<char>)
    ensures
        0 <= redraw_prefix(row) <= row.len(),
        forall|j: int| 0 <= j < redraw_prefix(row) ==> row[j] != '\0',
        redraw_prefix(row) < row.len() ==> row[redraw_prefix(row)] == '\0',
    decreases row.len(),
{
    if row.len() == 0 {
    } else if row[0] == '\0' {
    } else {
        lemma_redraw_prefix(row.drop_first());
        assert forall|j: int| 0 <= j < redraw_prefix(row) implies row[j] != '\0' by {
            if j > 0 {
                assert(row.drop_first()[j - 1] != '\0');
            }
        }
    }
}

/// Whether pixel (px, py) is a set bit of the glyph of grid cell (i, j),
/// drawn at that cell's pixel position.
pub open spec fn redraw_cell_covers(
    grid: Seq<Seq<char>>,
    font: Font,
    i: int,
    j: int,
    px: int,
    py: int,
) -> bool {
    glyph_covers(glyph_of(font, grid[i][j]), 10 * j, 18 * i, px, py)
}

/// Like `scroll_redraw_covers`, restricted to the rows before `rows` plus
/// the first `cols` cells of row `rows`: the part the redraw has reached.
pub open spec fn scroll_redraw_covers_upto(
    grid: Seq<Seq<char>>,
    font: Font,
    rows: int,
    cols: int,
    px: int,
    py: int,
) -> bool {
    exists|i: int, j: int|
        0 <= i < ROWS - 1 && 0 <= j < redraw_prefix(grid[i]) && (i < rows || (i == rows && j
            < cols)) && #[trigger] redraw_cell_covers(grid, font, i, j, px, py)
}

/// Whether pixel (px, py) is a set bit of any glyph the scroll redraw
/// draws: a cell of some shifted row's prefix before its first empty
/// sentinel (the blank bottom row is not redrawn).
pub open spec fn scroll_redraw_covers(grid: Seq<Seq<char>>, font: Font, px: int, py: int) -> bool {
    exists|i: int, j: int|
        0 <= i < ROWS - 1 && 0 <= j < redraw_prefix(grid[i]) && #[trigger] redraw_cell_covers(
            grid,
            font,
            i,
            j,
            px,
            py,
        )
}

/// No line break of `s`, written from `st`, falls on the bottom row: the
/// whole write happens without a scroll.
pub open spec fn no_scroll(st: ConsoleState, s: Seq<char>) -> bool
    decreases s.len(),
{
    if s.len() == 0 {
        true
    } else {
        &&& !(s[0] == '\n' && st.row == ROWS - 1)
        &&& no_scroll(put_char_spec(st, s[0]), s.drop_first())
    }
}

/// Whether pixel (px, py) is a set bit of a glyph that writing `s` from
/// `st` records: each recorded character's glyph stands at the pixel cell
/// of the cursor position that wrote it.
pub open spec fn put_covers(st: ConsoleState, s: Seq<char>, font: Font, px: int, py: int) -> bool
    decreases s.len(),
{
    if s.len() == 0 {
        false
    } else {
        ||| (s[0] != '\n' && st.col < COLS - 1 && glyph_covers(
            glyph_of(font, s[0]),
            10 * st.col,
            18 * st.row,
            px,
            py,
        ))
        ||| put_covers(put_char_spec(st, s[0]), s.drop_first(), font, px, py)
    }
}

/// Writing `s` and then `c` covers what writing `s` covers, plus — where
/// `c` is recorded — the glyph cell at the cursor position left by `s`.
pub proof fn lemma_put_covers_snoc(
    st: ConsoleState,
    s: Seq<char>,
    c: char,
    font: Font,
    px: int,
    py: int,
)
    ensures
        put_covers(st, s.push(c), font, px, py) == (put_covers(st, s, font, px, py) || (c != '\n'
            && put_string_spec(st, s).col < COLS - 1 && glyph_covers(
            glyph_of(font, c),
            10 * put_string_spec(st, s).col,
            18 * put_string_spec(st, s).row,
            px,
            py,
        ))),
    decreases s.len(),
{
    if s.len() == 0 {
        assert(s.push(c)[0] == c);
        assert(s.push(c).drop_first() =~= s);
        assert(put_string_spec(st, s) == st);
        assert(put_covers(st, s.push(c), font, px, py) == ((c != '\n' && st.col < COLS - 1
            && glyph_covers(glyph_of(font, c), 10 * st.col, 18 * st.row, px, py)) || put_covers(
            put_char_spec(st, c),
            s,
            font,
            px,
            py,
        )));
        assert(!put_covers(put_char_spec(st, c), s, font, px, py));
        assert(!put_covers(st, s, font, px, py));
    } else {
        assert(s.push(c)[0] == s[0]);
        assert(s.push(c).drop_first() =~= s.drop_first().push(c));
        assert(put_covers(st, s.push(c), font, px, py) == ((s[0] != '\n' && st.col < COLS - 1
            && glyph_covers(glyph_of(font, s[0]), 10 * st.col, 18 * st.row, px, py)) || put_covers(
            put_char_spec(st, s[0]),
            s.drop_first().push(c),
            font,
            px,
            py,
        )));
        lemma_put_covers_snoc(put_char_spec(st, s[0]), s.drop_first(), c, font, px, py);
        assert(put_string_spec(st, s) == put_string_spec(put_char_spec(st, s[0]), s.drop_first()));
        assert(put_covers(st, s, font, px, py) == ((s[0] != '\n' && st.col < COLS - 1
            && glyph_covers(glyph_of(font, s[0]), 10 * st.col, 18 * st.row, px, py)) || put_covers(
            put_char_spec(st, s[0]),
            s.drop_first(),
            font,
            px,
            py,
        )));
    }
}

/// Writing one string and then another is writing their concatenation.
pub proof fn lemma_put_string_append(st: ConsoleState, a: Seq<char>, b: Seq<char>)
    ensures
        put_string_spec(st, a + b) == put_string_spec(put_string_spec(st, a), b),
    decreases a.len(),
{
    if a.len() == 0 {
        assert(a + b =~= b);
    } else {
        assert((a + b)[0] == a[0]);
        assert((a + b).drop_first() =~= a.drop_first() + b);
        assert(put_string_spec(st, a + b) == put_string_spec(
            put_char_spec(st, a[0]),
            a.drop_first() + b,
        ));
        lemma_put_string_append(put_char_spec(st, a[0]), a.drop_first(), b);
    }
}

/// A line break taken below the bottom row moves the cursor down one row
/// and to column zero, and leaves the grid untouched: writing fewer lines
/// than the grid has rows never scrolls.
pub proof fn lemma_new_line_below_bottom(st: ConsoleState)
    requires
        st.row < ROWS - 1,
    ensures
        new_line_spec(st).grid == st.grid,
        new_line_spec(st).row == st.row + 1,
        new_line_spec(st).col == 0,
{
}

/// A line break taken on the bottom row scrolls: every row takes the
/// contents of the row below it (the new top row is the old second row),
/// the bottom row becomes blank, and the cursor returns to column zero of
/// the bottom row.
pub proof fn lemma_new_line_scrolls(st: ConsoleState)
    requires
        st.row == ROWS - 1,
        st.grid.len() == ROWS,
    ensures
        forall|i: int| 0 <= i < ROWS - 1 ==> new_line_spec(st).grid[i] == st.grid[i + 1],
        new_line_spec(st).grid[0] == st.grid[1],
        new_line_spec(st).grid[ROWS - 1] == blank_row(),
        new_line_spec(st).row == ROWS - 1,
        new_line_spec(st).col == 0,
{
    assert forall|i: int| 0 <= i < ROWS - 1 implies new_line_spec(st).grid[i] == st.grid[i
        + 1] by {
        assert(scrolled(st.grid)[i] == st.grid.subrange(1, ROWS as int)[i]);
    }
}

/// Where the cursor ends up after writing a newline-free string: it never
/// leaves its row, and stops at the column limit.
pub open spec fn line_end_col(col: int, len: nat) -> int {
    if col + len < COLS - 1 {
        col + len
    } else {
        COLS - 1
    }
}

/// Writing a newline-free string fills the cursor's row from the cursor
/// column up to at most the column limit `COLS - 1`, drops the remaining
/// characters without wrapping, and changes no other row and no cell left
/// of the cursor or at or beyond the column limit.
pub proof fn lemma_put_line(st: ConsoleState, s: Seq<char>)
    requires
        forall|i: int| 0 <= i < s.len() ==> (#[trigger] s[i]) != '\n',
        0 <= st.row < st.grid.len(),
        0 <= st.col <= COLS - 1,
        st.grid[st.row].len() == COLS,
    ensures
        put_string_spec(st, s).row == st.row,
        put_string_spec(st, s).col == line_end_col(st.col, s.len()),
        put_string_spec(st, s).grid.len() == st.grid.len(),
        put_string_spec(st, s).grid[st.row].len() == COLS,
        forall|j: int|
            0 <= j < st.col ==> put_string_spec(st, s).grid[st.row][j] == st.grid[st.row][j],
        forall|j: int|
            st.col <= j < line_end_col(st.col, s.len()) ==> put_string_spec(st, s).grid[st.row][j]
                == s[j - st.col],
        forall|j: int|
            line_end_col(st.col, s.len()) <= j < COLS ==> put_string_spec(st, s).grid[st.row][j]
                == st.grid[st.row][j],
        forall|i: int|
            0 <= i < st.grid.len() && i != st.row ==> put_string_spec(st, s).grid[i]
                == st.grid[i],
    decreases s.len(),
{
    if s.len() == 0 {
    } else {
        let c = s[0];
        assert(c != '\n');
        let st1 = put_char_spec(st, c);
        if st.col < COLS - 1 {
            assert(st1.grid[st.row].len() == COLS);
            lemma_put_line(st1, s.drop_first());
            assert(line_end_col(st.col, s.len()) == line_end_col(st1.col, s.drop_first().len()));
            assert forall|j: int|
                st.col <= j < line_end_col(st.col, s.len()) implies put_string_spec(st, s).grid[st.row][j]
                == s[j - st.col] by {
                if j == st.col {
                    assert(st1.grid[st.row][j] == c);
                } else {
                    assert(put_string_spec(st1, s.drop_first()).grid[st.row][j]
                        == s.drop_first()[j - st.col - 1]);
                }
            }
            assert forall|j: int| 0 <= j < st.col implies put_string_spec(st, s).grid[st.row][j]
                == st.grid[st.row][j] by {
                assert(put_string_spec(st1, s.drop_first()).grid[st.row][j]
                    == st1.grid[st.row][j]);
                assert(st1.grid[st.row][j] == st.grid[st.row][j]);
            }
            assert forall|j: int|
                line_end_col(st.col, s.len()) <= j < COLS implies put_string_spec(st, s).grid[st.row][j]
                == st.grid[st.row][j] by {
                assert(put_string_spec(st1, s.drop_first()).grid[st.row][j]
                    == st1.grid[st.row][j]);
                assert(st1.grid[st.row][j] == st.grid[st.row][j]);
            }
            assert forall|i: int|
                0 <= i < st.grid.len() && i != st.row implies put_string_spec(st, s).grid[i]
                == st.grid[i] by {
                assert(put_string_spec(st1, s.drop_first()).grid[i] == st1.grid[i]);
                assert(st1.grid[i] == st.grid[i]);
            }
        } else {
            assert(st1 == st);
            lemma_put_line(st1, s.drop_first());
            assert forall|j: int|
                st.col <= j < line_end_col(st.col, s.len()) implies put_string_spec(st, s).grid[st.row][j]
                == s[j - st.col] by {
            }
        }
    }
}

/// The console: grid, cursor, colours, its font, and the framebuffer it
/// renders into.
pub struct Console {
    pub fb: FrameBuffer,
    pub font: Font,
    pub fg_color: (u8, u8, u8),
    pub bg_color: (u8, u8, u8),
    pub buffer: Vec<Vec<char>>,
    pub cursor_row: usize,
    pub cursor_col: usize,
}

/// The two consoles differ at most in grid, cursor and pixel contents:
/// colours, font and framebuffer shape are kept.
pub open spec fn same_config(a: Console, b: Console) -> bool {
    &&& b.fg_color == a.fg_color
    &&& b.bg_color == a.bg_color
    &&& b.font == a.font
    &&& same_shape(a.fb, b.fb)
}

/// Every visible pixel outside the console's pixel region keeps its
/// value: the console draws only inside its own rows-by-columns area.
pub open spec fn outside_region_preserved(pre: FrameBuffer, post: FrameBuffer) -> bool {
    forall|px: u32, py: u32|
        px < pre.resolution.0 && py < pre.resolution.1 && !(px < GRID_PIXEL_WIDTH && py
            < GRID_PIXEL_HEIGHT) ==> #[trigger] pixel_bytes(post, px, py) == pixel_bytes(
            pre,
            px,
            py,
        )
}

pub proof fn lemma_outside_region_trans(a: FrameBuffer, b: FrameBuffer, c: FrameBuffer)
    requires
        same_shape(a, b),
        outside_region_preserved(a, b),
        outside_region_preserved(b, c),
    ensures
        outside_region_preserved(a, c),
{
    assert forall|px: u32, py: u32|
        px < a.resolution.0 && py < a.resolution.1 && !(px < GRID_PIXEL_WIDTH && py
            < GRID_PIXEL_HEIGHT) implies #[trigger] pixel_bytes(c, px, py) == pixel_bytes(
        a,
        px,
        py,
    ) by {
        assert(pixel_bytes(b, px, py) == pixel_bytes(a, px, py));
        assert(pixel_bytes(c, px, py) == pixel_bytes(b, px, py));
    }
}

impl Console {
    /// The character grid as a sequence of rows.
    pub open spec fn grid(self) -> Seq<Seq<char>> {
        Seq::new(self.buffer@.len(), |i: int| self.buffer@[i]@)
    }

    /// The logical state: grid plus cursor.
    pub open spec fn state(self) -> ConsoleState {
        ConsoleState { grid: self.grid(), row: self.cursor_row as int, col: self.cursor_col as int }
    }

    /// Well-formedness: the framebuffer fits the console region, the grid
    /// has the fixed dimensions, the cursor is inside the grid, and every
    /// recorded character has a glyph (the blank used by scrolling
    /// included).
    pub open spec fn wf(self) -> bool {
        &&& self.fb.wf()
        &&& GRID_PIXEL_WIDTH <= self.fb.resolution.0
        &&& GRID_PIXEL_HEIGHT <= self.fb.resolution.1
        &&& self.buffer@.len() == ROWS
        &&& forall|i: int| 0 <= i < ROWS ==> (#[trigger] self.grid()[i]).len() == COLS
        &&& self.cursor_row < ROWS
        &&& self.cursor_col < COLS
        &&& 32 <= self.font.glyphs@.len()
        &&& forall|i: int, j: int|
            0 <= i < ROWS && 0 <= j < COLS ==> (#[trigger] self.grid()[i][j]) == '\0'
                || char_in_font(self.grid()[i][j], self.font)
    }

    /// Construct a console over the framebuffer: empty grid, cursor at the
    /// origin, white on black, with the console region painted in the
    /// background colour.
    pub fn new(fb: FrameBuffer, font: Font) -> (console: Console)
        requires
            fb.wf(),
            GRID_PIXEL_WIDTH <= fb.resolution.0,
            GRID_PIXEL_HEIGHT <= fb.resolution.1,
            32 <= font.glyphs@.len(),
        ensures
            console.wf(),
            console.state() == (ConsoleState { grid: initial_grid(), row: 0, col: 0 }),
            console.fg_color == (255u8, 255u8, 255u8),
            console.bg_color == (0u8, 0u8, 0u8),
            console.font == font,
            same_shape(fb, console.fb),
            rect_filled(
                fb,
                console.fb,
                0,
                0,
                GRID_PIXEL_WIDTH,
                GRID_PIXEL_HEIGHT,
                format_bytes(fb.format, (0u8, 0u8, 0u8)),
            ),
            outside_region_preserved(fb, console.fb),
    {
        let mut buffer: Vec<Vec<char>> = Vec::new();
        for i in 0..ROWS
            invariant
                buffer@.len() == i,
                forall|k: int| 0 <= k < i ==> (#[trigger] buffer@[k]@) == empty_row(),
        {
            let row = filled_row('\0');
            proof {
                assert(row@ =~= empty_row());
            }
            buffer.push(row);
        }
        let mut console = Console {
            fb,
            font,
            fg_color: (255, 255, 255),
            bg_color: (0, 0, 0),
            buffer,
            cursor_row: 0,
            cursor_col: 0,
        };
        proof {
            assert(console.grid() =~~= initial_grid());
        }
        console.paint_background();
        console
    }

    /// Paint the whole console region in the background colour; the
    /// logical state is untouched.
    pub fn paint_background(&mut self)
        requires
            old(self).wf(),
        ensures
            final(self).wf(),
            final(self).state() == old(self).state(),
            same_config(*old(self), *final(self)),
            rect_filled(
                old(self).fb,
                final(self).fb,
                0,
                0,
                GRID_PIXEL_WIDTH,
                GRID_PIXEL_HEIGHT,
                format_bytes(old(self).fb.format, old(self).bg_color),
            ),
            outside_region_preserved(old(self).fb, final(self).fb),
    {
        let color = self.bg_color;
        graphics::paint_rectangle(&mut self.fb, 0, 0, GRID_PIXEL_WIDTH, GRID_PIXEL_HEIGHT, color);
        proof {
            assert(final(self).grid() =~~= old(self).grid());
        }
    }

    /// Redraw the glyph recorded at one grid cell; the logical state is
    /// untouched.
    pub fn print_font_from_buffer(&mut self, row_index: usize, col_index: usize)
        requires
            old(self).wf(),
            row_index < ROWS,
            col_index < COLS,
            old(self).grid()[row_index as int][col_index as int] != '\0',
        ensures
            final(self).wf(),
            final(self).state() == old(self).state(),
            same_config(*old(self), *final(self)),
            glyph_rendered(
                old(self).fb,
                final(self).fb,
                (col_index * 10) as u32,
                (row_index * 18) as u32,
                format_bytes(old(self).fb.format, old(self).fg_color),
                glyph_of(
                    old(self).font,
                    old(self).grid()[row_index as int][col_index as int],
                ),
            ),
            outside_region_preserved(old(self).fb, final(self).fb),
    {
        let c = self.buffer[row_index][col_index];
        let fg = self.fg_color;
        graphics::print_font(
            &mut self.fb,
            (col_index as u32) * FONT_DX,
            (row_index as u32) * FONT_DY,
            fg,
            c,
            &self.font,
        );
        proof {
            assert(final(self).grid() =~~= old(self).grid());
            let x = (col_index * 10) as u32;
            let y = (row_index * 18) as u32;
            let pattern = glyph_of(old(self).font, old(self).grid()[row_index as int][col_index as int]);
            assert forall|px: u32, py: u32|
                px < old(self).fb.resolution.0 && py < old(self).fb.resolution.1 && !(px
                    < GRID_PIXEL_WIDTH && py < GRID_PIXEL_HEIGHT) implies #[trigger] pixel_bytes(
                final(self).fb,
                px,
                py,
            ) == pixel_bytes(old(self).fb, px, py) by {
                assert(!glyph_covers(pattern, x as int, y as int, px as int, py as int));
            }
        }
    }
}

impl Console {
    /// Write a string: newlines break the line, other characters are drawn
    /// at the cursor's pixel position and recorded in the grid, except that
    /// a character at the column limit is silently dropped (no auto-wrap).
    pub fn put_string(&mut self, string: &str)
        requires
            old(self).wf(),
            forall|i: int|
                0 <= i < string@.len() ==> (#[trigger] string@[i]) == '\n' || char_in_font(
                    string@[i],
                    old(self).font,
                ),
        ensures
            final(self).wf(),
            same_config(*old(self), *final(self)),
            final(self).state() == put_string_spec(old(self).state(), string@),
            outside_region_preserved(old(self).fb, final(self).fb),
            no_scroll(old(self).state(), string@) ==> forall|px: u32, py: u32|
                px < old(self).fb.resolution.0 && py < old(self).fb.resolution.1
                    ==> #[trigger] pixel_bytes(final(self).fb, px, py) == (if put_covers(
                    old(self).state(),
                    string@,
                    old(self).font,
                    px as int,
                    py as int,
                ) {
                    format_bytes(old(self).fb.format, old(self).fg_color)
                } else {
                    pixel_bytes(old(self).fb, px, py)
                }),
    {
        let ghost pre0 = *self;
        let ghost st0 = pre0.state();
        let ghost si = string@;
        proof {
            assert(si.skip(0) =~= si);
        }
        let n = string.unicode_len();
        for i in 0..n
            invariant
                self.wf(),
                same_config(pre0, *self),
                st0 == pre0.state(),
                si == string@,
                n == si.len(),
                forall|j: int|
                    0 <= j < si.len() ==> (#[trigger] si[j]) == '\n' || char_in_font(
                        si[j],
                        pre0.font,
                    ),
                self.state() == put_string_spec(st0, si.take(i as int)),
                outside_region_preserved(pre0.fb, self.fb),
                no_scroll(st0, si) ==> no_scroll(self.state(), si.skip(i as int)),
                no_scroll(st0, si) ==> forall|px: u32, py: u32|
                    px < pre0.fb.resolution.0 && py < pre0.fb.resolution.1
                        ==> #[trigger] pixel_bytes(self.fb, px, py) == (if put_covers(
                        st0,
                        si.take(i as int),
                        pre0.font,
                        px as int,
                        py as int,
                    ) {
                        format_bytes(pre0.fb.format, pre0.fg_color)
                    } else {
                        pixel_bytes(pre0.fb, px, py)
                    }),
        {
            let c = string.get_char(i);
            let ghost stprev = self.state();
            let ghost fbprev = self.fb;
            proof {
                assert(si.take(i as int).push(c) =~= si.take(i as int + 1));
                lemma_put_string_snoc(st0, si.take(i as int), c);
                if no_scroll(st0, si) {
                    assert(si.skip(i as int)[0] == c);
                    assert(si.skip(i as int).drop_first() =~= si.skip(i as int + 1));
                    assert(!(c == '\n' && stprev.row == ROWS - 1));
                    assert(no_scroll(put_char_spec(stprev, c), si.skip(i as int + 1)));
                }
            }
            if c == '\n' {
                self.new_line();
                proof {
                    lemma_outside_region_trans(pre0.fb, fbprev, self.fb);
                    if no_scroll(st0, si) {
                        assert(self.fb == fbprev);
                        assert forall|px: u32, py: u32|
                            px < pre0.fb.resolution.0 && py < pre0.fb.resolution.1 implies
                            #[trigger] pixel_bytes(self.fb, px, py) == (if put_covers(
                            st0,
                            si.take(i as int + 1),
                            pre0.font,
                            px as int,
                            py as int,
                        ) {
                            format_bytes(pre0.fb.format, pre0.fg_color)
                        } else {
                            pixel_bytes(pre0.fb, px, py)
                        }) by {
                            lemma_put_covers_snoc(
                                st0,
                                si.take(i as int),
                                c,
                                pre0.font,
                                px as int,
                                py as int,
                            );
                        }
                    }
                }
            } else if self.cursor_col < COLS - 1 {
                let cx = (self.cursor_col as u32) * FONT_DX;
                let cy = (self.cursor_row as u32) * FONT_DY;
                let fg = self.fg_color;
                let ghost fbfont = self.font;
                graphics::print_font(&mut self.fb, cx, cy, fg, c, &self.font);
                let ghost gprev = *self;
                let r = self.cursor_row;
                let cl = self.cursor_col;
                self.buffer[r][cl] = c;
                self.cursor_col = cl + 1;
                proof {
                    assert forall|ii: int| 0 <= ii < ROWS && ii != r implies #[trigger] self.grid()[ii]
                        == gprev.grid()[ii] by {}
                    assert(self.grid()[r as int] =~= gprev.grid()[r as int].update(cl as int, c));
                    assert(self.grid() =~~= stprev.grid.update(
                        r as int,
                        stprev.grid[r as int].update(cl as int, c),
                    ));
                    assert forall|ii: int, jj: int|
                        0 <= ii < ROWS && 0 <= jj < COLS implies (#[trigger] self.grid()[ii][jj])
                        == '\0' || char_in_font(self.grid()[ii][jj], self.font) by {
                        if ii == r && jj == cl {
                            assert(char_in_font(c, self.font));
                        } else {
                            assert(self.grid()[ii][jj] == gprev.grid()[ii][jj]);
                        }
                    }
                    assert forall|ii: int| 0 <= ii < ROWS implies (#[trigger] self.grid()[ii]).len()
                        == COLS by {
                        if ii != r {
                            assert(self.grid()[ii] == gprev.grid()[ii]);
                        }
                    }
                    let pattern = glyph_of(fbfont, c);
                    assert forall|px: u32, py: u32|
                        px < fbprev.resolution.0 && py < fbprev.resolution.1 && !(px
                            < GRID_PIXEL_WIDTH && py < GRID_PIXEL_HEIGHT) implies #[trigger] pixel_bytes(
                        self.fb,
                        px,
                        py,
                    ) == pixel_bytes(fbprev, px, py) by {
                        assert(!glyph_covers(pattern, cx as int, cy as int, px as int, py as int));
                    }
                    lemma_outside_region_trans(pre0.fb, fbprev, self.fb);
                    if no_scroll(st0, si) {
                        assert forall|px: u32, py: u32|
                            px < pre0.fb.resolution.0 && py < pre0.fb.resolution.1 implies
                            #[trigger] pixel_bytes(self.fb, px, py) == (if put_covers(
                            st0,
                            si.take(i as int + 1),
                            pre0.font,
                            px as int,
                            py as int,
                        ) {
                            format_bytes(pre0.fb.format, pre0.fg_color)
                        } else {
                            pixel_bytes(pre0.fb, px, py)
                        }) by {
                            lemma_put_covers_snoc(
                                st0,
                                si.take(i as int),
                                c,
                                pre0.font,
                                px as int,
                                py as int,
                            );
                            if glyph_covers(pattern, cx as int, cy as int, px as int, py as int) {
                                assert(pixel_bytes(self.fb, px, py) == format_bytes(
                                    pre0.fb.format,
                                    pre0.fg_color,
                                ));
                            } else {
                                assert(pixel_bytes(self.fb, px, py) == pixel_bytes(
                                    fbprev,
                                    px,
                                    py,
                                ));
                            }
                        }
                    }
                }
            } else {
                proof {
                    if no_scroll(st0, si) {
                        assert forall|px: u32, py: u32|
                            px < pre0.fb.resolution.0 && py < pre0.fb.resolution.1 implies
                            #[trigger] pixel_bytes(self.fb, px, py) == (if put_covers(
                            st0,
                            si.take(i as int + 1),
                            pre0.font,
                            px as int,
                            py as int,
                        ) {
                            format_bytes(pre0.fb.format, pre0.fg_color)
                        } else {
                            pixel_bytes(pre0.fb, px, py)
                        }) by {
                            lemma_put_covers_snoc(
                                st0,
                                si.take(i as int),
                                c,
                                pre0.font,
                                px as int,
                                py as int,
                            );
                        }
                    }
                }
            }
        }
        proof {
            assert(si.take(n as int) =~= si);
        }
    }

    /// Break the line: cursor to column zero, then down a row, scrolling
    /// the grid up by one row when the cursor is already on the bottom row.
    pub fn new_line(&mut self)
        requires
            old(self).wf(),
        ensures
            final(self).wf(),
            same_config(*old(self), *final(self)),
            final(self).state() == new_line_spec(old(self).state()),
            outside_region_preserved(old(self).fb, final(self).fb),
            old(self).cursor_row < ROWS - 1 ==> final(self).fb == old(self).fb,
            old(self).cursor_row == ROWS - 1 ==> forall|px: u32, py: u32|
                px < GRID_PIXEL_WIDTH && py < GRID_PIXEL_HEIGHT ==> #[trigger] pixel_bytes(
                    final(self).fb,
                    px,
                    py,
                ) == (if scroll_redraw_covers(
                    final(self).grid(),
                    old(self).font,
                    px as int,
                    py as int,
                ) {
                    format_bytes(old(self).fb.format, old(self).fg_color)
                } else {
                    format_bytes(old(self).fb.format, old(self).bg_color)
                }),
    {
        let ghost pre0 = *self;
        let ghost g0 = pre0.grid();
        self.cursor_col = 0;
        if self.cursor_row < ROWS - 1 {
            self.cursor_row = self.cursor_row + 1;
        } else {
            let ghost gs = scrolled(g0);
            proof {
                assert forall|ii: int| 0 <= ii < ROWS - 1 implies (#[trigger] gs[ii]) == g0[ii
                    + 1] by {
                    assert(gs[ii] == g0.subrange(1, ROWS as int)[ii]);
                }
            }
            self.paint_background();
            proof {
                assert forall|px: u32, py: u32|
                    px < GRID_PIXEL_WIDTH && py < GRID_PIXEL_HEIGHT implies #[trigger] pixel_bytes(
                    self.fb,
                    px,
                    py,
                ) == (if scroll_redraw_covers_upto(gs, pre0.font, 0, 0, px as int, py as int) {
                    format_bytes(pre0.fb.format, pre0.fg_color)
                } else {
                    format_bytes(pre0.fb.format, pre0.bg_color)
                }) by {
                    assert(rect_covers(0, 0, GRID_PIXEL_WIDTH as int, GRID_PIXEL_HEIGHT as int,
                        px as int, py as int));
                    assert(!scroll_redraw_covers_upto(gs, pre0.font, 0, 0, px as int, py as int));
                }
            }
            for row_index in 0..ROWS - 1
                invariant
                    self.wf(),
                    same_config(pre0, *self),
                    pre0.wf(),
                    self.cursor_row == ROWS - 1,
                    self.cursor_col == 0,
                    g0.len() == ROWS,
                    gs == scrolled(g0),
                    forall|ii: int| 0 <= ii < ROWS - 1 ==> (#[trigger] gs[ii]) == g0[ii + 1],
                    forall|i: int| 0 <= i < ROWS ==> (#[trigger] g0[i]).len() == COLS,
                    forall|i: int, j: int|
                        0 <= i < ROWS && 0 <= j < COLS ==> (#[trigger] g0[i][j]) == '\0'
                            || char_in_font(g0[i][j], pre0.font),
                    forall|i: int| 0 <= i < row_index ==> (#[trigger] self.grid()[i]) == g0[i + 1],
                    forall|i: int| row_index <= i < ROWS ==> (#[trigger] self.grid()[i]) == g0[i],
                    outside_region_preserved(pre0.fb, self.fb),
                    forall|px: u32, py: u32|
                        px < GRID_PIXEL_WIDTH && py < GRID_PIXEL_HEIGHT ==> #[trigger] pixel_bytes(
                            self.fb,
                            px,
                            py,
                        ) == (if scroll_redraw_covers_upto(
                            gs,
                            pre0.font,
                            row_index as int,
                            0,
                            px as int,
                            py as int,
                        ) {
                            format_bytes(pre0.fb.format, pre0.fg_color)
                        } else {
                            format_bytes(pre0.fb.format, pre0.bg_color)
                        }),
            {
                let ghost gprev = *self;
                let row_copy = copy_row(&self.buffer[row_index + 1]);
                self.buffer[row_index] = row_copy;
                proof {
                    assert forall|i: int| 0 <= i < ROWS && i != row_index implies #[trigger] self.grid()[i]
                        == gprev.grid()[i] by {}
                    assert(self.grid()[row_index as int] == gprev.grid()[row_index as int + 1]);
                    assert forall|i: int| 0 <= i < ROWS implies (#[trigger] self.grid()[i]).len()
                        == COLS by {
                        if i == row_index {
                            assert(gprev.grid()[i + 1].len() == COLS);
                        }
                    }
                    assert forall|i: int, j: int|
                        0 <= i < ROWS && 0 <= j < COLS implies (#[trigger] self.grid()[i][j])
                        == '\0' || char_in_font(self.grid()[i][j], self.font) by {
                        if i == row_index {
                            assert(gprev.grid()[i + 1][j] == '\0' || char_in_font(
                                gprev.grid()[i + 1][j],
                                gprev.font,
                            ));
                        } else {
                            assert(gprev.grid()[i][j] == '\0' || char_in_font(
                                gprev.grid()[i][j],
                                gprev.font,
                            ));
                        }
                    }
                }
                let ghost gmid = *self;
                proof {
                    assert(self.grid()[row_index as int] == gs[row_index as int]);
                    lemma_redraw_prefix(gs[row_index as int]);
                }
                let mut col_index: usize = 0;
                while col_index < COLS
                    invariant_except_break
                        col_index <= COLS,
                        self.wf(),
                        same_config(gmid, *self),
                        same_config(pre0, *self),
                        pre0.wf(),
                        self.grid() == gmid.grid(),
                        self.cursor_row == gmid.cursor_row,
                        self.cursor_col == gmid.cursor_col,
                        row_index < ROWS - 1,
                        gs[row_index as int].len() == COLS,
                        gmid.grid()[row_index as int] == gs[row_index as int],
                        col_index <= redraw_prefix(gs[row_index as int]),
                        redraw_prefix(gs[row_index as int]) <= COLS,
                        outside_region_preserved(gmid.fb, self.fb),
                        forall|px: u32, py: u32|
                            px < GRID_PIXEL_WIDTH && py < GRID_PIXEL_HEIGHT
                                ==> #[trigger] pixel_bytes(self.fb, px, py) == (if
                            scroll_redraw_covers_upto(
                                gs,
                                pre0.font,
                                row_index as int,
                                col_index as int,
                                px as int,
                                py as int,
                            ) {
                                format_bytes(pre0.fb.format, pre0.fg_color)
                            } else {
                                format_bytes(pre0.fb.format, pre0.bg_color)
                            }),
                    ensures
                        self.wf(),
                        same_config(gmid, *self),
                        self.grid() == gmid.grid(),
                        self.cursor_row == gmid.cursor_row,
                        self.cursor_col == gmid.cursor_col,
                        outside_region_preserved(gmid.fb, self.fb),
                        redraw_prefix(gs[row_index as int]) <= col_index,
                        forall|px: u32, py: u32|
                            px < GRID_PIXEL_WIDTH && py < GRID_PIXEL_HEIGHT
                                ==> #[trigger] pixel_bytes(self.fb, px, py) == (if
                            scroll_redraw_covers_upto(
                                gs,
                                pre0.font,
                                row_index as int,
                                col_index as int,
                                px as int,
                                py as int,
                            ) {
                                format_bytes(pre0.fb.format, pre0.fg_color)
                            } else {
                                format_bytes(pre0.fb.format, pre0.bg_color)
                            }),
                    decreases COLS - col_index,
                {
                    proof {
                        assert(self.grid()[row_index as int].len() == COLS);
                        lemma_redraw_prefix(gs[row_index as int]);
                    }
                    if self.buffer[row_index][col_index] == '\0' {
                        proof {
                            assert(gs[row_index as int][col_index as int] == '\0');
                            assert(redraw_prefix(gs[row_index as int]) <= col_index);
                        }
                        break ;
                    }
                    let ghost fbprev = self.fb;
                    self.print_font_from_buffer(row_index, col_index);
                    proof {
                        lemma_outside_region_trans(gmid.fb, fbprev, self.fb);
                        lemma_redraw_prefix(gs[row_index as int]);
                        assert(gs[row_index as int][col_index as int] != '\0');
                        assert(col_index < redraw_prefix(gs[row_index as int]));
                        let pattern = glyph_of(pre0.font, gs[row_index as int][col_index as int]);
                        assert forall|px: u32, py: u32|
                            px < GRID_PIXEL_WIDTH && py < GRID_PIXEL_HEIGHT implies
                            #[trigger] pixel_bytes(self.fb, px, py) == (if
                        scroll_redraw_covers_upto(
                            gs,
                            pre0.font,
                            row_index as int,
                            col_index as int + 1,
                            px as int,
                            py as int,
                        ) {
                            format_bytes(pre0.fb.format, pre0.fg_color)
                        } else {
                            format_bytes(pre0.fb.format, pre0.bg_color)
                        }) by {
                            if glyph_covers(
                                pattern,
                                10 * col_index as int,
                                18 * row_index as int,
                                px as int,
                                py as int,
                            ) {
                                assert(pixel_bytes(self.fb, px, py) == format_bytes(
                                    pre0.fb.format,
                                    pre0.fg_color,
                                ));
                                assert(redraw_cell_covers(
                                    gs,
                                    pre0.font,
                                    row_index as int,
                                    col_index as int,
                                    px as int,
                                    py as int,
                                ));
                            } else {
                                assert(pixel_bytes(self.fb, px, py) == pixel_bytes(
                                    fbprev,
                                    px,
                                    py,
                                ));
                                if scroll_redraw_covers_upto(
                                    gs,
                                    pre0.font,
                                    row_index as int,
                                    col_index as int + 1,
                                    px as int,
                                    py as int,
                                ) {
                                    let (ii, jj) = choose|ii: int, jj: int|
                                        0 <= ii < ROWS - 1 && 0 <= jj < redraw_prefix(gs[ii]) && (
                                        ii < row_index as int || (ii == row_index as int && jj
                                            < col_index as int + 1)) && #[trigger] redraw_cell_covers(
                                            gs,
                                            pre0.font,
                                            ii,
                                            jj,
                                            px as int,
                                            py as int,
                                        );
                                    assert(!(ii == row_index as int && jj == col_index as int));
                                    assert(scroll_redraw_covers_upto(
                                        gs,
                                        pre0.font,
                                        row_index as int,
                                        col_index as int,
                                        px as int,
                                        py as int,
                                    ));
                                } else {
                                    if scroll_redraw_covers_upto(
                                        gs,
                                        pre0.font,
                                        row_index as int,
                                        col_index as int,
                                        px as int,
                                        py as int,
                                    ) {
                                        let (ii, jj) = choose|ii: int, jj: int|
                                            0 <= ii < ROWS - 1 && 0 <= jj < redraw_prefix(gs[ii])
                                                && (ii < row_index as int || (ii
                                                == row_index as int && jj < col_index as int))
                                                && #[trigger] redraw_cell_covers(
                                                gs,
                                                pre0.font,
                                                ii,
                                                jj,
                                                px as int,
                                                py as int,
                                            );
                                        assert(scroll_redraw_covers_upto(
                                            gs,
                                            pre0.font,
                                            row_index as int,
                                            col_index as int + 1,
                                            px as int,
                                            py as int,
                                        ));
                                        assert(false);
                                    }
                                }
                            }
                        }
                    }
                    col_index = col_index + 1;
                }
                proof {
                    lemma_outside_region_trans(pre0.fb, gmid.fb, self.fb);
                    assert forall|px: u32, py: u32|
                        px < GRID_PIXEL_WIDTH && py < GRID_PIXEL_HEIGHT implies #[trigger] pixel_bytes(
                        self.fb,
                        px,
                        py,
                    ) == (if scroll_redraw_covers_upto(
                        gs,
                        pre0.font,
                        row_index as int + 1,
                        0,
                        px as int,
                        py as int,
                    ) {
                        format_bytes(pre0.fb.format, pre0.fg_color)
                    } else {
                        format_bytes(pre0.fb.format, pre0.bg_color)
                    }) by {
                        if scroll_redraw_covers_upto(
                            gs,
                            pre0.font,
                            row_index as int + 1,
                            0,
                            px as int,
                            py as int,
                        ) {
                            let (ii, jj) = choose|ii: int, jj: int|
                                0 <= ii < ROWS - 1 && 0 <= jj < redraw_prefix(gs[ii]) && (ii
                                    < row_index as int + 1 || (ii == row_index as int + 1 && jj
                                    < 0)) && #[trigger] redraw_cell_covers(
                                    gs,
                                    pre0.font,
                                    ii,
                                    jj,
                                    px as int,
                                    py as int,
                                );
                            assert(scroll_redraw_covers_upto(
                                gs,
                                pre0.font,
                                row_index as int,
                                col_index as int,
                                px as int,
                                py as int,
                            ));
                        } else {
                            if scroll_redraw_covers_upto(
                                gs,
                                pre0.font,
                                row_index as int,
                                col_index as int,
                                px as int,
                                py as int,
                            ) {
                                let (ii, jj) = choose|ii: int, jj: int|
                                    0 <= ii < ROWS - 1 && 0 <= jj < redraw_prefix(gs[ii]) && (ii
                                        < row_index as int || (ii == row_index as int && jj
                                        < col_index as int)) && #[trigger] redraw_cell_covers(
                                        gs,
                                        pre0.font,
                                        ii,
                                        jj,
                                        px as int,
                                        py as int,
                                    );
                                assert(scroll_redraw_covers_upto(
                                    gs,
                                    pre0.font,
                                    row_index as int + 1,
                                    0,
                                    px as int,
                                    py as int,
                                ));
                                assert(false);
                            }
                        }
                    }
                }
            }
            let blank = filled_row(' ');
            let ghost gfin = *self;
            self.buffer[ROWS - 1] = blank;
            proof {
                assert(blank@ =~= blank_row());
                assert forall|i: int| 0 <= i < ROWS - 1 implies #[trigger] self.grid()[i] == g0[i
                    + 1] by {
                    assert(self.grid()[i] == gfin.grid()[i]);
                }
                assert(self.grid()[ROWS - 1] == blank_row());
                assert(self.grid() =~~= scrolled(g0));
                assert forall|px: u32, py: u32|
                    px < GRID_PIXEL_WIDTH && py < GRID_PIXEL_HEIGHT implies #[trigger] pixel_bytes(
                    self.fb,
                    px,
                    py,
                ) == (if scroll_redraw_covers(self.grid(), pre0.font, px as int, py as int) {
                    format_bytes(pre0.fb.format, pre0.fg_color)
                } else {
                    format_bytes(pre0.fb.format, pre0.bg_color)
                }) by {
                    assert(scroll_redraw_covers(gs, pre0.font, px as int, py as int)
                        == scroll_redraw_covers_upto(
                        gs,
                        pre0.font,
                        (ROWS - 1) as int,
                        0,
                        px as int,
                        py as int,
                    ));
                }
            }
        }
    }
}

/// A row of `COLS` copies of one character.
fn filled_row(c: char) -> (r: Vec<char>)
    ensures
        r@.len() == COLS,
        forall|j: int| 0 <= j < COLS ==> r@[j] == c,
{
    let mut r: Vec<char> = Vec::new();
    for j in 0..COLS
        invariant
            r@.len() == j,
            forall|k: int| 0 <= k < j ==> r@[k] == c,
    {
        r.push(c);
    }
    r
}


/// A copy of a grid row.
fn copy_row(src: &Vec<char>) -> (r: Vec<char>)
    ensures
        r@ == src@,
{
    let mut r: Vec<char> = Vec::new();
    let n = src.len();
    for j in 0..n
        invariant
            n == src@.len(),
            r@ =~= src@.take(j as int),
    {
        r.push(src[j]);
    }
    proof {
        assert(src@.take(n as int) =~= src@);
    }
    r
}
} // verus!

