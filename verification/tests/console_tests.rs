use kardos::console::Console;
use kardos::console::COLS;
use kardos::console::ROWS;
use kardos::graphics::read_pixel;
use kardos::graphics::Font;
use kardos::FrameBuffer;
use kardos::MyPixelFormat;

fn console_fb() -> FrameBuffer {
    FrameBuffer {
        frame_buffer: vec![0xaau8; 4 * 512 * 540],
        stride: 512,
        resolution: (512, 540),
        format: MyPixelFormat::Rgb,
    }
}

fn console_font() -> Font {
    Font {
        glyphs: vec![[0u16; 18]; 221],
    }
}

fn line_text(k: usize) -> String {
    let d1 = char::from(b'0' + (k / 10) as u8);
    let d2 = char::from(b'0' + (k % 10) as u8);
    let mut s = String::new();
    s.push(d1);
    s.push(d2);
    s
}

#[test]
fn new_console_is_empty_and_painted() {
    let con = Console::new(console_fb(), console_font());
    assert_eq!(con.cursor_row, 0);
    assert_eq!(con.cursor_col, 0);
    assert!(con.buffer.iter().all(|row| row.iter().all(|&c| c == '\0')));
    // the console region is painted black over the 0xaa background
    assert_eq!(read_pixel(&con.fb, 0, 0), (0, 0, 0));
    assert_eq!(read_pixel(&con.fb, 499, 539), (0, 0, 0));
    // outside the console region the old bytes remain
    assert_eq!(read_pixel(&con.fb, 505, 0), (0xaa, 0xaa, 0xaa));
}

#[test]
fn put_string_records_and_advances() {
    let mut con = Console::new(console_fb(), console_font());
    con.put_string("ab");
    assert_eq!(con.buffer[0][0], 'a');
    assert_eq!(con.buffer[0][1], 'b');
    assert_eq!(con.cursor_col, 2);
    assert_eq!(con.cursor_row, 0);
    // pixels outside the console region are never touched
    assert_eq!(read_pixel(&con.fb, 505, 10), (0xaa, 0xaa, 0xaa));
}

#[test]
fn newline_resets_column() {
    let mut con = Console::new(console_fb(), console_font());
    con.put_string("ab\ncd");
    assert_eq!(con.buffer[0][0], 'a');
    assert_eq!(con.buffer[1][0], 'c');
    assert_eq!(con.buffer[1][1], 'd');
    assert_eq!(con.cursor_row, 1);
    assert_eq!(con.cursor_col, 2);
}

#[test]
fn column_limit_drops_overflow_without_wrapping() {
    let mut con = Console::new(console_fb(), console_font());
    let long: String = std::iter::repeat('x').take(60).collect();
    con.put_string(&long);
    for j in 0..COLS - 1 {
        assert_eq!(con.buffer[0][j], 'x');
    }
    // the cell at the limit stays empty: exactly COLS - 1 populated cells
    assert_eq!(con.buffer[0][COLS - 1], '\0');
    assert_eq!(con.cursor_col, COLS - 1);
    assert_eq!(con.cursor_row, 0);
    // nothing wrapped to the next row
    assert!(con.buffer[1].iter().all(|&c| c == '\0'));
}

#[test]
fn put_string_draws_the_glyph_at_the_cursor_cell() {
    // a font whose every glyph is fully set: a drawn cell shows the
    // foreground colour over the black background
    let font = Font {
        glyphs: vec![[0xffffu16; 18]; 221],
    };
    let mut con = Console::new(console_fb(), font);
    con.put_string("A");
    assert_eq!(read_pixel(&con.fb, 0, 0), (255, 255, 255));
    assert_eq!(read_pixel(&con.fb, 8, 17), (255, 255, 255));
    // column nine is the inter-glyph gap, still background
    assert_eq!(read_pixel(&con.fb, 9, 0), (0, 0, 0));
    // the next cell is untouched
    assert_eq!(read_pixel(&con.fb, 10, 0), (0, 0, 0));
}

#[test]
fn scroll_repaints_and_redraws_the_shifted_rows() {
    let font = Font {
        glyphs: vec![[0xffffu16; 18]; 221],
    };
    let mut con = Console::new(console_fb(), font);
    for k in 0..ROWS {
        con.put_string(&line_text(k));
        con.put_string("\n");
    }
    // the shifted top row was redrawn: its two recorded cells show the
    // foreground colour
    assert_eq!(read_pixel(&con.fb, 0, 0), (255, 255, 255));
    assert_eq!(read_pixel(&con.fb, 10, 0), (255, 255, 255));
    // the cell after the row's text is background again
    assert_eq!(read_pixel(&con.fb, 25, 0), (0, 0, 0));
    // the blank bottom row is not redrawn: pure background
    assert_eq!(read_pixel(&con.fb, 0, ((ROWS - 1) * 18) as u32), (0, 0, 0));
}

#[test]
fn fewer_lines_than_rows_never_scroll() {
    let mut con = Console::new(console_fb(), console_font());
    for k in 0..ROWS - 1 {
        con.put_string(&line_text(k));
        con.put_string("\n");
        assert_eq!(con.cursor_row, k + 1);
    }
    // every line still sits where it was written
    for k in 0..ROWS - 1 {
        let t = line_text(k);
        let chars: Vec<char> = t.chars().collect();
        assert_eq!(con.buffer[k][0], chars[0]);
        assert_eq!(con.buffer[k][1], chars[1]);
    }
}

#[test]
fn scroll_shifts_rows_up_and_blanks_the_bottom() {
    let mut con = Console::new(console_fb(), console_font());
    // fill all ROWS rows, then one more line to force a single scroll
    for k in 0..ROWS {
        con.put_string(&line_text(k));
        con.put_string("\n");
    }
    // the top row now holds the original second line
    let second = line_text(1);
    let chars: Vec<char> = second.chars().collect();
    assert_eq!(con.buffer[0][0], chars[0]);
    assert_eq!(con.buffer[0][1], chars[1]);
    // the bottom row is blank
    assert!(con.buffer[ROWS - 1].iter().all(|&c| c == ' '));
    assert_eq!(con.cursor_row, ROWS - 1);
    assert_eq!(con.cursor_col, 0);
    // one more line lands on the bottom row
    con.put_string(&line_text(ROWS));
    let last = line_text(ROWS);
    let chars: Vec<char> = last.chars().collect();
    assert_eq!(con.buffer[ROWS - 1][0], chars[0]);
    assert_eq!(con.buffer[ROWS - 1][1], chars[1]);
}
