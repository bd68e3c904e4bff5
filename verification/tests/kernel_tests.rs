use kardos::console::COLS;
use kardos::console::ROWS;
use kardos::graphics::Font;
use kardos::kernel::kernel_main;
use kardos::FrameBuffer;
use kardos::MyPixelFormat;

#[test]
fn kernel_main_writes_the_demo_script() {
    let fb = FrameBuffer {
        frame_buffer: vec![0u8; 4 * 512 * 540],
        stride: 512,
        resolution: (512, 540),
        format: MyPixelFormat::Rgb,
    };
    let font = Font {
        glyphs: vec![[0u16; 18]; 126],
    };
    let con = kernel_main(fb, font);
    // one hundred two-digit lines scrolled through the grid: the visible
    // rows hold the last twenty-nine pairs, then the closing word
    assert_eq!(con.buffer[0][0], '7');
    assert_eq!(con.buffer[0][1], '1');
    assert_eq!(con.buffer[28][0], '9');
    assert_eq!(con.buffer[28][1], '9');
    let closing: Vec<char> = "finish!".chars().collect();
    for (j, &c) in closing.iter().enumerate() {
        assert_eq!(con.buffer[ROWS - 1][j], c);
    }
    for j in closing.len()..COLS {
        assert_eq!(con.buffer[ROWS - 1][j], ' ');
    }
    assert_eq!(con.cursor_row, ROWS - 1);
    assert_eq!(con.cursor_col, closing.len());
}
