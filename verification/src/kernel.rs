//! The kernel stage's entry work: paint the demonstration pattern, greet
//! through the glyph rasterizer, and drive the console through a fixed
//! sequence of writes (every two-digit pair on its own line, then a
//! closing word).

use vstd::prelude::*;

use crate::console::Console;
use crate::console::ConsoleState;
use crate::console::GRID_PIXEL_HEIGHT;
use crate::console::GRID_PIXEL_WIDTH;
use crate::console::initial_grid;
use crate::console::lemma_outside_region_trans;
use crate::console::lemma_put_string_append;
use crate::console::outside_region_preserved;
use crate::console::put_string_spec;
use crate::graphics;
use crate::graphics::char_in_font;
use crate::graphics::char_cell_covers;
use crate::graphics::example_color;
use crate::graphics::example_rendered;
use crate::graphics::format_bytes;
use crate::graphics::glyph_covers;
use crate::graphics::glyph_of;
use crate::graphics::pixel_bytes;
use crate::graphics::rect_covers;
use crate::graphics::rect_filled;
use crate::graphics::same_shape;
use crate::graphics::string_covers;
use crate::graphics::string_rendered;
use crate::graphics::Font;
use crate::graphics::FrameBuffer;
use crate::memmap::dec_digit_char;

verus! {

/// The kernel stage's rendering pipeline: the demonstration pattern
/// covers the screen, the greeting is drawn at (0, 100), the console's
/// region is painted over in the background colour, and everything after
/// that leaves the pixels outside the console region alone.
pub open spec fn boot_render_chain(
    fb0: FrameBuffer,
    fb1: FrameBuffer,
    fb2: FrameBuffer,
    fb3: FrameBuffer,
    font: Font,
    end: FrameBuffer,
) -> bool {
    &&& example_rendered(fb0, fb1)
    &&& string_rendered(
        fb1,
        fb2,
        0,
        100,
        (255u8, 255u8, 255u8),
        "Hello, world from graphics"@,
        font,
    )
    &&& rect_filled(
        fb2,
        fb3,
        0,
        0,
        GRID_PIXEL_WIDTH,
        GRID_PIXEL_HEIGHT,
        format_bytes(fb0.format, (0u8, 0u8, 0u8)),
    )
    &&& outside_region_preserved(fb3, end)
}

/// The text of the first `n` lines the demonstration writes: the pairs
/// 00, 01, ... each followed by a line break.
pub open spec fn demo_pairs_text(n: int) -> Seq<char>
    decreases n,
{
    if n <= 0 {
        Seq::empty()
    } else {
        demo_pairs_text(n - 1) + seq![
            dec_digit_char((n - 1) / 10),
            dec_digit_char((n - 1) % 10),
            '\n',
        ]
    }
}

/// The single-character decimal string for a digit.
fn digit_str(d: usize) -> (s: &'static str)
    requires
        d < 10,
    ensures
        s@ == seq![dec_digit_char(d as int)],
        1 <= (dec_digit_char(d as int) as int) <= 126,
{
    proof {
        reveal_strlit("0");
        reveal_strlit("1");
        reveal_strlit("2");
        reveal_strlit("3");
        reveal_strlit("4");
        reveal_strlit("5");
        reveal_strlit("6");
        reveal_strlit("7");
        reveal_strlit("8");
        reveal_strlit("9");
    }
    match d {
        0 => {
            proof {
                assert("0"@ =~= seq![dec_digit_char(0)]);
            }
            "0"
        },
        1 => {
            proof {
                assert("1"@ =~= seq![dec_digit_char(1)]);
            }
            "1"
        },
        2 => {
            proof {
                assert("2"@ =~= seq![dec_digit_char(2)]);
            }
            "2"
        },
        3 => {
            proof {
                assert("3"@ =~= seq![dec_digit_char(3)]);
            }
            "3"
        },
        4 => {
            proof {
                assert("4"@ =~= seq![dec_digit_char(4)]);
            }
            "4"
        },
        5 => {
            proof {
                assert("5"@ =~= seq![dec_digit_char(5)]);
            }
            "5"
        },
        6 => {
            proof {
                assert("6"@ =~= seq![dec_digit_char(6)]);
            }
            "6"
        },
        7 => {
            proof {
                assert("7"@ =~= seq![dec_digit_char(7)]);
            }
            "7"
        },
        8 => {
            proof {
                assert("8"@ =~= seq![dec_digit_char(8)]);
            }
            "8"
        },
        _ => {
            proof {
                assert("9"@ =~= seq![dec_digit_char(9)]);
            }
            "9"
        },
    }
}

/// Run the kernel stage's rendering: the full-screen demonstration
/// pattern, a greeting drawn directly through the rasterizer, and the
/// fixed console script — every two-digit pair on its own line, then the
/// closing word. Returns the console in its final state.
pub fn kernel_main(fb: FrameBuffer, font: Font) -> (con: Console)
    requires
        fb.wf(),
        GRID_PIXEL_WIDTH <= fb.resolution.0,
        GRID_PIXEL_HEIGHT <= fb.resolution.1,
        126 <= font.glyphs@.len(),
    ensures
        con.wf(),
        con.state() == put_string_spec(
            put_string_spec(
                ConsoleState { grid: initial_grid(), row: 0, col: 0 },
                demo_pairs_text(100),
            ),
            "finish!"@,
        ),
        same_shape(fb, con.fb),
        exists|fb1: FrameBuffer, fb2: FrameBuffer, fb3: FrameBuffer|
            #[trigger] boot_render_chain(fb, fb1, fb2, fb3, font, con.fb),
        forall|px: u32, py: u32|
            px < fb.resolution.0 && py < fb.resolution.1 && !(px < GRID_PIXEL_WIDTH && py
                < GRID_PIXEL_HEIGHT) ==> #[trigger] pixel_bytes(con.fb, px, py) == format_bytes(
                fb.format,
                example_color(px, py),
            ),
{
    let ghost fb0 = fb;
    let mut fb = fb;
    graphics::print_example(&mut fb);
    let ghost fbs1 = fb;
    let hello = "Hello, world from graphics";
    proof {
        reveal_strlit("Hello, world from graphics");
        let sv = hello@;
        assert forall|i: int| 0 <= i < hello@.len() implies char_in_font(
            #[trigger] hello@[i],
            font,
        ) by {
            if i == 0 {
                assert(sv[0] == 'H');
            } else if i == 1 {
                assert(sv[1] == 'e');
            } else if i == 2 {
                assert(sv[2] == 'l');
            } else if i == 3 {
                assert(sv[3] == 'l');
            } else if i == 4 {
                assert(sv[4] == 'o');
            } else if i == 5 {
                assert(sv[5] == ',');
            } else if i == 6 {
                assert(sv[6] == ' ');
            } else if i == 7 {
                assert(sv[7] == 'w');
            } else if i == 8 {
                assert(sv[8] == 'o');
            } else if i == 9 {
                assert(sv[9] == 'r');
            } else if i == 10 {
                assert(sv[10] == 'l');
            } else if i == 11 {
                assert(sv[11] == 'd');
            } else if i == 12 {
                assert(sv[12] == ' ');
            } else if i == 13 {
                assert(sv[13] == 'f');
            } else if i == 14 {
                assert(sv[14] == 'r');
            } else if i == 15 {
                assert(sv[15] == 'o');
            } else if i == 16 {
                assert(sv[16] == 'm');
            } else if i == 17 {
                assert(sv[17] == ' ');
            } else if i == 18 {
                assert(sv[18] == 'g');
            } else if i == 19 {
                assert(sv[19] == 'r');
            } else if i == 20 {
                assert(sv[20] == 'a');
            } else if i == 21 {
                assert(sv[21] == 'p');
            } else if i == 22 {
                assert(sv[22] == 'h');
            } else if i == 23 {
                assert(sv[23] == 'i');
            } else if i == 24 {
                assert(sv[24] == 'c');
            } else if i == 25 {
                assert(sv[25] == 's');
            }
        }
    }
    graphics::print_string(&mut fb, 0, 100, (255, 255, 255), hello, &font);
    let ghost fbs2 = fb;
    let mut con = Console::new(fb, font);
    let ghost fbs3 = con.fb;
    proof {
        assert(fbs2.format == fb0.format);
    }
    let ghost init = ConsoleState { grid: initial_grid(), row: 0, col: 0 };
    let newline = "\n";
    proof {
        reveal_strlit("\n");
        assert(newline@ =~= seq!['\n']);
    }
    for s1 in 0..10usize
        invariant
            con.wf(),
            126 <= con.font.glyphs@.len(),
            newline@ == seq!['\n'],
            con.state() == put_string_spec(init, demo_pairs_text(10 * s1 as int)),
            same_shape(fbs3, con.fb),
            outside_region_preserved(fbs3, con.fb),
    {
        for s2 in 0..10usize
            invariant
                s1 < 10,
                con.wf(),
                126 <= con.font.glyphs@.len(),
                newline@ == seq!['\n'],
                con.state() == put_string_spec(
                    init,
                    demo_pairs_text(10 * s1 as int + s2 as int),
                ),
                same_shape(fbs3, con.fb),
                outside_region_preserved(fbs3, con.fb),
        {
            let ghost k = 10 * s1 as int + s2 as int;
            let ghost st = con.state();
            let d1 = digit_str(s1);
            let d2 = digit_str(s2);
            let ghost fbk0 = con.fb;
            con.put_string(d1);
            proof {
                lemma_outside_region_trans(fbs3, fbk0, con.fb);
            }
            let ghost fbk1 = con.fb;
            con.put_string(d2);
            proof {
                lemma_outside_region_trans(fbs3, fbk1, con.fb);
            }
            let ghost fbk2 = con.fb;
            con.put_string(newline);
            proof {
                lemma_outside_region_trans(fbs3, fbk2, con.fb);
            }
            proof {
                let pair = seq![
                    dec_digit_char(k / 10),
                    dec_digit_char(k % 10),
                    '\n',
                ];
                assert(k / 10 == s1 as int && k % 10 == s2 as int) by (nonlinear_arith)
                    requires
                        k == 10 * s1 as int + s2 as int,
                        0 <= (s1 as int) && (s1 as int) < 10,
                        0 <= (s2 as int) && (s2 as int) < 10,
                ;
                lemma_put_string_append(st, d1@, d2@);
                assert(d1@ + d2@ =~= seq![dec_digit_char(s1 as int), dec_digit_char(s2 as int)]);
                lemma_put_string_append(st, d1@ + d2@, newline@);
                assert((d1@ + d2@) + newline@ =~= pair);
                assert(con.state() == put_string_spec(st, pair));
                assert(demo_pairs_text(k + 1) == demo_pairs_text(k) + pair);
                lemma_put_string_append(init, demo_pairs_text(k), pair);
            }
        }
    }
    let finish = "finish!";
    proof {
        reveal_strlit("finish!");
        let sv = finish@;
        assert forall|i: int| 0 <= i < finish@.len() implies char_in_font(
            #[trigger] finish@[i],
            con.font,
        ) by {
            if i == 0 {
                assert(sv[0] == 'f');
            } else if i == 1 {
                assert(sv[1] == 'i');
            } else if i == 2 {
                assert(sv[2] == 'n');
            } else if i == 3 {
                assert(sv[3] == 'i');
            } else if i == 4 {
                assert(sv[4] == 's');
            } else if i == 5 {
                assert(sv[5] == 'h');
            } else if i == 6 {
                assert(sv[6] == '!');
            }
        }
        assert(demo_pairs_text(100) == demo_pairs_text((10 * 10) as int));
    }
    let ghost fbk3 = con.fb;
    con.put_string(finish);
    proof {
        lemma_outside_region_trans(fbs3, fbk3, con.fb);
        assert(boot_render_chain(fb0, fbs1, fbs2, fbs3, font, con.fb));
        reveal_strlit("Hello, world from graphics");
        assert forall|px: u32, py: u32|
            px < fb0.resolution.0 && py < fb0.resolution.1 && !(px < GRID_PIXEL_WIDTH && py
                < GRID_PIXEL_HEIGHT) implies #[trigger] pixel_bytes(con.fb, px, py) == format_bytes(
            fb0.format,
            example_color(px, py),
        ) by {
            assert(pixel_bytes(con.fb, px, py) == pixel_bytes(fbs3, px, py));
            assert(!rect_covers(
                0,
                0,
                GRID_PIXEL_WIDTH as int,
                GRID_PIXEL_HEIGHT as int,
                px as int,
                py as int,
            ));
            assert(pixel_bytes(fbs3, px, py) == pixel_bytes(fbs2, px, py));
            let sv = "Hello, world from graphics"@;
            assert(!string_covers(sv, font, 0, 100, px as int, py as int)) by {
                if string_covers(sv, font, 0, 100, px as int, py as int) {
                    let j = choose|j: int|
                        0 <= j < sv.len() && #[trigger] char_cell_covers(
                            sv,
                            font,
                            0,
                            100,
                            j,
                            px as int,
                            py as int,
                        );
                    assert(glyph_covers(glyph_of(font, sv[j]), 10 * j, 100, px as int, py as int));
                    assert((px as int) < 10 * j + 9);
                    assert((py as int) < 118);
                    assert(false);
                }
            }
            assert(pixel_bytes(fbs2, px, py) == pixel_bytes(fbs1, px, py));
            assert(pixel_bytes(fbs1, px, py) == format_bytes(fb0.format, example_color(px, py)));
        }
    }
    con
}

} // verus!
