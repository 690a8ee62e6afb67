use hershey::reader::HersheyChar;
use hershey::render::{
    draw_hershey_char, draw_hershey_str, draw_line, draw_rect, v2i8_to_vec2, vec2_to_index,
    vec2_within, vec2_within_bounds, PixelBuffer, Scale,
};

const BG: u32 = 0x201d1a;
const FG: u32 = 0xffffff;

fn fresh(w: usize, h: usize) -> PixelBuffer {
    PixelBuffer::new(w, h, BG)
}

fn unit_scale() -> Scale {
    Scale { num: 1, den: 1 }
}

#[test]
fn buffer_starts_filled() {
    let buf = fresh(4, 3);
    assert_eq!(buf.width(), 4);
    assert_eq!(buf.height(), 3);
    assert_eq!(buf.data().len(), 12);
    for x in 0..4 {
        for y in 0..3 {
            assert_eq!(buf.pixel((x, y)), BG);
        }
    }
}

#[test]
fn put_writes_one_pixel() {
    let mut buf = fresh(4, 4);
    buf.put((2, 1), FG);
    for x in 0..4 {
        for y in 0..4 {
            let want: u32 = if (x, y) == (2, 1) { FG } else { BG };
            assert_eq!(buf.pixel((x, y)), want);
        }
    }
}

#[test]
fn vec2_helpers() {
    assert!(vec2_within((0, 0), (4, 4)));
    assert!(vec2_within((3, 3), (4, 4)));
    assert!(!vec2_within((4, 0), (4, 4)));
    assert!(!vec2_within((0, -1), (4, 4)));
    assert!(vec2_within_bounds((2, 2), (2, 2), (3, 3)));
    assert!(!vec2_within_bounds((3, 2), (2, 2), (3, 3)));
    assert_eq!(vec2_to_index((3, 2), 10), 23);
    assert_eq!(v2i8_to_vec2((-50, 7)), (-50, 7));
}

#[test]
fn line_paints_its_path() {
    let mut buf = fresh(8, 8);
    draw_line(&mut buf, (1, 1), (4, 1), FG);
    for x in 0..8 {
        for y in 0..8 {
            let want: u32 = if y == 1 && (1..=4).contains(&x) { FG } else { BG };
            assert_eq!(buf.pixel((x, y)), want);
        }
    }
}

#[test]
fn out_of_bounds_segment_is_dropped_whole() {
    let mut buf = fresh(8, 8);
    draw_line(&mut buf, (0, 0), (8, 0), FG);
    for x in 0..8 {
        for y in 0..8 {
            assert_eq!(buf.pixel((x, y)), BG);
        }
    }
}

#[test]
fn rect_paints_its_border_only() {
    let mut buf = fresh(5, 5);
    draw_rect(&mut buf, (1, 1), (3, 3), FG);
    for x in 0..5 {
        for y in 0..5 {
            let on_border = (1..=3).contains(&x)
                && (1..=3).contains(&y)
                && (x == 1 || x == 3 || y == 1 || y == 3);
            let want: u32 = if on_border { FG } else { BG };
            assert_eq!(buf.pixel((x, y)), want);
        }
    }
}

#[test]
fn rect_with_corner_outside_is_dropped() {
    let mut buf = fresh(5, 5);
    draw_rect(&mut buf, (1, 1), (5, 3), FG);
    for x in 0..5 {
        for y in 0..5 {
            assert_eq!(buf.pixel((x, y)), BG);
        }
    }
}

fn segment_glyph() -> HersheyChar {
    HersheyChar {
        id: 1,
        vertex_num: 2,
        left_hand: -2,
        right_hand: 3,
        vertex_data: vec![Some((0, 0)), Some((2, 0))],
    }
}

#[test]
fn glyph_strokes_are_painted() {
    let mut buf = fresh(8, 8);
    let chr = segment_glyph();
    draw_hershey_char(&mut buf, &chr, (1, 1), unit_scale(), FG);
    for x in 0..8 {
        for y in 0..8 {
            let want: u32 = if y == 1 && (1..=3).contains(&x) { FG } else { BG };
            assert_eq!(buf.pixel((x, y)), want);
        }
    }
}

#[test]
fn pen_lift_breaks_the_polyline() {
    let mut buf = fresh(8, 8);
    let chr = HersheyChar {
        id: 1,
        vertex_num: 3,
        left_hand: 0,
        right_hand: 0,
        vertex_data: vec![Some((0, 0)), None, Some((2, 0))],
    };
    draw_hershey_char(&mut buf, &chr, (1, 1), unit_scale(), FG);
    for x in 0..8 {
        for y in 0..8 {
            assert_eq!(buf.pixel((x, y)), BG);
        }
    }
}

#[test]
fn glyph_scaling_rounds_half_away() {
    let mut buf = fresh(8, 8);
    let chr = HersheyChar {
        id: 1,
        vertex_num: 2,
        left_hand: 0,
        right_hand: 0,
        vertex_data: vec![Some((0, 0)), Some((1, 0))],
    };
    draw_hershey_char(&mut buf, &chr, (4, 4), Scale { num: 3, den: 2 }, FG);
    // 1 * 3/2 rounds to 2: the segment runs from (4,4) to (6,4).
    for x in 0..8 {
        for y in 0..8 {
            let want: u32 = if y == 4 && (4..=6).contains(&x) { FG } else { BG };
            assert_eq!(buf.pixel((x, y)), want);
        }
    }
}

#[test]
fn glyph_segment_with_an_endpoint_outside_is_dropped() {
    let mut buf = fresh(8, 8);
    let chr = HersheyChar {
        id: 1,
        vertex_num: 2,
        left_hand: 0,
        right_hand: 0,
        vertex_data: vec![Some((0, 0)), Some((20, 0))],
    };
    draw_hershey_char(&mut buf, &chr, (0, 0), unit_scale(), FG);
    for x in 0..8 {
        for y in 0..8 {
            assert_eq!(buf.pixel((x, y)), BG);
        }
    }
}

fn tiny_font() -> Vec<HersheyChar> {
    let space = HersheyChar {
        id: 0,
        vertex_num: 0,
        left_hand: -4,
        right_hand: 4,
        vertex_data: vec![],
    };
    let bang = HersheyChar {
        id: 1,
        vertex_num: 2,
        left_hand: -2,
        right_hand: 3,
        vertex_data: vec![Some((0, 0)), Some((0, 2))],
    };
    vec![space, bang]
}

#[test]
fn text_advance_accumulates_bearings() {
    let font = tiny_font();
    let mut buf = fresh(16, 16);
    let s = unit_scale();
    assert_eq!(draw_hershey_str(&mut buf, &font, " ", (0, 0), s, FG), (8, 0));
    assert_eq!(draw_hershey_str(&mut buf, &font, "!", (0, 0), s, FG), (5, 0));
    assert_eq!(draw_hershey_str(&mut buf, &font, "! ", (0, 0), s, FG), (13, 0));
}

#[test]
fn text_advance_adds_over_concatenation() {
    let font = tiny_font();
    let s = unit_scale();
    let mut buf = fresh(16, 16);
    let whole = draw_hershey_str(&mut buf, &font, "! !!", (0, 0), s, FG);
    let first = draw_hershey_str(&mut buf, &font, "! ", (0, 0), s, FG);
    let second = draw_hershey_str(&mut buf, &font, "!!", (0, 0), s, FG);
    assert_eq!(whole.0, first.0 + second.0);
}

#[test]
fn newline_starts_the_next_line() {
    let font = tiny_font();
    let mut buf = fresh(16, 16);
    assert_eq!(draw_hershey_str(&mut buf, &font, "!\n", (0, 0), unit_scale(), FG), (0, 32));
    assert_eq!(draw_hershey_str(&mut buf, &font, "!\n!", (0, 0), unit_scale(), FG), (5, 32));
}

#[test]
fn characters_beyond_the_font_are_skipped() {
    let font = tiny_font();
    let mut buf = fresh(8, 8);
    let ofs = draw_hershey_str(&mut buf, &font, "az", (0, 0), unit_scale(), FG);
    assert_eq!(ofs, (0, 0));
    for x in 0..8 {
        for y in 0..8 {
            assert_eq!(buf.pixel((x, y)), BG);
        }
    }
}

#[test]
fn control_characters_fall_back_to_the_first_glyph() {
    let font = tiny_font();
    let mut buf = fresh(16, 16);
    let ofs = draw_hershey_str(&mut buf, &font, "\t", (0, 0), unit_scale(), FG);
    assert_eq!(ofs, (8, 0));
}

#[test]
fn text_position_corrects_for_the_left_bearing() {
    let font = tiny_font();
    let mut buf = fresh(16, 16);
    draw_hershey_str(&mut buf, &font, "!", (3, 3), unit_scale(), FG);
    // The glyph is drawn at x = 3 + (0 - left_hand) = 5, its stroke running
    // from (5, 3) down to (5, 5).
    for x in 0..16 {
        for y in 0..16 {
            let want: u32 = if x == 5 && (3..=5).contains(&y) { FG } else { BG };
            assert_eq!(buf.pixel((x, y)), want);
        }
    }
}

#[test]
fn inverted_rect_paints_only_what_its_loops_reach() {
    // With the corner above the anchor only the two rows appear...
    let mut buf = fresh(6, 6);
    draw_rect(&mut buf, (1, 3), (3, 1), FG);
    for x in 0..6 {
        for y in 0..6 {
            let want: u32 = if (1..=3).contains(&x) && (y == 1 || y == 3) { FG } else { BG };
            assert_eq!(buf.pixel((x, y)), want);
        }
    }
    // ...and with it to the left only the two columns between the rows.
    let mut buf = fresh(6, 6);
    draw_rect(&mut buf, (3, 1), (1, 4), FG);
    for x in 0..6 {
        for y in 0..6 {
            let want: u32 = if (x == 1 || x == 3) && (2..=3).contains(&y) { FG } else { BG };
            assert_eq!(buf.pixel((x, y)), want);
        }
    }
}
