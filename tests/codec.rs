use half_block::codec::{image_to_ansi, image_to_ansi_into};
use half_block::pixel::{Frame, Rgba};

fn px(r: u8, g: u8, b: u8, a: u8) -> Rgba {
    Rgba { r, g, b, a }
}

fn frame(width: u32, height: u32, pixels: Vec<Rgba>) -> Frame {
    Frame::from_pixels(width, height, pixels).unwrap()
}

#[test]
fn two_by_two_opaque_frame() {
    let cur = frame(
        2,
        2,
        vec![px(255, 0, 0, 255), px(0, 255, 0, 255), px(0, 0, 255, 255), px(255, 255, 0, 255)],
    );
    let prev = Frame::new(2, 2);
    let out = image_to_ansi(&prev, &cur, 127, false);
    assert_eq!(
        out,
        "\x1b[48;2;255;0;0m\x1b[38;2;0;0;255m\u{2584}\x1b[48;2;0;255;0m\x1b[38;2;255;255;0m\u{2584}\x1b[0m"
    );
}

#[test]
fn full_width_leaves_cursor_on_last_column() {
    let cur = frame(
        2,
        2,
        vec![px(255, 0, 0, 255), px(0, 255, 0, 255), px(0, 0, 255, 255), px(255, 255, 0, 255)],
    );
    let prev = Frame::new(2, 2);
    let out = image_to_ansi(&prev, &cur, 127, true);
    assert!(out.ends_with("\u{2584}\x1b[0m\x1b[C"));
}

#[test]
fn identical_frames_emit_only_reset_and_padding() {
    let f = frame(3, 4, vec![px(1, 2, 3, 255); 12]);
    let out = image_to_ansi(&f, &f, 127, false);
    assert_eq!(out, "\x1b[0m\x1b[3C\x1b[B");
    let g = frame(1, 1, vec![px(9, 9, 9, 255)]);
    assert_eq!(image_to_ansi(&g, &g, 127, false), "\x1b[0m\x1b[C");
}

#[test]
fn empty_frame_emits_nothing() {
    let f = Frame::new(5, 0);
    assert_eq!(image_to_ansi(&f, &f, 127, false), "");
}

#[test]
fn zero_width_frame_emits_nothing() {
    let f = Frame::new(0, 2);
    assert_eq!(image_to_ansi(&f, &f, 127, false), "");
    let g = Frame::new(0, 7);
    let mut buf = String::from("junk");
    image_to_ansi_into(&g, &g, 127, true, &mut buf);
    assert_eq!(buf, "");
}

#[test]
fn transparent_cells_after_opaque_reset_first() {
    let prev = frame(3, 2, vec![px(0, 0, 255, 255); 6]);
    let red = px(255, 0, 0, 255);
    let clear = px(0, 0, 0, 0);
    let cur = frame(3, 2, vec![red, clear, clear, red, clear, clear]);
    let out = image_to_ansi(&prev, &cur, 127, false);
    assert_eq!(out, "\x1b[38;2;255;0;0m\u{2588}\x1b[0m  \x1b[0m");
}

#[test]
fn unchanged_cells_are_skipped_with_cursor_moves() {
    let red = px(255, 0, 0, 255);
    let blue = px(0, 0, 255, 255);
    let prev = frame(4, 2, vec![blue; 8]);
    let cur = frame(4, 2, vec![blue, blue, blue, red, blue, blue, blue, red]);
    let out = image_to_ansi(&prev, &cur, 127, false);
    assert_eq!(out, "\x1b[3C\x1b[38;2;255;0;0m\u{2588}\x1b[0m");
}

#[test]
fn second_row_moves_down_and_left() {
    let red = px(255, 0, 0, 255);
    let blue = px(0, 0, 255, 255);
    let prev = frame(2, 4, vec![blue; 8]);
    let cur = frame(2, 4, vec![blue, red, blue, red, red, blue, red, blue]);
    let out = image_to_ansi(&prev, &cur, 127, false);
    assert_eq!(
        out,
        "\x1b[C\x1b[38;2;255;0;0m\u{2588}\x1b[0m\x1b[2D\x1b[B\x1b[38;2;255;0;0m\u{2588}\x1b[0m\x1b[C"
    );
}

#[test]
fn odd_height_last_row_uses_upper_half() {
    let red = px(255, 0, 0, 255);
    let prev = Frame::new(2, 1);
    let cur = frame(2, 1, vec![red, red]);
    let out = image_to_ansi(&prev, &cur, 127, false);
    assert_eq!(out, "\x1b[38;2;255;0;0m\u{2580}\u{2580}\x1b[0m");
}

#[test]
fn half_transparent_cells_reset_then_set_foreground() {
    let red = px(255, 0, 0, 255);
    let clear = px(0, 0, 0, 0);
    let prev = frame(2, 2, vec![px(1, 1, 1, 255); 4]);
    let cur = frame(2, 2, vec![clear, red, red, clear]);
    let out = image_to_ansi(&prev, &cur, 127, false);
    assert_eq!(
        out,
        "\x1b[0m\x1b[38;2;255;0;0m\u{2584}\x1b[0m\x1b[38;2;255;0;0m\u{2580}\x1b[0m"
    );
}

#[test]
fn reused_colours_emit_no_sgr() {
    let a = px(10, 20, 30, 255);
    let b = px(40, 50, 60, 255);
    let prev = Frame::new(3, 2);
    let cur = frame(3, 2, vec![a, b, a, b, a, b]);
    let out = image_to_ansi(&prev, &cur, 127, false);
    assert_eq!(
        out,
        "\x1b[48;2;10;20;30m\x1b[38;2;40;50;60m\u{2584}\u{2580}\u{2584}\x1b[0m"
    );
}

#[test]
fn into_clears_the_buffer_first() {
    let f = frame(1, 2, vec![px(5, 5, 5, 255); 2]);
    let mut buf = String::from("junk");
    image_to_ansi_into(&f, &f, 127, false, &mut buf);
    assert_eq!(buf, "\x1b[0m\x1b[C");
}
