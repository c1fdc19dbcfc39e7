use half_block::color::Color;
use half_block::compose::canvas_extent;
use half_block::pixel::{Frame, Rgb, Rgba};
use half_block::canvas_size::CanvasSize;
use half_block::playback::{canvas_plan, compose_frame, reaches_right_edge, refresh_window_canvas, window_canvas, WindowUpdate};
use half_block::size::Size;
use half_block::style::Style;

const RED: Rgba = Rgba { r: 255, g: 0, b: 0, a: 255 };
const BLUE: Rgba = Rgba { r: 0, g: 0, b: 255, a: 255 };
const CLEAR: Rgba = Rgba { r: 0, g: 0, b: 0, a: 0 };

#[test]
fn copy_from_places_pixels_or_refuses() {
    let mut canvas = Frame::from_pixels(3, 3, vec![BLUE; 9]).unwrap();
    let small = Frame::from_pixels(2, 1, vec![RED, RED]).unwrap();
    assert!(canvas.copy_from(&small, 1, 2));
    assert_eq!(canvas.get_pixel(1, 2), RED);
    assert_eq!(canvas.get_pixel(2, 2), RED);
    assert_eq!(canvas.get_pixel(0, 2), BLUE);
    assert_eq!(canvas.get_pixel(1, 1), BLUE);
    assert!(!canvas.copy_from(&small, 2, 0));
    assert_eq!(canvas.get_pixel(2, 0), BLUE);
}

#[test]
fn transparent_background_clears_for_partial_frames() {
    let mut canvas = Frame::from_pixels(2, 2, vec![BLUE; 4]).unwrap();
    let part = Frame::from_pixels(1, 1, vec![RED]).unwrap();
    assert!(compose_frame(&mut canvas, &part, 1, 1, Color::Transparent));
    assert_eq!(canvas.pixels, vec![CLEAR, CLEAR, CLEAR, RED]);
    let whole = Frame::from_pixels(2, 2, vec![RED, CLEAR, CLEAR, CLEAR]).unwrap();
    assert!(compose_frame(&mut canvas, &whole, 0, 0, Color::Transparent));
    assert_eq!(canvas.pixels, vec![RED, CLEAR, CLEAR, CLEAR]);
    assert!(!compose_frame(&mut canvas, &whole, 1, 0, Color::Transparent));
}

#[test]
fn solid_background_fills_then_blends() {
    let mut canvas = Frame::new(2, 1);
    let part = Frame::from_pixels(1, 1, vec![RED]).unwrap();
    assert!(compose_frame(&mut canvas, &part, 1, 0, Color::Solid(Rgb { r: 0, g: 0, b: 255 })));
    assert_eq!(canvas.pixels, vec![BLUE, RED]);
}

#[test]
fn image_canvas_grows_with_position() {
    assert_eq!(canvas_extent(Style::Center, 30, 20), (30, 20));
    assert_eq!(canvas_extent(Style::Position(Some(5), Some(-30), Size::Scale(2)), 30, 20), (65, 10));
    assert_eq!(canvas_extent(Style::Position(None, None, Size::Scale(2)), 30, 20), (60, 40));
    assert_eq!(canvas_extent(Style::Position(Some(10), Some(0), Size::Scale(2)), 3_000_000_000, 1), (u32::MAX, 1));
}

#[test]
fn right_edge() {
    assert!(reaches_right_edge(80, Some(80)));
    assert!(!reaches_right_edge(79, Some(80)));
    assert!(reaches_right_edge(10, None));
}

#[test]
fn canvas_plans() {
    let solid = Color::Solid(Rgb { r: 1, g: 1, b: 1 });
    assert_eq!(canvas_plan(CanvasSize::Exact(80, 24), Style::Center, Color::Transparent, 5, 5, None), Some((80, 48)));
    assert_eq!(canvas_plan(CanvasSize::Window, Style::Center, Color::Transparent, 5, 5, Some((100, 30))), Some((100, 60)));
    assert_eq!(canvas_plan(CanvasSize::Window, Style::Center, Color::Transparent, 5, 5, None), None);
    assert_eq!(canvas_plan(CanvasSize::Image, Style::Center, Color::Transparent, 5, 7, None), None);
    assert_eq!(canvas_plan(CanvasSize::Image, Style::Center, solid, 5, 7, None), Some((5, 7)));
    assert_eq!(
        canvas_plan(CanvasSize::Image, Style::Position(Some(3), Some(1), Size::Scale(2)), Color::Transparent, 5, 7, None),
        Some((13, 15))
    );
    assert_eq!(canvas_plan(CanvasSize::Exact(1, u32::MAX), Style::Tile, solid, 5, 7, None), Some((1, u32::MAX)));
    assert_eq!(window_canvas(Some((80, 25))), Some((80, 50)));
    assert_eq!(window_canvas(None), None);
}

#[test]
fn window_refresh_keeps_or_remakes_canvases() {
    let bg = Color::Solid(Rgb { r: 0, g: 0, b: 255 });
    let mut canvas = Frame::from_pixels(2, 2, vec![RED; 4]).unwrap();
    let mut prev = Frame::from_pixels(2, 2, vec![RED; 4]).unwrap();
    assert_eq!(refresh_window_canvas(&mut canvas, &mut prev, Some((2, 1)), bg), WindowUpdate::Kept);
    assert_eq!(canvas.pixels, vec![BLUE; 4]);
    assert_eq!(prev.pixels, vec![RED; 4]);
    assert_eq!(refresh_window_canvas(&mut canvas, &mut prev, None, bg), WindowUpdate::Kept);
    assert_eq!(refresh_window_canvas(&mut canvas, &mut prev, Some((3, 2)), bg), WindowUpdate::Resized);
    assert_eq!((canvas.width, canvas.height), (3, 4));
    assert_eq!(canvas.pixels, vec![BLUE; 12]);
    assert_eq!((prev.width, prev.height), (3, 4));
    assert_eq!(prev.pixels, vec![CLEAR; 12]);
}
