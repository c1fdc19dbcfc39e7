use half_block::color::Color;
use half_block::compose::Placement;
use half_block::filter::FilterType;
use half_block::pixel::{Frame, Rgb, Rgba};
use half_block::playback::{fill_color, Player};
use half_block::size::Size;
use half_block::style::Style;

const MS: u64 = 1_000_000;

#[test]
fn two_frames_twice_shows_four_frames_over_400ms() {
    let mut p = Player::new(2, 2, 0);
    let mut shown = Vec::new();
    let mut now = 0;
    while let Some(i) = p.next_frame() {
        shown.push(i);
        let sleep = p.frame_shown(now, 100 * MS);
        now += sleep;
    }
    assert_eq!(shown, vec![0, 1, 0, 1]);
    assert_eq!(p.timestamp, 400 * MS);
    assert_eq!(now, 400 * MS);
}

#[test]
fn cancelling_stops_after_current_frame() {
    let mut p = Player::new(2, 2, 0);
    assert_eq!(p.next_frame(), Some(0));
    assert_eq!(p.frame_shown(0, 100 * MS), 100 * MS);
    assert_eq!(p.next_frame(), Some(1));
    assert_eq!(p.frame_shown(100 * MS, 100 * MS), 100 * MS);
    p.cancel();
    assert_eq!(p.next_frame(), None);
}

#[test]
fn late_frames_sleep_less_and_deadlines_do_not_drift() {
    let mut p = Player::new(3, -1, 1000);
    assert_eq!(p.frame_shown(1030, 100), 70);
    assert_eq!(p.frame_shown(1250, 100), 0);
    assert_eq!(p.frame_shown(900, 100), 100);
    assert_eq!(p.timestamp, 1300);
}

#[test]
fn zero_loops_and_infinite_loops() {
    assert_eq!(Player::new(2, 0, 0).next_frame(), None);
    assert_eq!(Player::new(0, 5, 0).next_frame(), None);
    let mut p = Player::new(1, -1, 0);
    for _ in 0..10 {
        assert_eq!(p.next_frame(), Some(0));
    }
}

#[test]
fn fill_with_background() {
    let mut f = Frame::new(2, 2);
    fill_color(&mut f, Color::Solid(Rgb { r: 1, g: 2, b: 3 }));
    assert!(f.pixels.iter().all(|p| *p == Rgba { r: 1, g: 2, b: 3, a: 255 }));
    fill_color(&mut f, Color::Transparent);
    assert!(f.pixels.iter().all(|p| *p == Rgba { r: 0, g: 0, b: 0, a: 0 }));
}

#[test]
fn paint_center_overlays_source() {
    let red = Rgba { r: 255, g: 0, b: 0, a: 255 };
    let clear = Rgba { r: 0, g: 0, b: 0, a: 0 };
    let image = Frame::from_pixels(2, 2, vec![red; 4]).unwrap();
    let mut canvas = Frame::new(4, 4);
    Style::Center.paint(&image, &mut canvas, FilterType::Nearest);
    assert_eq!(canvas.get_pixel(1, 1), red);
    assert_eq!(canvas.get_pixel(2, 2), red);
    assert_eq!(canvas.get_pixel(0, 0), clear);
    assert_eq!(canvas.get_pixel(3, 1), clear);
}

#[test]
fn paint_zoom_resamples_source() {
    let red = Rgba { r: 255, g: 0, b: 0, a: 255 };
    let blue = Rgba { r: 0, g: 0, b: 255, a: 255 };
    let image = Frame::from_pixels(2, 1, vec![red, blue]).unwrap();
    let style = Style::Position(Some(0), Some(0), Size::Scale(2));
    assert_eq!(style.layout(2, 1, 4, 2), vec![Placement { width: 4, height: 2, x: 0, y: 0 }]);
    let mut canvas = Frame::new(4, 2);
    style.paint(&image, &mut canvas, FilterType::Nearest);
    assert_eq!(canvas.get_pixel(0, 1), red);
    assert_eq!(canvas.get_pixel(1, 0), red);
    assert_eq!(canvas.get_pixel(2, 0), blue);
    assert_eq!(canvas.get_pixel(3, 1), blue);
}
