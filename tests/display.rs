use half_block::canvas_size::CanvasSize;
use half_block::color::Color;
use half_block::filter::{Filter, FilterType};
use half_block::pixel::Rgb;
use half_block::size::Size;
use half_block::style::Style;

#[test]
fn style_text_round_trips() {
    let styles = [
        Style::Center,
        Style::Tile,
        Style::Cover,
        Style::Contain,
        Style::ShrinkToFit,
        Style::Position(None, Some(-4), Size::Scale(-3)),
        Style::Position(Some(12), None, Size::Scale(2)),
        Style::Position(Some(0), Some(0), Size::Exact(80, 24)),
        Style::Position(None, None, Size::Width(100)),
        Style::Position(Some(-1), Some(1), Size::Height(7)),
    ];
    for st in styles {
        assert_eq!(Style::parse(&st.to_string()), Ok(st));
    }
}

#[test]
fn style_canonical_text() {
    assert_eq!(Style::ShrinkToFit.to_string(), "shrink-to-fit");
    assert_eq!(Style::Position(None, Some(-4), Size::Scale(-3)).to_string(), "* -4 1/3");
    assert_eq!(Style::Position(Some(5), Some(6), Size::Scale(1)).to_string(), "5 6 1");
    assert_eq!(Style::Position(Some(5), Some(6), Size::Width(9)).to_string(), "5 6 9 *");
    assert_eq!(Style::Position(Some(5), Some(6), Size::Height(9)).to_string(), "5 6 * 9");
    assert_eq!(Style::Position(Some(5), Some(6), Size::Exact(1, 2)).to_string(), "5 6 1 2");
    assert_eq!(Style::parse(" position  *  * 1 / 3 ").unwrap().to_string(), "* * 1/3");
}

#[test]
fn canvas_size_text_round_trips() {
    assert_eq!(CanvasSize::Window.to_string(), "window");
    assert_eq!(CanvasSize::Image.to_string(), "image");
    assert_eq!(CanvasSize::Exact(80, 24).to_string(), "80 24");
    assert_eq!(CanvasSize::parse(&CanvasSize::Exact(4294967295, 0).to_string()), Ok(CanvasSize::Exact(4294967295, 0)));
}

#[test]
fn color_text_round_trips() {
    assert_eq!(Color::Transparent.to_string(), "transparent");
    let c = Color::Solid(Rgb { r: 255, g: 10, b: 0 });
    assert_eq!(c.to_string(), "#ff0a00");
    assert_eq!(Color::parse(&c.to_string()), Ok(c));
}

#[test]
fn filter_names_round_trip() {
    for f in [FilterType::Nearest, FilterType::Triangle, FilterType::CatmullRom, FilterType::Gaussian, FilterType::Lanczos3] {
        let text = Filter(f).to_string();
        assert_eq!(Filter::parse(&text), Ok(Filter(f)));
    }
    assert_eq!(Filter(FilterType::CatmullRom).to_string(), "CatmullRom");
}
