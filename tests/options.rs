use half_block::canvas_size::{CanvasSize, CanvasSizeParseError};
use half_block::color::{Color, ColorParseError};
use half_block::filter::{Filter, FilterParseError, FilterType};
use half_block::line_end::{LineEnd, LineEndParseError};
use half_block::pixel::Rgb;
use half_block::style::Style;

#[test]
fn canvas_sizes() {
    assert_eq!(CanvasSize::parse("window"), Ok(CanvasSize::Window));
    assert_eq!(CanvasSize::parse("IMAGE"), Ok(CanvasSize::Image));
    assert_eq!(CanvasSize::parse("80 24"), Ok(CanvasSize::Exact(80, 24)));
    assert_eq!(CanvasSize::parse(" +80\t24 "), Ok(CanvasSize::Exact(80, 24)));
    for s in ["80", "80 24 1", "80 -1", "4294967296 1", "", "a b", "windows"] {
        assert_eq!(CanvasSize::parse(s), Err(CanvasSizeParseError()), "{s}");
    }
    assert!(CanvasSize::Window.is_window());
    assert!(CanvasSize::Image.is_image());
    assert!(CanvasSize::Exact(1, 2).is_exact());
    assert!(!CanvasSize::Exact(1, 2).is_window());
}

#[test]
fn colors() {
    assert_eq!(Color::parse("transparent"), Ok(Color::Transparent));
    assert_eq!(Color::parse("Transparent"), Ok(Color::Transparent));
    assert_eq!(Color::parse("#ff8000"), Ok(Color::Solid(Rgb { r: 255, g: 128, b: 0 })));
    assert_eq!(Color::parse("#0A0b0C"), Ok(Color::Solid(Rgb { r: 10, g: 11, b: 12 })));
    for s in ["#ff80", "red", "#gg0000", "ff8000", "#ff80000", ""] {
        assert_eq!(Color::parse(s), Err(ColorParseError()), "{s}");
    }
}

#[test]
fn filters() {
    assert_eq!(Filter::parse("catmull-rom"), Ok(Filter(FilterType::CatmullRom)));
    assert_eq!(Filter::parse("CatmullRom"), Ok(Filter(FilterType::CatmullRom)));
    assert_eq!(Filter::parse("nearest"), Ok(Filter::new(FilterType::Nearest)));
    assert_eq!(Filter::parse("Triangle"), Ok(Filter(FilterType::Triangle)));
    assert_eq!(Filter::parse("gaussian"), Ok(Filter(FilterType::Gaussian)));
    assert_eq!(Filter::parse("LANCZOS3"), Ok(Filter(FilterType::Lanczos3)));
    assert_eq!(Filter::parse("bicubic"), Err(FilterParseError()));
}

#[test]
fn line_ends() {
    assert_eq!(LineEnd::parse("cr"), Ok(LineEnd::Cr));
    assert_eq!(LineEnd::parse("LF"), Ok(LineEnd::Lf));
    assert_eq!(LineEnd::parse("CrLf"), Ok(LineEnd::CrLf));
    assert_eq!(LineEnd::parse("cr-lf"), Ok(LineEnd::CrLf));
    assert_eq!(LineEnd::parse("nl"), Err(LineEndParseError()));
    assert_eq!(LineEnd::CrLf.as_str(), "\r\n");
    assert_eq!(LineEnd::Cr.as_str(), "\r");
    assert_eq!(LineEnd::Lf.to_string(), "Lf");
    assert_eq!(LineEnd::CrLf.to_string(), "CrLf");
    assert_eq!(LineEnd::default(), LineEnd::Lf);
}

#[test]
fn from_str_delegates_to_parse() {
    assert_eq!("center".parse::<Style>(), Ok(Style::Center));
    assert_eq!("80 24".parse::<CanvasSize>(), Ok(CanvasSize::Exact(80, 24)));
    assert_eq!("#010203".parse::<Color>(), Ok(Color::Solid(Rgb { r: 1, g: 2, b: 3 })));
    assert_eq!("gaussian".parse::<Filter>(), Ok(Filter(FilterType::Gaussian)));
    assert_eq!("crlf".parse::<LineEnd>(), Ok(LineEnd::CrLf));
    assert!("nope".parse::<LineEnd>().is_err());
}
