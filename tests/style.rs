use half_block::compose::Placement;
use half_block::size::Size;
use half_block::style::{Style, StyleParseError, StyleToken, StyleTokenizer};

#[test]
fn simple_styles_parse_in_any_case() {
    assert_eq!(Style::parse("center"), Ok(Style::Center));
    assert_eq!(Style::parse("  TILE "), Ok(Style::Tile));
    assert_eq!(Style::parse("Cover"), Ok(Style::Cover));
    assert_eq!(Style::parse("contain"), Ok(Style::Contain));
    assert_eq!(Style::parse("shrink-to-fit"), Ok(Style::ShrinkToFit));
    assert_eq!(Style::parse("ShrinkToFit"), Ok(Style::ShrinkToFit));
}

#[test]
fn positions_parse() {
    assert_eq!(Style::parse("position 1 2"), Ok(Style::Position(Some(1), Some(2), Size::Scale(1))));
    assert_eq!(Style::parse("* * 1/3"), Ok(Style::Position(None, None, Size::Scale(-3))));
    assert_eq!(Style::parse("1 2 3"), Ok(Style::Position(Some(1), Some(2), Size::Scale(3))));
    assert_eq!(Style::parse("-5 +7"), Ok(Style::Position(Some(-5), Some(7), Size::Scale(1))));
    assert_eq!(Style::parse("1 2 * 5"), Ok(Style::Position(Some(1), Some(2), Size::Height(5))));
    assert_eq!(Style::parse("1 2 5 *"), Ok(Style::Position(Some(1), Some(2), Size::Width(5))));
    assert_eq!(Style::parse("1 2 5 6"), Ok(Style::Position(Some(1), Some(2), Size::Exact(5, 6))));
    assert_eq!(Style::parse("1 2 * *"), Ok(Style::Position(Some(1), Some(2), Size::Scale(1))));
    assert_eq!(Style::parse("1 2 1/1"), Ok(Style::Position(Some(1), Some(2), Size::Scale(-1))));
}

#[test]
fn bad_styles_are_rejected() {
    for s in [
        "", "centre", "center x", "1", "1 2 0", "1 2 -4 *", "1 2 1/0", "1 2 2/3", "1 2 3 4 5",
        "2147483648 0", "position", "1 2 * 5 6", "+ 1", "1 2 1/", "tile 1",
    ] {
        assert_eq!(Style::parse(s), Err(StyleParseError()), "{s}");
    }
}

#[test]
fn tokenizer_latches_errors() {
    let mut t = StyleTokenizer::new("1 / * @ 2");
    assert_eq!(t.next(), Some(Ok(StyleToken::Int(1))));
    assert_eq!(t.next(), Some(Ok(StyleToken::Slash)));
    assert_eq!(t.expect_int_or_asterisk(), Ok(None));
    assert_eq!(t.next(), Some(Err(StyleParseError())));
    assert_eq!(t.next(), Some(Err(StyleParseError())));
    let mut e = StyleTokenizer::new("   ");
    assert_eq!(e.expect_end(), Ok(()));
    let mut i = StyleTokenizer::new("cover");
    assert_eq!(i.expect_int(), Err(StyleParseError()));
    assert_eq!(StyleToken::Int(4).expect_int(), Ok(4));
    assert_eq!(StyleToken::Tile.expect_int(), Err(StyleParseError()));
}

#[test]
fn shrink_by_three_centred_in_small_canvas() {
    let style = Style::parse("* * 1/3").unwrap();
    assert_eq!(style.layout(900, 600, 100, 100), vec![Placement { width: 300, height: 200, x: -100, y: -50 }]);
}

#[test]
fn cover_fills_short_side() {
    assert_eq!(Style::Cover.layout(100, 200, 300, 300), vec![Placement { width: 300, height: 600, x: 0, y: -150 }]);
}

#[test]
fn contain_fits_long_side() {
    assert_eq!(Style::Contain.layout(100, 200, 300, 300), vec![Placement { width: 150, height: 300, x: 75, y: 0 }]);
    assert_eq!(Style::Contain.layout(300, 300, 300, 300), vec![Placement { width: 300, height: 300, x: 0, y: 0 }]);
}

#[test]
fn contain_compares_before_capping() {
    assert_eq!(
        Style::Contain.layout(1, u32::MAX, 2, u32::MAX),
        vec![Placement { width: 1, height: u32::MAX, x: 0, y: 0 }]
    );
    assert_eq!(
        Style::Cover.layout(1, u32::MAX, 2, u32::MAX),
        vec![Placement { width: 2, height: u32::MAX, x: 0, y: 0 }]
    );
}

#[test]
fn center_and_shrink_to_fit() {
    assert_eq!(Style::Center.layout(10, 4, 3, 9), vec![Placement { width: 10, height: 4, x: -3, y: 2 }]);
    assert_eq!(Style::ShrinkToFit.layout(10, 4, 20, 20), vec![Placement { width: 10, height: 4, x: 5, y: 8 }]);
    assert_eq!(Style::ShrinkToFit.layout(40, 10, 20, 20), vec![Placement { width: 20, height: 5, x: 0, y: 7 }]);
}

#[test]
fn tile_covers_canvas_row_by_row() {
    let got = Style::Tile.layout(2, 3, 5, 4);
    let want: Vec<Placement> = [(0, 0), (2, 0), (4, 0), (0, 3), (2, 3), (4, 3)]
        .iter()
        .map(|&(x, y)| Placement { width: 2, height: 3, x, y })
        .collect();
    assert_eq!(got, want);
    assert!(Style::Tile.layout(0, 3, 5, 4).is_empty());
}

#[test]
fn position_with_zero_size_draws_nothing() {
    assert!(Style::Position(Some(0), Some(0), Size::Exact(0, 5)).layout(4, 4, 9, 9).is_empty());
    assert!(Style::Position(None, None, Size::Width(5)).layout(0, 4, 9, 9).is_empty());
}
