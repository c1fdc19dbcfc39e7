use half_block::size::Size;

#[test]
fn zoom_multiplies() {
    assert_eq!(Size::Scale(2).to_size(10, 5), (20, 10));
    assert_eq!(Size::Scale(1).to_size(10, 5), (10, 5));
}

#[test]
fn zoom_saturates_keeping_aspect() {
    assert_eq!(Size::Scale(3).to_size(2_000_000_000, 1_000_000_000), (u32::MAX, 2_147_483_647));
    assert_eq!(Size::Scale(5).to_size(1_000_000_000, 4_000_000_000), (1_073_741_823, u32::MAX));
    assert_eq!(Size::Scale(2).to_size(3_000_000_000, 3_000_000_000), (u32::MAX, u32::MAX));
}

#[test]
fn shrink_divides() {
    assert_eq!(Size::Scale(-3).to_size(900, 600), (300, 200));
    assert_eq!(Size::Scale(i32::MIN).to_size(900, 600), (0, 0));
}

#[test]
fn derived_sides() {
    assert_eq!(Size::Width(100).to_size(200, 50), (100, 25));
    assert_eq!(Size::Height(10).to_size(200, 50), (40, 10));
    assert_eq!(Size::Width(u32::MAX).to_size(1, 2), (u32::MAX, u32::MAX));
    assert_eq!(Size::Exact(7, 8).to_size(1, 1), (7, 8));
}
