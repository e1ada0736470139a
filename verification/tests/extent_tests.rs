use fast_game_of_life::extent::{
    pattern_height, pattern_width, validate_pattern_extent, ExtentError, MAX_CELL_COORDINATE,
    MIN_CELL_COORDINATE,
};

#[test]
fn cell_coordinate_bounds() {
    assert_eq!(MIN_CELL_COORDINATE, i32::MIN as i64 * 32);
    assert_eq!(MAX_CELL_COORDINATE, i32::MAX as i64 * 32 + 31);
}

#[test]
fn pattern_size_follows_lines() {
    assert_eq!(pattern_width(""), None);
    assert_eq!(pattern_height(""), 0);
    assert_eq!(pattern_width("***"), Some(3));
    assert_eq!(pattern_height("***"), 1);
    assert_eq!(pattern_width(".*.\n..*\n***\n"), Some(3));
    assert_eq!(pattern_height(".*.\n..*\n***\n"), 3);
    assert_eq!(pattern_width("*\r\n*****\r\n"), Some(5));
    assert_eq!(pattern_height("*\r\n*****\r\n"), 2);
    assert_eq!(pattern_width("\n\n"), Some(0));
    assert_eq!(pattern_height("\n\n"), 2);
    assert_eq!(pattern_width("ab\rc"), Some(4));
    for text in ["", "a", "a\n", "a\nbb", "\r\n\r\nxyz\r", "é**\n*"] {
        assert_eq!(pattern_height(text), text.lines().count());
        assert_eq!(
            pattern_width(text),
            text.lines().map(|line| line.chars().count()).max()
        );
    }
}

#[test]
fn extent_accepts_what_fits() {
    assert_eq!(validate_pattern_extent(0, None), Ok(()));
    assert_eq!(validate_pattern_extent(MAX_CELL_COORDINATE, Some(0)), Ok(()));
    assert_eq!(validate_pattern_extent(MAX_CELL_COORDINATE, Some(1)), Ok(()));
    assert_eq!(validate_pattern_extent(MAX_CELL_COORDINATE - 9, Some(10)), Ok(()));
}

#[test]
fn extent_rejects_past_the_maximum() {
    assert_eq!(
        validate_pattern_extent(MAX_CELL_COORDINATE, Some(2)),
        Err(ExtentError::ExceedsMax)
    );
    assert_eq!(
        validate_pattern_extent(MAX_CELL_COORDINATE - 9, Some(11)),
        Err(ExtentError::ExceedsMax)
    );
}

#[test]
fn extent_reports_overflow() {
    assert_eq!(
        validate_pattern_extent(i64::MAX, Some(2)),
        Err(ExtentError::Overflow)
    );
}
