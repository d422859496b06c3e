use stdout_tables::decimal::usize_to_string;
use stdout_tables::themes::Theme;

#[test]
fn heavy_theme_characters() {
    let t = Theme::heavy();
    assert_eq!(t.top_left_corner, '┏');
    assert_eq!(t.top_center, '┳');
    assert_eq!(t.top_right_corner, '┓');
    assert_eq!(t.middle_left, '┣');
    assert_eq!(t.middle_center, '╋');
    assert_eq!(t.middle_right, '┫');
    assert_eq!(t.bottom_left_corner, '┗');
    assert_eq!(t.bottom_center, '┻');
    assert_eq!(t.bottom_right_corner, '┛');
    assert_eq!(t.horizontal_border, '━');
    assert_eq!(t.vertical_border, '┃');
    assert_eq!(t.internal_horizontal, '━');
    assert_eq!(t.internal_vertical, '┃');
}

#[test]
fn borderless_nulls_frame_and_keeps_internal_fill() {
    let b = Theme::heavy().borderless();
    assert_eq!(b.top_left_corner, '\0');
    assert_eq!(b.top_center, '\0');
    assert_eq!(b.top_right_corner, '\0');
    assert_eq!(b.middle_left, '\0');
    assert_eq!(b.middle_center, '\0');
    assert_eq!(b.middle_right, '\0');
    assert_eq!(b.bottom_left_corner, '\0');
    assert_eq!(b.bottom_center, '\0');
    assert_eq!(b.bottom_right_corner, '\0');
    assert_eq!(b.horizontal_border, '\0');
    assert_eq!(b.vertical_border, '\0');
    assert_eq!(b.internal_horizontal, '━');
    assert_eq!(b.internal_vertical, '┃');
}

#[test]
fn borderless_is_idempotent() {
    let once = Theme::heavy().borderless();
    let twice = once.borderless();
    assert_eq!(twice.top_left_corner, once.top_left_corner);
    assert_eq!(twice.top_center, once.top_center);
    assert_eq!(twice.top_right_corner, once.top_right_corner);
    assert_eq!(twice.middle_left, once.middle_left);
    assert_eq!(twice.middle_center, once.middle_center);
    assert_eq!(twice.middle_right, once.middle_right);
    assert_eq!(twice.bottom_left_corner, once.bottom_left_corner);
    assert_eq!(twice.bottom_center, once.bottom_center);
    assert_eq!(twice.bottom_right_corner, once.bottom_right_corner);
    assert_eq!(twice.horizontal_border, once.horizontal_border);
    assert_eq!(twice.vertical_border, once.vertical_border);
    assert_eq!(twice.internal_horizontal, once.internal_horizontal);
    assert_eq!(twice.internal_vertical, once.internal_vertical);
}

#[test]
fn usize_to_string_renders_decimal() {
    assert_eq!(usize_to_string(0), String::from("0"));
    assert_eq!(usize_to_string(7), String::from("7"));
    assert_eq!(usize_to_string(42), String::from("42"));
    assert_eq!(usize_to_string(1234), String::from("1234"));
}
