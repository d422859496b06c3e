use stdout_tables::wrap::WrappedCell;

#[test]
fn wrap_str_test() {
    // perfect width alignment (no padding necessary)
    assert_eq!(
        WrappedCell::wrap_str(9, String::from("happy boy")).unwrap().content,
        String::from("happy boy")
    );

    // needs some padding at the end
    assert_eq!(
        WrappedCell::wrap_str(10, String::from("Mary had a little lamb!")).unwrap().content,
        String::from(
            "Mary had a\
            \n little la\
            \nmb!       "
        )
    );
}

#[test]
fn wrap_str_rejects_zero_width() {
    assert!(WrappedCell::wrap_str(0, String::from("anything")).is_err());
}

#[test]
fn wrap_str_empty_string_gives_one_blank_line() {
    let c = WrappedCell::wrap_str(4, String::new()).unwrap();
    assert_eq!(c.width, 4);
    assert_eq!(c.height, 1);
    assert_eq!(c.content, String::from("    "));
}

#[test]
fn wrap_str_lines_have_exact_width() {
    let c = WrappedCell::wrap_str(5, String::from("Mary had a little lamb!")).unwrap();
    let lines: Vec<&str> = c.content.split('\n').collect();
    assert_eq!(lines.len(), c.height);
    assert_eq!(c.height, 5);
    for line in lines {
        assert_eq!(line.chars().count(), 5);
    }
}

#[test]
fn wrap_str_single_short_word() {
    let c = WrappedCell::wrap_str(6, String::from("hi")).unwrap();
    assert_eq!(c.height, 1);
    assert_eq!(c.content, String::from("hi    "));
}

#[test]
fn pad_row_levels_heights_with_space_lines() {
    let a = WrappedCell::wrap_str(3, String::from("abcdef")).unwrap();
    let b = WrappedCell::wrap_str(2, String::from("x")).unwrap();
    assert_eq!(a.height, 2);
    assert_eq!(b.height, 1);
    let padded = WrappedCell::pad_row(vec![a, b]);
    assert_eq!(padded.len(), 2);
    assert_eq!(padded[0].height, 2);
    assert_eq!(padded[1].height, 2);
    assert_eq!(padded[0].width, 3);
    assert_eq!(padded[1].width, 2);
    assert_eq!(padded[0].content, String::from("abc\ndef"));
    assert_eq!(padded[1].content, String::from("x \n  "));
}

#[test]
fn pad_row_leaves_uniform_rows_alone() {
    let a = WrappedCell::wrap_str(2, String::from("ab")).unwrap();
    let b = WrappedCell::wrap_str(2, String::from("cd")).unwrap();
    let padded = WrappedCell::pad_row(vec![a, b]);
    assert_eq!(padded[0].content, String::from("ab"));
    assert_eq!(padded[1].content, String::from("cd"));
    assert_eq!(padded[0].height, 1);
    assert_eq!(padded[1].height, 1);
}
