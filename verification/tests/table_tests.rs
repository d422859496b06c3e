use stdout_tables::tables::{DimensionError, Table, TableError};
use stdout_tables::themes::Theme;

#[test]
fn test_format_headers() {
    let t = Table::make(
        vec![
            (None, String::from("header 1")),
            (None, String::from("header 2")),
            (None, String::from("very long header very very long")),
        ],
        vec![
            vec![
                String::from("some content here"),
                String::from("c"),
                String::from("more row 1 content"),
            ],
            vec![
                String::from("this is a second row of data"),
                String::from("yeah"),
                String::from("very short"),
            ],
        ],
    )
    .unwrap();
    for line in t.render(&Theme::heavy()) {
        println!("{}", line);
    }
}

#[test]
fn test_from_string_vec() {
    let mut t = Table::from_string_vec(
        vec![
            String::from("col 1"),
            String::from("col 2"),
            String::from("col 3"),
            String::from("r11"),
            String::from("r12"),
            String::from("r13"),
            String::from("r21"),
            String::from("r22"),
            String::from("r23"),
        ],
        3,
        None,
    )
    .unwrap();
    t.number();
    for line in t.render(&Theme::heavy().borderless()) {
        println!("{}", line);
    }
}

#[test]
fn from_string_vec_dimension_error() {
    let t = Table::from_string_vec(
        vec![String::from("col1"), String::from("col2"), String::from("r11")],
        2,
        None,
    );
    assert!(matches!(t, Err(DimensionError)));
}

#[test]
fn from_string_vec_rejects_input_shorter_than_header_row() {
    let t = Table::from_string_vec(vec![String::from("only")], 2, None);
    assert!(matches!(t, Err(DimensionError)));

    let empty = Table::from_string_vec(Vec::new(), 2, None);
    assert!(matches!(empty, Err(DimensionError)));
}

#[test]
fn from_string_vec_rejects_short_width_list() {
    let t = Table::from_string_vec(
        vec![String::from("a"), String::from("b"), String::from("c"), String::from("d")],
        2,
        Some(vec![5]),
    );
    assert!(matches!(t, Err(DimensionError)));
}

#[test]
fn from_string_vec_rejects_zero_width() {
    let t = Table::from_string_vec(
        vec![String::from("a"), String::from("b"), String::from("c"), String::from("d")],
        2,
        Some(vec![5, 0]),
    );
    assert!(matches!(t, Err(DimensionError)));
}

#[test]
fn from_string_vec_with_explicit_widths() {
    let t = Table::from_string_vec(
        vec![String::from("a"), String::from("b"), String::from("c"), String::from("d")],
        2,
        Some(vec![4, 2]),
    )
    .unwrap();
    assert_eq!(t.headers.len(), 2);
    assert_eq!(t.headers[0].width, 4);
    assert_eq!(t.headers[1].width, 2);
    assert_eq!(t.data.len(), 1);
    assert_eq!(t.data[0][0].content, String::from("c   "));
    assert_eq!(t.data[0][1].content, String::from("d "));
}

#[test]
fn dimension_error_message() {
    assert_eq!(DimensionError.message(), String::from("Dimension mismatch!"));
}

#[test]
fn make_rejects_column_count_mismatch() {
    let t = Table::make(
        vec![(None, String::from("A")), (None, String::from("B"))],
        vec![vec![String::from("only one")]],
    );
    assert_eq!(t.unwrap_err(), TableError::ColumnCountMismatch);
}

#[test]
fn make_rejects_zero_width() {
    let t = Table::make(
        vec![(Some(0), String::from("A"))],
        vec![],
    );
    assert_eq!(t.unwrap_err(), TableError::InvalidWidth);

    // an empty label with no explicit width resolves to width zero
    let t2 = Table::make(vec![(None, String::new())], vec![]);
    assert_eq!(t2.unwrap_err(), TableError::InvalidWidth);
}

#[test]
fn make_matches_column_widths() {
    let t = Table::make(
        vec![
            (None, String::from("first column")),
            (Some(7), String::from("second column")),
            (Some(10), String::from("this is a third column")),
        ],
        vec![
            vec![
                String::from("first entry"),
                String::from("second entry"),
                String::from("third entry"),
            ],
            vec![
                String::from("first-first entry"),
                String::from("second-second entry"),
                String::from("third-third entry"),
            ],
        ],
    )
    .unwrap();
    assert_eq!(t.headers.len(), 3);
    assert_eq!(t.headers[0].width, 12);
    assert_eq!(t.headers[1].width, 7);
    assert_eq!(t.headers[2].width, 10);
    for row in &t.data {
        assert_eq!(row.len(), t.headers.len());
        for (j, cell) in row.iter().enumerate() {
            assert_eq!(cell.width, t.headers[j].width);
        }
    }
}

#[test]
fn number_prepends_index_column() {
    let mut t = Table::make(
        vec![(None, String::from("A")), (None, String::from("B"))],
        vec![
            vec![String::from("a"), String::from("b")],
            vec![String::from("c"), String::from("d")],
        ],
    )
    .unwrap();
    t.number();
    assert_eq!(t.headers.len(), 3);
    assert_eq!(t.headers[0].width, 3);
    assert_eq!(t.headers[0].content, String::from("#  "));
    assert_eq!(t.data[0].len(), 3);
    assert_eq!(t.data[0][0].content, String::from("0  "));
    assert_eq!(t.data[1][0].content, String::from("1  "));
}

#[test]
fn render_end_to_end() {
    let t = Table::make(
        vec![(None, String::from("H1")), (None, String::from("H2"))],
        vec![vec![String::from("a"), String::from("bb")]],
    )
    .unwrap();
    let lines = t.render(&Theme::heavy());
    assert_eq!(lines.len(), 5);
    assert_eq!(lines[0], String::from("┏━━┳━━┓"));
    assert_eq!(lines[1], String::from("┃H1┃H2┃"));
    assert_eq!(lines[2], String::from("┣━━╋━━┫"));
    assert_eq!(lines[3], String::from("┃a ┃bb┃"));
    assert_eq!(lines[4], String::from("┗━━┻━━┛"));
}

#[test]
fn border_rows_follow_construction_rule() {
    let widths: Vec<usize> = vec![2, 3];
    let theme = Theme::heavy();
    assert_eq!(Table::table_top_border(&widths, &theme), String::from("┏━━┳━━━┓"));
    assert_eq!(Table::table_row_sep(&widths, &theme), String::from("┣━━╋━━━┫"));
    assert_eq!(Table::table_bottom_border(&widths, &theme), String::from("┗━━┻━━━┛"));
}

#[test]
fn border_row_single_column_has_no_closing_corner() {
    let widths: Vec<usize> = vec![4];
    let theme = Theme::heavy();
    assert_eq!(Table::table_top_border(&widths, &theme), String::from("┏━━━━"));
}
