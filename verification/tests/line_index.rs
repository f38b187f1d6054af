use faputa::line_index::LineIndex;

#[test]
fn single_line() {
    let idx = LineIndex::new("hello");
    assert_eq!(idx.line_col(0), (1, 1));
    assert_eq!(idx.line_col(4), (1, 5));
}

#[test]
fn multi_line() {
    let idx = LineIndex::new("aaa\nbbb\nccc");
    assert_eq!(idx.line_col(0), (1, 1));
    assert_eq!(idx.line_col(3), (1, 4));
    assert_eq!(idx.line_col(4), (2, 1));
    assert_eq!(idx.line_col(8), (3, 1));
}

#[test]
fn empty() {
    let idx = LineIndex::new("");
    assert_eq!(idx.line_col(0), (1, 1));
}

#[test]
fn trailing_newline() {
    let idx = LineIndex::new("abc\n");
    assert_eq!(idx.line_col(3), (1, 4));
    assert_eq!(idx.line_col(4), (2, 1));
}

#[test]
fn unicode_columns_are_byte_based() {
    let idx = LineIndex::new("a한\nz");

    assert_eq!(idx.line_col(1), (1, 2));
    assert_eq!(idx.line_col(4), (1, 5));
    assert_eq!(idx.line_col(5), (2, 1));
}

#[test]
fn line_is_one_more_than_newlines_before() {
    let text = "ab\ncd\n\nxyz";
    let idx = LineIndex::new(text);
    for offset in 0..=text.len() {
        let before = &text.as_bytes()[..offset];
        let newlines = before.iter().filter(|b| **b == b'\n').count();
        let start = before.iter().rposition(|b| *b == b'\n').map_or(0, |j| j + 1);
        assert_eq!(idx.line_col(offset), (1 + newlines, offset - start + 1));
    }
}
