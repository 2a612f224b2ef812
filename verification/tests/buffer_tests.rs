use linebuffer::buffer::Buffer;

#[test]
fn insert_into_empty_buffer() {
    let mut b = Buffer::new();
    let pos = b.insert(0, 0, String::from("ab\ncd"));
    assert_eq!(b.to_string(), "ab\ncd");
    assert_eq!(b.line_count(), 2);
    assert_eq!(b.line_len(0), 2);
    assert_eq!(b.line_len(1), 2);
    assert_eq!(b.max_line_length(), 2);
    assert_eq!(pos, (1, 2));
}

#[test]
fn remove_char_at_document_start_is_a_no_op() {
    let mut b = Buffer::from(String::from("abc"));
    let version = b.version;
    let pos = b.remove_char(0, 0);
    assert_eq!(pos, (0, 0));
    assert_eq!(b.to_string(), "abc");
    assert_eq!(b.version, version);
}

#[test]
fn remove_range_spanning_all_rows_clears_the_document() {
    let mut b = Buffer::from(String::from("ab\ncd"));
    let pos = b.remove_range(0, 0, 1, 2);
    assert_eq!(pos, (0, 0));
    assert_eq!(b.to_string(), "");
    assert_eq!(b.line_count(), 1);
    assert_eq!(b.line_len(0), 0);
}

#[test]
fn max_line_length_follows_edits() {
    let mut b = Buffer::from(String::from("abc\nb\nccccc"));
    assert_eq!(b.line_len(0), 3);
    assert_eq!(b.line_len(1), 1);
    assert_eq!(b.line_len(2), 5);
    assert_eq!(b.max_line_length(), 5);
    b.remove_range(2, 2, 2, 5);
    assert_eq!(b.line_len(2), 2);
    assert_eq!(b.max_line_length(), 3);
}

#[test]
fn version_moves_up_by_one_per_mutation() {
    let mut b = Buffer::from(String::from("ab\ncd"));
    let v0 = b.version;
    b.insert(0, 1, String::from("x"));
    assert_eq!(b.version, v0 + 1);
    b.remove_char(0, 2);
    assert_eq!(b.version, v0 + 2);
    // an empty range still counts as a mutation
    b.remove_range(1, 1, 1, 1);
    assert_eq!(b.version, v0 + 3);
    assert_eq!(b.to_string(), "ab\ncd");
}

#[test]
fn read_only_queries_are_idempotent() {
    let b = Buffer::from(String::from("ab\ncd"));
    let version = b.version;
    assert_eq!(b.line_count(), b.line_count());
    assert_eq!(b.line_len(0), b.line_len(0));
    assert_eq!(b.max_line_length(), b.max_line_length());
    assert_eq!(b.to_string(), b.to_string());
    assert_eq!(b.row_column_to_idx(1, 1), b.row_column_to_idx(1, 1));
    assert_eq!(b.idx_to_row_column(4), b.idx_to_row_column(4));
    assert_eq!(
        b.text_in_range(0, 0, 1, 1),
        b.text_in_range(0, 0, 1, 1)
    );
    assert_eq!(b.version, version);
}

#[test]
fn offset_translation_round_trip() {
    let b = Buffer::from(String::from("ab\ncd"));
    for idx in 0..=5 {
        let (row, column) = b.idx_to_row_column(idx);
        assert_eq!(b.row_column_to_idx(row, column), idx);
    }
    assert_eq!(b.idx_to_row_column(4), (1, 1));
    assert_eq!(b.row_column_to_idx(1, 1), 4);
    assert_eq!(b.byte_of_line(0), 0);
    assert_eq!(b.byte_of_line(1), 3);
}

#[test]
fn empty_buffer_translations() {
    let b = Buffer::new();
    assert_eq!(b.row_column_to_idx(0, 0), 0);
    assert_eq!(b.idx_to_row_column(0), (0, 0));
    assert_eq!(b.line_count(), 1);
    assert_eq!(b.line_len(0), 0);
    assert_eq!(b.max_line_length(), 0);
    assert_eq!(b.to_string(), "");
}

#[test]
fn from_empty_text() {
    let b = Buffer::from(String::new());
    assert_eq!(b.line_count(), 1);
    assert_eq!(b.line_len(0), 0);
    assert_eq!(b.max_line_length(), 0);
    assert_eq!(b.to_string(), "");
}

#[test]
fn trailing_newline_counts_one_extra_row() {
    let b = Buffer::from(String::from("ab\n"));
    assert_eq!(b.line_count(), 1);
    assert_eq!(b.line_count_with_trailing_newline(), 2);
    let b2 = Buffer::from(String::from("ab"));
    assert_eq!(b2.line_count_with_trailing_newline(), 1);
    let b3 = Buffer::new();
    assert_eq!(b3.line_count_with_trailing_newline(), 0);
}

#[test]
fn carriage_return_line_feed_is_one_terminator() {
    let b = Buffer::from(String::from("ab\r\ncd"));
    assert_eq!(b.line_count(), 2);
    assert_eq!(b.line_len(0), 2);
    assert_eq!(b.line_len(1), 2);
    assert_eq!(b.idx_to_row_column(4), (1, 0));
}

#[test]
fn insert_in_the_middle_of_a_row() {
    let mut b = Buffer::from(String::from("hello"));
    let pos = b.insert(0, 5, String::from(" world"));
    assert_eq!(pos, (0, 11));
    assert_eq!(b.to_string(), "hello world");
    assert_eq!(b.line_len(0), 11);
    assert_eq!(b.max_line_length(), 11);
}

#[test]
fn remove_char_merges_rows() {
    let mut b = Buffer::from(String::from("ab\ncd"));
    let pos = b.remove_char(1, 0);
    assert_eq!(pos, (0, 2));
    assert_eq!(b.to_string(), "abcd");
    assert_eq!(b.line_count(), 1);
    assert_eq!(b.line_len(0), 4);
    assert_eq!(b.line_len(1), 0);
    assert_eq!(b.max_line_length(), 4);
}

#[test]
fn remove_char_within_a_row() {
    let mut b = Buffer::from(String::from("abc"));
    let pos = b.remove_char(0, 2);
    assert_eq!(pos, (0, 1));
    assert_eq!(b.to_string(), "ac");
    assert_eq!(b.line_len(0), 2);
}

#[test]
fn remove_range_rebuilds_the_tail() {
    let mut b = Buffer::from(String::from("ab\ncd\nef"));
    let pos = b.remove_range(1, 1, 2, 1);
    assert_eq!(pos, (1, 1));
    assert_eq!(b.to_string(), "ab\ncf");
    assert_eq!(b.line_count(), 2);
    assert_eq!(b.line_len(0), 2);
    assert_eq!(b.line_len(1), 2);
}

#[test]
fn text_in_range_takes_one_contiguous_slice() {
    let b = Buffer::from(String::from("ab\ncd"));
    assert_eq!(b.text_in_range(0, 1, 1, 1), "b\nc");
    assert_eq!(b.text_in_range(0, 0, 0, 0), "");
    let empty = Buffer::new();
    assert_eq!(empty.text_in_range(0, 0, 0, 0), "");
}

#[test]
fn insert_with_embedded_line_breaks() {
    let mut b = Buffer::from(String::from("ad"));
    let pos = b.insert(0, 1, String::from("b\nc"));
    assert_eq!(pos, (1, 1));
    assert_eq!(b.to_string(), "ab\ncd");
    assert_eq!(b.line_count(), 2);
    assert_eq!(b.line_len(0), 2);
    assert_eq!(b.line_len(1), 2);
}

#[test]
fn per_row_ranged_read_clips_each_row() {
    let b = Buffer::from(String::from("hello\nworld\nfoo"));
    assert_eq!(b.text_in_range_char_offset(0, 3, 1, 4), "ell\norl\noo");
    assert_eq!(b.text_in_range_char_offset(0, 1, 1, 4), "ell");
    assert_eq!(b.text_in_range_char_offset(2, 3, 5, 9), "");
    assert_eq!(b.text_in_range_char_offset(1, 1, 0, 2), "");
    let empty = Buffer::new();
    assert_eq!(empty.text_in_range_char_offset(0, 1, 0, 1), "");
}

#[test]
fn per_row_ranged_read_keeps_empty_pieces() {
    let b = Buffer::from(String::from("ab\nc\nde"));
    // the middle row is shorter than the start offset, so its piece is empty
    assert_eq!(b.text_in_range_char_offset(0, 3, 1, 2), "b\n\ne");
}

#[test]
fn clearing_delete_ignores_start_and_end_columns() {
    let mut b = Buffer::from(String::from("ab\ncd"));
    // the range spans the first through the last row, so the entire
    // document is deleted, whatever columns the caller named
    let pos = b.remove_range(0, 1, 1, 9);
    assert_eq!(pos, (0, 1));
    assert_eq!(b.to_string(), "");
    assert_eq!(b.line_count(), 1);
    assert_eq!(b.line_len(0), 0);
    assert_eq!(b.max_line_length(), 0);
}

#[test]
fn version_getter_matches_the_counter() {
    let mut b = Buffer::from(String::from("ab"));
    let v0 = b.version();
    assert_eq!(v0, b.version);
    b.insert(0, 2, String::from("c"));
    assert_eq!(b.version(), v0 + 1);
}
