use rinput::buffer::{Buffer, MarkPosition, WordEdgeMatch};
use rinput::log::Change;
use rinput::mark::Mark;
use rinput::textobject::{Anchor, Kind, Offset, TextObject};

/// Reassemble the stored bytes from the line iterator's output.
fn content_of(buf: &Buffer) -> Vec<u8> {
    let mut out = Vec::new();
    for line in buf.lines() {
        out.extend_from_slice(&line);
    }
    out
}

fn hello_world() -> Buffer {
    let mut buf = Buffer::from_bytes(b"hello\nworld\n");
    buf.set_mark(Mark::Cursor(0), 0);
    buf
}

fn object(kind: Kind, offset: Offset) -> TextObject {
    TextObject { kind, offset }
}

#[test]
fn empty_buffer_has_length_one() {
    let buf = Buffer::new();
    assert_eq!(buf.len(), 1);
    assert!(!buf.dirty);
    assert_eq!(buf.lines(), vec![Vec::<u8>::new()]);
}

#[test]
fn from_bytes_round_trips_content() {
    let buf = Buffer::from_bytes(b"hello\nworld\n");
    assert_eq!(buf.len(), 13);
    assert_eq!(content_of(&buf), b"hello\nworld\n".to_vec());
}

#[test]
fn lines_split_after_each_newline() {
    let buf = Buffer::from_bytes(b"hello\nworld\n");
    assert_eq!(
        buf.lines(),
        vec![b"hello\n".to_vec(), b"world\n".to_vec(), Vec::new()]
    );
}

#[test]
fn lines_from_mark_starts_there() {
    let mut buf = Buffer::from_bytes(b"hello\nworld\n");
    buf.set_mark(Mark::Cursor(0), 6);
    let lines = buf.lines_from(Mark::Cursor(0)).unwrap();
    assert_eq!(lines, vec![b"world\n".to_vec(), Vec::new()]);
    assert!(buf.lines_from(Mark::Cursor(9)).is_none());
}

#[test]
fn forward_line_end_resolves_to_first_newline() {
    let buf = hello_world();
    let pos = buf
        .get_object_index(object(
            Kind::Line(Anchor::End),
            Offset::Forward(0, Mark::Cursor(0)),
        ))
        .unwrap();
    assert_eq!(pos.absolute, 5);
}

#[test]
fn insert_char_records_one_insert_change() {
    let mut buf = hello_world();
    buf.insert_char(Mark::Cursor(0), b'X');
    assert_eq!(content_of(&buf), b"Xhello\nworld\n".to_vec());
    assert!(buf.dirty);
    let top = buf.log.undo_stack.last().unwrap();
    assert_eq!(top.changes, vec![Change::Insert(0, b'X')]);
    assert_eq!(top.idx, 0);
}

#[test]
fn undo_restores_content_and_feeds_redo_stack() {
    let mut buf = hello_world();
    buf.insert_char(Mark::Cursor(0), b'X');
    buf.undo().unwrap();
    assert_eq!(content_of(&buf), b"hello\nworld\n".to_vec());
    let top = buf.log.redo_stack.last().unwrap();
    assert_eq!(top.changes, vec![Change::Insert(0, b'X')]);
    assert!(buf.log.undo_stack.is_empty());
}

#[test]
fn undo_returns_the_replayed_inverse() {
    let mut buf = hello_world();
    buf.insert_char(Mark::Cursor(0), b'X');
    let inverse = buf.undo().unwrap();
    assert_eq!(inverse.changes, vec![Change::Remove(0, b'X')]);
    let replayed = buf.redo().unwrap();
    assert_eq!(replayed.changes, vec![Change::Insert(0, b'X')]);
}

#[test]
fn lines_from_virtual_end_slot_is_one_empty_line() {
    let mut buf = Buffer::from_bytes(b"ab");
    buf.set_mark(Mark::Cursor(0), 2);
    let lines = buf.lines_from(Mark::Cursor(0)).unwrap();
    assert_eq!(lines, vec![Vec::<u8>::new()]);
}

#[test]
fn remove_range_returns_bytes_in_original_order() {
    let mut buf = Buffer::from_bytes(b"hello\nworld\n");
    let removed = buf.remove_range(0, 5).unwrap();
    assert_eq!(removed, b"hello".to_vec());
    assert_eq!(content_of(&buf), b"\nworld\n".to_vec());
    assert!(buf.dirty);
}

#[test]
fn remove_range_then_undo_restores_removed_bytes() {
    let mut buf = Buffer::from_bytes(b"hello\nworld\n");
    let removed = buf.remove_range(3, 9).unwrap();
    assert_eq!(removed, b"lo\nwor".to_vec());
    assert_eq!(content_of(&buf), b"helld\n".to_vec());
    buf.undo().unwrap();
    assert_eq!(content_of(&buf), b"hello\nworld\n".to_vec());
}

#[test]
fn insert_then_undo_restores_content_at_interior_mark() {
    let mut buf = Buffer::from_bytes(b"hello\nworld\n");
    buf.set_mark(Mark::Cursor(0), 8);
    buf.insert_char(Mark::Cursor(0), b'Q');
    assert_eq!(content_of(&buf), b"hello\nwoQrld\n".to_vec());
    buf.undo().unwrap();
    assert_eq!(content_of(&buf), b"hello\nworld\n".to_vec());
}

#[test]
fn undo_redo_cycles_are_stable() {
    let mut buf = hello_world();
    buf.insert_char(Mark::Cursor(0), b'X');
    let edited = content_of(&buf);
    for _ in 0..3 {
        buf.undo().unwrap();
        assert_eq!(content_of(&buf), b"hello\nworld\n".to_vec());
        buf.redo().unwrap();
        assert_eq!(content_of(&buf), edited);
    }
}

#[test]
fn new_edit_clears_redo_history() {
    let mut buf = hello_world();
    buf.insert_char(Mark::Cursor(0), b'X');
    buf.insert_char(Mark::Cursor(0), b'Y');
    buf.undo().unwrap();
    assert_eq!(buf.log.redo_stack.len(), 1);
    buf.insert_char(Mark::Cursor(0), b'Z');
    assert!(buf.log.redo_stack.is_empty());
    let before = content_of(&buf);
    assert!(buf.redo().is_none());
    assert_eq!(content_of(&buf), before);
}

#[test]
fn undo_on_empty_history_is_a_no_op() {
    let mut buf = hello_world();
    assert!(buf.undo().is_none());
    assert!(buf.redo().is_none());
    assert_eq!(content_of(&buf), b"hello\nworld\n".to_vec());
}

#[test]
fn word_forward_resolves_to_whitespace_boundary() {
    let mut buf = Buffer::from_bytes(b"foo bar\n");
    buf.set_mark(Mark::Cursor(0), 0);
    let pos = buf
        .get_object_index(object(
            Kind::Word(Anchor::Start),
            Offset::Forward(1, Mark::Cursor(0)),
        ))
        .unwrap();
    assert_eq!(pos.absolute, 4);
}

#[test]
fn word_forward_past_last_boundary_clamps_to_last_offset() {
    let mut buf = Buffer::from_bytes(b"foo bar\n");
    buf.set_mark(Mark::Cursor(0), 0);
    let pos = buf
        .get_object_index(object(
            Kind::Word(Anchor::Start),
            Offset::Forward(9, Mark::Cursor(0)),
        ))
        .unwrap();
    assert_eq!(pos.absolute, 8);
}

#[test]
fn word_backward_past_first_boundary_clamps_to_start() {
    let mut buf = Buffer::from_bytes(b"foo bar\n");
    buf.set_mark(Mark::Cursor(0), 6);
    let pos = buf
        .get_object_index(object(
            Kind::Word(Anchor::Start),
            Offset::Backward(7, Mark::Cursor(0)),
        ))
        .unwrap();
    assert_eq!(pos.absolute, 0);
}

#[test]
fn backward_line_past_first_line_clamps_to_buffer_start() {
    let mut buf = Buffer::from_bytes(b"hello\nworld\n");
    buf.set_mark(Mark::Cursor(0), 8);
    let pos = buf
        .get_object_index(object(
            Kind::Line(Anchor::Start),
            Offset::Backward(5, Mark::Cursor(0)),
        ))
        .unwrap();
    assert_eq!(pos.absolute, 0);
}

#[test]
fn forward_line_end_past_last_line_clamps_to_last_offset() {
    let mut buf = Buffer::from_bytes(b"a\nb");
    buf.set_mark(Mark::Cursor(0), 0);
    let pos = buf
        .get_object_index(object(
            Kind::Line(Anchor::End),
            Offset::Forward(5, Mark::Cursor(0)),
        ))
        .unwrap();
    assert_eq!(pos.absolute, 3);
}

#[test]
fn char_forward_clamps_to_last_offset() {
    let mut buf = Buffer::from_bytes(b"ab");
    buf.set_mark(Mark::Cursor(0), 0);
    let pos = buf
        .get_object_index(object(Kind::Char, Offset::Forward(100, Mark::Cursor(0))))
        .unwrap();
    assert_eq!(pos.absolute, 2);
}

#[test]
fn char_backward_underflow_fails_to_resolve() {
    let mut buf = Buffer::from_bytes(b"ab");
    buf.set_mark(Mark::Cursor(0), 1);
    assert!(buf
        .get_object_index(object(Kind::Char, Offset::Backward(2, Mark::Cursor(0))))
        .is_none());
}

#[test]
fn mark_display_coords_give_column_and_line() {
    let mut buf = Buffer::from_bytes(b"hello\nworld\n");
    buf.set_mark(Mark::Cursor(0), 8);
    assert_eq!(buf.get_mark_display_coords(Mark::Cursor(0)), Some((2, 1)));
    assert_eq!(buf.get_mark_display_coords(Mark::DisplayMark(0)), None);
}

#[test]
fn set_mark_clamps_out_of_range_offsets() {
    let mut buf = Buffer::from_bytes(b"hi");
    buf.set_mark(Mark::Cursor(0), 100);
    assert_eq!(buf.get_mark_idx(Mark::Cursor(0)), Some(2));
}

#[test]
fn get_mark_idx_reports_unset_marks_absent() {
    let buf = Buffer::from_bytes(b"hi");
    assert_eq!(buf.get_mark_idx(Mark::Cursor(0)), None);
}

#[test]
fn set_mark_to_object_moves_the_mark() {
    let mut buf = hello_world();
    buf.set_mark_to_object(
        Mark::Cursor(0),
        object(Kind::Char, Offset::Forward(3, Mark::Cursor(0))),
    );
    assert_eq!(buf.get_mark_idx(Mark::Cursor(0)), Some(3));
}

#[test]
fn insert_at_virtual_end_slot_appends() {
    let mut buf = Buffer::from_bytes(b"ab");
    buf.set_mark(Mark::Cursor(0), 2);
    buf.insert_char(Mark::Cursor(0), b'c');
    assert_eq!(content_of(&buf), b"abc".to_vec());
}

#[test]
fn remove_from_mark_to_object_orders_endpoints() {
    let mut buf = hello_world();
    let removed = buf
        .remove_from_mark_to_object(
            Mark::Cursor(0),
            object(Kind::Line(Anchor::End), Offset::Forward(0, Mark::Cursor(0))),
        )
        .unwrap();
    assert_eq!(removed, b"hello".to_vec());
    assert_eq!(content_of(&buf), b"\nworld\n".to_vec());
}

#[test]
fn remove_object_removes_word_span() {
    let mut buf = Buffer::from_bytes(b"foo bar\n");
    buf.set_mark(Mark::Cursor(0), 0);
    let removed = buf
        .remove_object(object(
            Kind::Word(Anchor::Start),
            Offset::Forward(1, Mark::Cursor(0)),
        ))
        .unwrap();
    assert_eq!(removed, b"bar\n".to_vec());
    assert_eq!(content_of(&buf), b"foo ".to_vec());
}

#[test]
fn remove_object_with_unresolvable_endpoint_is_a_no_op() {
    let mut buf = hello_world();
    // A forward line request only handles the Same and End anchors, so the
    // Start-anchored endpoint fails to resolve and nothing is removed.
    assert!(buf
        .remove_object(object(
            Kind::Line(Anchor::Same),
            Offset::Forward(0, Mark::Cursor(0)),
        ))
        .is_none());
    assert_eq!(content_of(&buf), b"hello\nworld\n".to_vec());
}

#[test]
fn blank_line_counts_as_word_boundary() {
    let edger = WordEdgeMatch::Whitespace;
    assert!(edger.is_word_edge(&b'\n', &b'\n'));
    assert!(edger.is_word_edge(&b' ', &b'b'));
    assert!(!edger.is_word_edge(&b'a', &b'b'));
    assert!(!edger.is_word_edge(&b' ', &b' '));
}

#[test]
fn mark_position_start_is_zeroed() {
    let start = MarkPosition::start();
    assert_eq!(start.absolute, 0);
    assert_eq!(start.absolute_line_start, 0);
    assert_eq!(start.line_number, 0);
}

#[test]
fn line_absolute_start_and_end_land_around_the_boundary() {
    let buf = Buffer::from_bytes(b"one\ntwo\nthree\n");
    let end = buf
        .get_object_index(object(Kind::Line(Anchor::End), Offset::Absolute(1)))
        .unwrap();
    assert_eq!(end.absolute, 7);
    let start = buf
        .get_object_index(object(Kind::Line(Anchor::Start), Offset::Absolute(1)))
        .unwrap();
    assert_eq!(start.absolute, 8);
    assert!(buf
        .get_object_index(object(Kind::Line(Anchor::Start), Offset::Absolute(9)))
        .is_none());
}

#[test]
fn word_absolute_lands_on_the_counted_boundary() {
    let buf = Buffer::from_bytes(b"foo bar baz\n");
    let pos = buf
        .get_object_index(object(Kind::Word(Anchor::Start), Offset::Absolute(2)))
        .unwrap();
    assert_eq!(pos.absolute, 4);
    assert!(buf
        .get_object_index(object(Kind::Word(Anchor::Start), Offset::Absolute(0)))
        .is_none());
    assert!(buf
        .get_object_index(object(Kind::Word(Anchor::Start), Offset::Absolute(9)))
        .is_none());
}

#[test]
fn forward_line_same_keeps_the_column() {
    let mut buf = Buffer::from_bytes(b"hello\nworld\n");
    buf.set_mark(Mark::Cursor(0), 2);
    let pos = buf
        .get_object_index(object(
            Kind::Line(Anchor::Same),
            Offset::Forward(1, Mark::Cursor(0)),
        ))
        .unwrap();
    assert_eq!(pos.absolute, 8);
    assert_eq!(pos.line_number, 1);
    assert_eq!(pos.absolute_line_start, 6);
}

#[test]
fn forward_line_same_clamps_to_short_target_line() {
    let mut buf = Buffer::from_bytes(b"longline\nab\nmore\n");
    buf.set_mark(Mark::Cursor(0), 7);
    let pos = buf
        .get_object_index(object(
            Kind::Line(Anchor::Same),
            Offset::Forward(1, Mark::Cursor(0)),
        ))
        .unwrap();
    assert_eq!(pos.absolute, 11);
}

#[test]
fn backward_line_same_restores_the_column() {
    let mut buf = Buffer::from_bytes(b"hello\nworld\n");
    buf.set_mark(Mark::Cursor(0), 9);
    let pos = buf
        .get_object_index(object(
            Kind::Line(Anchor::Same),
            Offset::Backward(1, Mark::Cursor(0)),
        ))
        .unwrap();
    assert_eq!(pos.absolute, 3);
    assert_eq!(pos.line_number, 0);
}

#[test]
fn resolved_positions_keep_line_metadata_consistent() {
    let mut buf = Buffer::from_bytes(b"one\ntwo\nthree\n");
    for idx in [0usize, 3, 4, 7, 8, 13, 14, 99] {
        buf.set_mark(Mark::Cursor(0), idx);
        let (col, line) = buf.get_mark_display_coords(Mark::Cursor(0)).unwrap();
        let abs = buf.get_mark_idx(Mark::Cursor(0)).unwrap();
        let start = abs - col;
        assert!(start <= abs);
        let text = content_of(&buf);
        let newlines_before_start = text[..start].iter().filter(|&&b| b == b'\n').count();
        assert_eq!(line, newlines_before_start);
        if start > 0 {
            assert_eq!(text[start - 1], b'\n');
        }
    }
}
