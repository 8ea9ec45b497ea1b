use gambit::text::{append_bytes, comment_wrap, copy_span, same_bytes, same_text};
use gambit::{replace_span, replace_spans, Edit};

fn edit(start: usize, end: usize, text: &str) -> Edit {
    Edit { start, end, text: text.as_bytes().to_vec() }
}

#[test]
fn replace_span_puts_text_in_place() {
    let out = replace_span(b"hello world", b"there", 6, 11);
    assert_eq!(out, b"hello there".to_vec());
}

#[test]
fn replace_span_with_empty_span_inserts() {
    let out = replace_span(b"ab", b"--", 1, 1);
    assert_eq!(out, b"a--b".to_vec());
}

#[test]
fn replace_span_with_empty_text_deletes() {
    let out = replace_span(b"abcdef", b"", 2, 4);
    assert_eq!(out, b"abef".to_vec());
}

#[test]
fn replace_span_over_everything() {
    let out = replace_span(b"abc", b"xy", 0, 3);
    assert_eq!(out, b"xy".to_vec());
}

#[test]
fn replacing_a_span_with_its_own_bytes_changes_nothing() {
    let source = b"uint y = a - b;";
    for start in 0..=source.len() {
        for end in start..=source.len() {
            let own = copy_span(source, start, end);
            assert_eq!(replace_span(source, &own, start, end), source.to_vec());
        }
    }
}

#[test]
fn copy_span_is_the_slice() {
    assert_eq!(copy_span(b"abcdef", 1, 4), b"bcd".to_vec());
    assert_eq!(copy_span(b"abcdef", 3, 3), Vec::<u8>::new());
    assert_eq!(copy_span(b"abcdef", 0, 6), b"abcdef".to_vec());
}

#[test]
fn append_bytes_adds_at_the_end() {
    let mut out = b"ab".to_vec();
    append_bytes(&mut out, b"cd");
    append_bytes(&mut out, b"");
    assert_eq!(out, b"abcd".to_vec());
}

#[test]
fn comment_wrap_adds_the_markers() {
    assert_eq!(comment_wrap(b"x = 1;"), b"/*x = 1;*/".to_vec());
    assert_eq!(comment_wrap(b""), b"/**/".to_vec());
}

#[test]
fn same_bytes_compares_contents() {
    assert!(same_bytes(b"abc", b"abc"));
    assert!(!same_bytes(b"abc", b"abd"));
    assert!(!same_bytes(b"abc", b"ab"));
    assert!(same_bytes(b"", b""));
}

#[test]
fn same_text_compares_contents() {
    assert!(same_text("require", "require"));
    assert!(!same_text("require", "requirf"));
    assert!(!same_text("a", ""));
    assert!(same_text("\u{e9}t\u{e9}", "\u{e9}t\u{e9}"));
}

#[test]
fn replace_spans_uses_the_offsets_of_the_source() {
    let out = replace_spans(b"f(first, second)", vec![edit(2, 7, "second"), edit(9, 15, "first")]);
    assert_eq!(out, b"f(second, first)".to_vec());
}

#[test]
fn replace_spans_takes_edits_in_any_order() {
    let forward = replace_spans(b"0123456789", vec![edit(1, 2, "aa"), edit(4, 6, ""), edit(8, 9, "bbb")]);
    let backward = replace_spans(b"0123456789", vec![edit(8, 9, "bbb"), edit(4, 6, ""), edit(1, 2, "aa")]);
    let mixed = replace_spans(b"0123456789", vec![edit(4, 6, ""), edit(8, 9, "bbb"), edit(1, 2, "aa")]);
    assert_eq!(forward, b"0aa2367bbb9".to_vec());
    assert_eq!(backward, forward);
    assert_eq!(mixed, forward);
}

#[test]
fn replace_spans_without_edits_copies_the_source() {
    assert_eq!(replace_spans(b"abc", Vec::new()), b"abc".to_vec());
}

#[test]
fn replace_spans_puts_an_insertion_before_the_span_that_starts_there() {
    let out = replace_spans(b"abcd", vec![edit(1, 3, "X"), edit(1, 1, "i")]);
    assert_eq!(out, b"aiXd".to_vec());
}

#[test]
fn replace_spans_keeps_the_order_of_insertions_at_one_place() {
    let out = replace_spans(b"ab", vec![edit(1, 1, "1"), edit(1, 1, "2")]);
    assert_eq!(out, b"a12b".to_vec());
}

#[test]
fn replace_spans_with_touching_spans() {
    let out = replace_spans(b"abcd", vec![edit(2, 4, "Y"), edit(0, 2, "X")]);
    assert_eq!(out, b"XY".to_vec());
}

#[test]
fn replace_spans_lays_edits_in_order_out_from_left_to_right() {
    let source = b"0123456789";
    let edits = vec![edit(0, 1, "a"), edit(1, 1, "bb"), edit(3, 5, ""), edit(5, 6, "ccc"), edit(9, 10, "d")];
    let mut expected = Vec::new();
    let mut from = 0;
    for e in &edits {
        expected.extend_from_slice(&source[from..e.start]);
        expected.extend_from_slice(&e.text);
        from = e.end;
    }
    expected.extend_from_slice(&source[from..]);
    assert_eq!(expected, b"abb12ccc678d".to_vec());
    assert_eq!(replace_spans(source, edits), expected);
}
