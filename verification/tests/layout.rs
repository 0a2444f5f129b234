use stopwatch::layout::pad_to_position;

#[test]
fn test_pad_to_position() {
    assert_eq!(pad_to_position("@", 0, 0), "@");
    assert_eq!(pad_to_position("@", 2, 0), " @");
    assert_eq!("\n@", pad_to_position("@", 0, 2));
    assert_eq!("\n @", pad_to_position("@", 2, 2));
    assert_eq!("\n\n @@\n @@", pad_to_position("@@\n@@", 3, 5));
    assert_eq!("\n\n\n  01\n  012\n  0", pad_to_position("01\n012\n0", 4, 6));
    assert_eq!("  01\n  012\n  0", pad_to_position("01\n012\n0", 4, 1));
    assert_eq!("\n\n\n01\n012\n0", pad_to_position("01\n012\n0", 0, 6));
}

#[test]
fn test_empty_text() {
    assert_eq!(pad_to_position("", 0, 0), "");
    assert_eq!(pad_to_position("", 0, 4), "\n\n");
    assert_eq!(pad_to_position("", 8, 0), "");
}

#[test]
fn test_trailing_newline_is_absorbed() {
    assert_eq!(pad_to_position("a\n", 0, 0), "a");
    assert_eq!(pad_to_position("a\nb\n", 0, 0), "a\nb");
}

#[test]
fn test_odd_viewport_sizes_round_down() {
    assert_eq!(pad_to_position("abcd", 1, 0), "abcd");
    assert_eq!(pad_to_position("a\nb\nc", 0, 1), "a\nb\nc");
}

#[test]
fn test_left_padding_single_line() {
    assert_eq!(pad_to_position("xyz", 9, 0), "    xyz");
    assert_eq!(pad_to_position("xyz", 3, 0), " xyz");
}

#[test]
fn test_top_padding_count() {
    assert_eq!(pad_to_position("x", 7, 9), "\n\n\n\n   x");
}

#[test]
fn test_no_op_viewport() {
    assert_eq!(pad_to_position("hello\nworld", 0, 0), "hello\nworld");
}

#[test]
fn test_content_is_preserved() {
    let out = pad_to_position("ab\ncd", 11, 7);
    let got: String = out.chars().filter(|c| *c != ' ' && *c != '\n').collect();
    assert_eq!(got, "abcd");
}

#[test]
fn test_every_line_gets_the_same_padding() {
    assert_eq!(pad_to_position(" a\nb", 4, 0), "   a\n  b");
}
