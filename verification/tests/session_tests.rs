use rustdown_viewer::format::Out;
use rustdown_viewer::session::{active_after_remove, code_span, goto_line_caret, goto_match, replace_target, selection_bytes};

#[test]
fn active_tab_after_closing() {
    assert_eq!(active_after_remove(Some(2), 2, 2), Some(1));
    assert_eq!(active_after_remove(Some(0), 0, 3), Some(0));
    assert_eq!(active_after_remove(Some(0), 0, 0), None);
    assert_eq!(active_after_remove(Some(3), 1, 4), Some(2));
    assert_eq!(active_after_remove(Some(0), 1, 3), Some(0));
    assert_eq!(active_after_remove(None, 0, 3), None);
}

#[test]
fn find_next_and_previous_wrap_around() {
    let ms = vec![0..2, 5..7, 9..10];
    assert_eq!(goto_match(&ms, 6, true), Some(9..10));
    assert_eq!(goto_match(&ms, 10, true), Some(0..2));
    assert_eq!(goto_match(&ms, 6, false), Some(0..2));
    assert_eq!(goto_match(&ms, 1, false), Some(9..10));
    assert_eq!(goto_match(&[], 1, true), None);
}

#[test]
fn replace_targets_the_match_at_or_after_the_caret() {
    let ms = vec![0..2, 5..7];
    assert_eq!(replace_target(&ms, 3), Some(5..7));
    assert_eq!(replace_target(&ms, 8), Some(0..2));
    assert_eq!(replace_target(&[], 0), None);
}

#[test]
fn character_selection_to_bytes() {
    assert_eq!(selection_bytes("héllo", Some((3, 1))), 1..4);
    assert_eq!(selection_bytes("héllo", None), 6..6);
    assert_eq!(selection_bytes("héllo", Some((0, 99))), 0..6);
}

#[test]
fn inline_code_on_multiline_selection_makes_a_fence() {
    let Out::Applied(op) = code_span("a\nb", &(0..3)) else { panic!("refused") };
    assert_eq!(op.new_text, "```\na\nb\n```");
    assert_eq!(op.selection, 4..7);
    let Out::Applied(op2) = code_span("ab", &(0..2)) else { panic!("refused") };
    assert_eq!(op2.new_text, "`ab`");
}

#[test]
fn go_to_line_reads_a_number() {
    let t = "ab\ncd\nef";
    assert_eq!(goto_line_caret(t, " 2 "), Some(3));
    assert_eq!(goto_line_caret(t, "+3"), Some(6));
    assert_eq!(goto_line_caret(t, "0"), Some(0));
    assert_eq!(goto_line_caret(t, "9"), Some(8));
    assert_eq!(goto_line_caret(t, "x"), None);
    assert_eq!(goto_line_caret(t, ""), None);
    assert_eq!(goto_line_caret(t, "99999999999999999999999"), None);
    assert_eq!(goto_line_caret("é\nb", "2"), Some(2));
}
