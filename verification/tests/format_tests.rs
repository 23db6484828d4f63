use rustdown_viewer::format::{
    insert_image, insert_link, insert_table, parse_tables, smart_enter, table_cols, table_op, toggle_blockquote,
    toggle_bullet_list, toggle_heading, toggle_numbered_list, toggle_task_item, toggle_task_list, toggle_wrap, plain_line,
    Out, TableCmd,
};
use rustdown_viewer::text_utils::line_bounds;

#[test]
fn bold_roundtrip() {
    let text = "say hello now";
    let sel = 4..9;
    let Out::Applied(wrapped) = toggle_wrap(text, &sel, "**", "**") else { panic!("wrap failed") };
    assert_eq!(wrapped.new_text, "say **hello** now");
    let sel2 = wrapped.selection.clone();
    let Out::Applied(unwrapped) = toggle_wrap(&wrapped.new_text, &sel2, "**", "**") else { panic!("unwrap failed") };
    assert_eq!(unwrapped.new_text, "say hello now");
}

#[test]
fn bold_never_doubles_on_full_token() {
    let text = "**bold** here";
    let sel = 0..8;
    let Out::Applied(op) = toggle_wrap(text, &sel, "**", "**") else { panic!() };
    assert_eq!(op.new_text, "bold here");
}

#[test]
fn caret_inside_token_unwraps() {
    let text = "a **bold** c";
    let Out::Applied(op) = toggle_wrap(text, &(5..5), "**", "**") else { panic!() };
    assert_eq!(op.new_text, "a bold c");
    assert_eq!(op.selection, 6..6, "caret at the end of the inner content");
}

#[test]
fn empty_pair_insert() {
    let text = "ab";
    let Out::Applied(op) = toggle_wrap(text, &(1..1), "**", "**") else { panic!() };
    assert_eq!(op.new_text, "a****b");
    assert_eq!(op.selection, 3..3);
}

#[test]
fn half_selected_markers_are_refused() {
    let text = "**bold here";
    let out = toggle_wrap(text, &(0..6), "**", "**");
    assert!(matches!(out, Out::Noop(_)));
}

#[test]
fn half_selected_markers_give_the_notice() {
    let notice = "Formatting markers are half-selected — include the whole word";
    for (text, sel) in [("a **b c", 2..5), ("a b** c", 2..5)] {
        match toggle_wrap(text, &sel, "**", "**") {
            Out::Noop(m) => assert_eq!(m, notice),
            Out::Applied(op) => panic!("applied: {:?}", op.new_text),
        }
    }
}

#[test]
fn heading_toggle_and_demote() {
    let text = "hello\nworld";
    let Out::Applied(h1) = toggle_heading(text, &(0..5), 1) else { panic!() };
    assert_eq!(h1.new_text, "# hello\nworld");
    let Out::Applied(h2) = toggle_heading(&h1.new_text, &(0..7), 2) else { panic!() };
    assert_eq!(h2.new_text, "## hello\nworld");
    let Out::Applied(plain) = toggle_heading(&h2.new_text, &(0..9), 2) else { panic!() };
    assert_eq!(plain.new_text, "hello\nworld");
}

#[test]
fn blockquote_toggle() {
    let text = "line one\nline two";
    let Out::Applied(q) = toggle_blockquote(text, &(0..text.len())) else { panic!() };
    assert_eq!(q.new_text, "> line one\n> line two");
    let Out::Applied(un) = toggle_blockquote(&q.new_text, &(0..q.new_text.len())) else { panic!() };
    assert_eq!(un.new_text, "line one\nline two");
}

#[test]
fn bullet_toggle() {
    let text = "a\nb";
    let Out::Applied(l) = toggle_bullet_list(text, &(0..text.len())) else { panic!() };
    assert_eq!(l.new_text, "- a\n- b");
}

#[test]
fn numbered_and_task_toggles() {
    let text = "a\n\nb";
    let Out::Applied(n) = toggle_numbered_list(text, &(0..text.len())) else { panic!() };
    assert_eq!(n.new_text, "1. a\n\n1. b");
    let Out::Applied(t) = toggle_task_list("x\ny", &(0..3), false) else { panic!() };
    assert_eq!(t.new_text, "- [ ] x\n- [ ] y");
    let Out::Applied(back) = toggle_task_list(&t.new_text, &(0..t.new_text.len()), false) else { panic!() };
    assert_eq!(back.new_text, "- x\n- y");
}

#[test]
fn insert_link_basic() {
    let text = "abc";
    let op = insert_link(text, 3, "click", "https://x.dev");
    assert_eq!(op.new_text, "abc[click](https://x.dev)");
    assert_eq!(&op.new_text[op.selection.clone()], "click");
}

#[test]
fn link_selection_is_a_byte_range() {
    let op = insert_link("", 0, "é", "u");
    assert_eq!(op.new_text, "[é](u)");
    assert_eq!(op.selection, 1..3);
    assert_eq!(&op.new_text[op.selection.clone()], "é");
}

#[test]
fn image_selection_covers_the_alt_text() {
    let op = insert_image("x", 1, "ü pic", "p.png");
    assert_eq!(op.new_text, "x![ü pic](p.png)");
    assert_eq!(&op.new_text[op.selection.clone()], "ü pic");
}

#[test]
fn inserted_table_puts_the_caret_in_the_first_body_cell() {
    let op = insert_table("", 0, 2, 3);
    assert_eq!(op.selection.start, op.selection.end);
    let third_line = op.new_text.match_indices('\n').nth(1).unwrap().0 + 1;
    assert_eq!(op.selection.start, third_line + 2);
    assert!(71 <= op.selection.start && op.selection.start <= 81);
    let before = insert_table("ab", 2, 1, 1);
    let line = before.new_text[2..].match_indices('\n').nth(1).unwrap().0 + 3;
    assert_eq!(before.selection, line + 2..line + 2);
}

#[test]
fn insert_image_uses_forward_slashes() {
    let op = insert_image("", 0, "pic", "a\\b.png");
    assert_eq!(op.new_text, "![pic](a/b.png)");
}

#[test]
fn table_insert_and_ops() {
    let text = "";
    let op = insert_table(text, 0, 2, 3);
    assert!(op.new_text.contains("| Column 1 | Column 2 | Column 3 |"));
    assert_eq!(op.new_text.lines().count(), 4, "header + delim + 2 body rows");
    let t2 = &op.new_text;
    let body_start = t2.find("|  |  |").or_else(|| t2.rfind('\n').map(|i| i + 1)).unwrap_or(t2.len() - 1);
    let Out::Applied(with_row) = table_op(t2, body_start, TableCmd::InsertRowBelow) else { panic!("not in table") };
    assert_eq!(with_row.new_text.lines().count(), 5, "one extra row added");
    let Out::Applied(with_col) = table_op(&with_row.new_text, 0, TableCmd::InsertColLeft) else { panic!() };
    let pipes = with_col.new_text.lines().next().unwrap().matches('|').count();
    assert_eq!(pipes, 5, "4 columns render as 5 pipes on a row");
}

#[test]
fn delete_only_col_removes_table() {
    let t = "| A |\n| --- |\n| 1 |\n";
    let Out::Applied(op) = table_op(t, 0, TableCmd::DeleteCol) else { panic!() };
    assert!(op.new_text.trim().is_empty());
}

#[test]
fn table_op_outside_a_table_is_refused() {
    assert!(matches!(table_op("plain text", 2, TableCmd::InsertRowBelow), Out::Noop(_)));
}

#[test]
fn task_item_flip() {
    let t = "- [ ] do it";
    let r = toggle_task_item(t, 2);
    assert!(
        r.is_some(),
        "no task found: line={:?} find={:?}",
        line_bounds(t, 2).map(|(s, e, _)| &t[s..e]),
        t.find("[ ]")
    );
    let op = r.unwrap();
    assert_eq!(op.new_text, "- [x] do it");
}

#[test]
fn checked_task_item_flips_back() {
    let op = toggle_task_item("- [x] do it", 2).unwrap();
    assert_eq!(op.new_text, "- [ ] do it");
    assert_eq!(op.selection, 3..4);
    assert!(toggle_task_item("no box here", 2).is_none());
}

#[test]
fn plain_line_strips_heading_and_quote_markers() {
    assert_eq!(plain_line("## Title"), "Title");
    assert_eq!(plain_line("> quoted"), "quoted");
    assert_eq!(plain_line("- [x] done"), "- [x] done");
}

#[test]
fn heading_with_caret_at_eof() {
    let Out::Applied(op) = toggle_heading("hello", &(5..5), 1) else { panic!("no-op at EOF") };
    assert_eq!(op.new_text, "# hello");
    assert_eq!(op.selection, 7..7, "caret must stay at the end of the line");
}

#[test]
fn heading_on_empty_document_inserts_prefix() {
    let Out::Applied(op) = toggle_heading("", &(0..0), 2) else { panic!("no-op on empty doc") };
    assert_eq!(op.new_text, "## ");
    assert_eq!(op.selection, 3..3);
    let Out::Applied(off) = toggle_heading(&op.new_text, &op.selection, 2) else { panic!("no-op") };
    assert_eq!(off.new_text, "");
}

#[test]
fn heading_on_empty_middle_line_prefixes_that_line_only() {
    let text = "a\n\nb";
    let Out::Applied(op) = toggle_heading(text, &(2..2), 1) else { panic!("no-op") };
    assert_eq!(op.new_text, "a\n# \nb");
    assert_eq!(op.selection.start, 4, "caret lands after the inserted prefix");
}

#[test]
fn heading_keeps_relative_caret_on_a_plain_line() {
    let Out::Applied(op) = toggle_heading("hello world", &(6..6), 1) else { panic!("no-op") };
    assert_eq!(op.new_text, "# hello world");
    assert_eq!(&op.new_text[..op.selection.start], "# hello ");
}

#[test]
fn block_toggles_survive_buffer_edges() {
    let t = "héllo 😀";
    let eof = t.len();
    for (name, out) in [
        ("heading", toggle_heading(t, &(eof..eof), 1)),
        ("quote", toggle_blockquote(t, &(eof..eof))),
        ("bullet", toggle_bullet_list(t, &(eof..eof))),
        ("numbered", toggle_numbered_list(t, &(eof..eof))),
        ("task", toggle_task_list(t, &(eof..eof), false)),
    ] {
        assert!(matches!(out, Out::Applied(_)), "{name} refused at EOF");
    }
    let Out::Applied(_) = toggle_bullet_list("é", &(0..0)) else { panic!("bullet refused on multibyte line") };
}

#[test]
fn smart_enter_bullet_continuation_and_exit() {
    let text = "- first item";
    let op = smart_enter(text, text.len()).expect("expected smart enter");
    assert_eq!(op.new_text, "- first item\n- ");
    assert_eq!(op.selection, 15..15);
    let op2 = smart_enter(&op.new_text, op.selection.start).expect("expected smart enter exit");
    assert_eq!(op2.new_text, "- first item\n");
    assert_eq!(op2.selection, 13..13);
    let star = "* star item";
    let op_star = smart_enter(star, star.len()).expect("expected star enter");
    assert_eq!(op_star.new_text, "* star item\n* ");
    let plus = "+ plus item";
    let op_plus = smart_enter(plus, plus.len()).expect("expected plus enter");
    assert_eq!(op_plus.new_text, "+ plus item\n+ ");
    let indented = "  - sub item";
    let op_ind = smart_enter(indented, indented.len()).expect("expected indented enter");
    assert_eq!(op_ind.new_text, "  - sub item\n  - ");
    let op_ind_exit = smart_enter(&op_ind.new_text, op_ind.selection.start).expect("expected indented exit");
    assert_eq!(op_ind_exit.new_text, "  - sub item\n");
}

#[test]
fn smart_enter_numbered_continuation_and_exit() {
    let text = "1. first";
    let op = smart_enter(text, text.len()).expect("expected numbered enter");
    assert_eq!(op.new_text, "1. first\n2. ");
    assert_eq!(op.selection, 12..12);
    let op2 = smart_enter(&op.new_text, op.selection.start).expect("expected numbered exit");
    assert_eq!(op2.new_text, "1. first\n");
    assert_eq!(op2.selection, 9..9);
    let multi = "9. ninth";
    let op_multi = smart_enter(multi, multi.len()).expect("expected 10.");
    assert_eq!(op_multi.new_text, "9. ninth\n10. ");
    let paren = "1) first paren";
    let op_paren = smart_enter(paren, paren.len()).expect("expected 2)");
    assert_eq!(op_paren.new_text, "1) first paren\n2) ");
    let ind_num = "    3. four";
    let op_ind_num = smart_enter(ind_num, ind_num.len()).expect("expected 4.");
    assert_eq!(op_ind_num.new_text, "    3. four\n    4. ");
}

#[test]
fn smart_enter_task_continuation_and_exit() {
    let task = "- [x] completed task";
    let op = smart_enter(task, task.len()).expect("expected task enter");
    assert_eq!(op.new_text, "- [x] completed task\n- [ ] ");
    let op2 = smart_enter(&op.new_text, op.selection.start).expect("expected task exit");
    assert_eq!(op2.new_text, "- [x] completed task\n");
}

#[test]
fn smart_enter_mid_item_and_plain_text() {
    let text = "- hello world";
    let op = smart_enter(text, 7).expect("split item");
    assert_eq!(op.new_text, "- hello\n-  world");
    assert!(smart_enter("plain text", 5).is_none());
    assert!(smart_enter("---", 3).is_none());
    assert!(smart_enter("- hello", 0).is_none());
}

#[test]
fn test_table_operations_robustness() {
    let text = "# Title\n\nSome text\n\n| Column 1 | Column 2 |\n| --- | --- |\n| a | b |\n";
    let caret = text.find("| a | b |").unwrap();
    let Out::Applied(above) = table_op(text, caret, TableCmd::InsertRowAbove) else { panic!() };
    assert_eq!(above.new_text.lines().count(), 8, "added 1 row above");
    let Out::Applied(below) = table_op(text, caret, TableCmd::InsertRowBelow) else { panic!() };
    assert_eq!(below.new_text.lines().count(), 8, "added 1 row below");
    let Out::Applied(col_l) = table_op(text, caret, TableCmd::InsertColLeft) else { panic!() };
    assert_eq!(table_cols(&parse_tables(&col_l.new_text)[0]), 3);
    let Out::Applied(col_r) = table_op(text, caret, TableCmd::InsertColRight) else { panic!() };
    assert_eq!(table_cols(&parse_tables(&col_r.new_text)[0]), 3);
    let at_end = text.trim_end().len();
    let Out::Applied(row_end) = table_op(text, at_end, TableCmd::InsertRowBelow) else { panic!() };
    assert_eq!(row_end.new_text.lines().count(), 8);
    let header_pos = text.find("| Column 1").unwrap();
    let Out::Applied(h_below) = table_op(text, header_pos, TableCmd::InsertRowBelow) else { panic!() };
    assert_eq!(h_below.new_text.lines().count(), 8);
    let delim_pos = text.find("| ---").unwrap();
    let Out::Applied(d_below) = table_op(text, delim_pos, TableCmd::InsertRowBelow) else { panic!() };
    assert_eq!(d_below.new_text.lines().count(), 8);
    let Out::Applied(del_r) = table_op(text, caret, TableCmd::DeleteRow) else { panic!() };
    assert_eq!(del_r.new_text.lines().count(), 7, "deleted body row but kept minimum 1 empty body row");
}

#[test]
fn empty_pair_is_removed_by_a_second_press() {
    let t = "plain text";
    let first = match toggle_wrap(t, &(5..5), "**", "**") {
        Out::Applied(op) => op,
        Out::Noop(_) => panic!("expected an edit"),
    };
    assert_eq!(first.new_text, "plain**** text");
    assert_eq!(first.selection, 7..7);
    match toggle_wrap(&first.new_text, &first.selection, "**", "**") {
        Out::Applied(op) => {
            assert_eq!(op.new_text, t);
            assert_eq!(op.selection, 5..5);
        }
        Out::Noop(_) => panic!("expected an edit"),
    }
}

#[test]
fn unwrapping_a_token_then_pressing_again_wraps_it_back() {
    let t = "a **bold** b";
    let first = match toggle_wrap(t, &(2..10), "**", "**") {
        Out::Applied(op) => op,
        Out::Noop(_) => panic!("expected an edit"),
    };
    assert_eq!(first.new_text, "a bold b");
    assert_eq!(first.selection, 2..6);
    match toggle_wrap(&first.new_text, &first.selection, "**", "**") {
        Out::Applied(op) => {
            assert_eq!(op.new_text, t);
            assert_eq!(op.selection, 2..10);
        }
        Out::Noop(_) => panic!("expected an edit"),
    }
}

#[test]
fn smart_enter_on_the_largest_number_stays_short() {
    let text = "18446744073709551615. a";
    let op = smart_enter(text, text.len()).unwrap();
    assert_eq!(op.new_text, "18446744073709551615. a\n18446744073709551615. ");
    assert!(op.new_text.len() <= 2 * text.len() + 32);
    let deep = "      99999999999999999999999. b";
    let op = smart_enter(deep, deep.len()).unwrap();
    assert!(op.new_text.len() <= 2 * deep.len() + 32);
}
