use rustdown_viewer::buffer::{DiskStamp, Encoding};
use rustdown_viewer::dialogs::Modal;
use rustdown_viewer::format::TableCmd;
use rustdown_viewer::theme::ThemeMode;
use rustdown_viewer::workbench::{Answer, Cmd, Effect, Keys, Mode, SaveResult, Setting, Workbench, Zoom};
use std::path::{Path, PathBuf};

fn with_text(text: &str) -> Workbench {
    let mut w = Workbench::new();
    let _ = w.apply_cmd(Cmd::New);
    w.buffers[0].text = text.to_string();
    w
}

fn active_text(w: &Workbench) -> String {
    w.buffers[w.active.unwrap()].text.clone()
}

fn no_keys() -> Keys {
    Keys {
        command: false,
        shift: false,
        s: false,
        o: false,
        n: false,
        w: false,
        f: false,
        f1: false,
        f3: false,
        num0: false,
        num1: false,
        num2: false,
        num3: false,
        b: false,
        i: false,
        k: false,
        g: false,
        equals: false,
        minus: false,
    }
}

#[test]
fn workbench_starts_empty_in_edit_mode() {
    let w = Workbench::new();
    assert!(w.buffers.is_empty());
    assert_eq!(w.active, None);
    assert!(w.mode == Mode::Edit);
    assert_eq!((w.rows, w.cols), (3, 4));
    assert!(w.modal.is_none());
}

#[test]
fn new_command_opens_an_untitled_tab() {
    let mut w = Workbench::new();
    assert!(matches!(w.apply_cmd(Cmd::New), Effect::Nothing));
    assert!(matches!(w.apply_cmd(Cmd::New), Effect::Nothing));
    assert_eq!(w.buffers.len(), 2);
    assert_eq!(w.active, Some(1));
    assert_eq!(w.buffers[0].title(), "Untitled-1");
    assert_eq!(w.buffers[1].title(), "Untitled-2");
    assert_eq!(w.next_id, 3);
    assert!(w.preview_stale);
}

#[test]
fn bold_wraps_the_selection_as_one_undo_step() {
    let mut w = with_text("hello world");
    w.sel = Some((5, 0));
    w.apply_cmd(Cmd::Bold);
    assert_eq!(active_text(&w), "**hello** world");
    assert_eq!(w.sel, Some((0, 9)));
    assert_eq!(w.pending_cursor, Some((0, 9)));
    let (old_sel, old_text) = w.undo_snapshot.clone().unwrap();
    assert_eq!(old_sel, Some((5, 0)));
    assert_eq!(old_text, "hello world");
    // pressing again unwraps
    w.apply_cmd(Cmd::Bold);
    assert_eq!(active_text(&w), "hello world");
    assert_eq!(w.sel, Some((0, 5)));
}

#[test]
fn italic_and_strike_use_their_markers() {
    let mut w = with_text("ab");
    w.sel = Some((0, 2));
    w.apply_cmd(Cmd::Italic);
    assert_eq!(active_text(&w), "*ab*");
    let mut w = with_text("ab");
    w.sel = Some((0, 2));
    w.apply_cmd(Cmd::Strike);
    assert_eq!(active_text(&w), "~~ab~~");
}

#[test]
fn half_selected_markers_are_refused_with_a_notice() {
    let mut w = with_text("**bold** x");
    w.sel = Some((0, 4));
    w.apply_cmd(Cmd::Bold);
    assert_eq!(active_text(&w), "**bold** x");
    assert!(w.toast.is_some());
    assert!(w.undo_snapshot.is_none());
}

#[test]
fn code_span_on_several_lines_makes_a_fence() {
    let mut w = with_text("a\nb");
    w.sel = Some((0, 3));
    w.apply_cmd(Cmd::CodeSpan);
    assert_eq!(active_text(&w), "```\na\nb\n```");
    assert_eq!(w.sel, Some((4, 7)));
    let mut w = with_text("code");
    w.sel = Some((0, 4));
    w.apply_cmd(Cmd::CodeSpan);
    assert_eq!(active_text(&w), "`code`");
}

#[test]
fn line_commands_toggle_prefixes() {
    let mut w = with_text("title");
    w.sel = Some((0, 0));
    w.apply_cmd(Cmd::Heading(2));
    assert_eq!(active_text(&w), "## title");
    let mut w = with_text("item");
    w.sel = Some((1, 1));
    w.apply_cmd(Cmd::Bullet);
    assert_eq!(active_text(&w), "- item");
    let mut w = with_text("said");
    w.apply_cmd(Cmd::Quote);
    assert_eq!(active_text(&w), "> said");
    let mut w = with_text("first");
    w.apply_cmd(Cmd::Numbered);
    assert_eq!(active_text(&w), "1. first");
    let mut w = with_text("todo");
    w.apply_cmd(Cmd::Task);
    assert_eq!(active_text(&w), "- [ ] todo");
}

#[test]
fn commands_without_a_tab_change_nothing() {
    let mut w = Workbench::new();
    w.apply_cmd(Cmd::Bold);
    w.apply_cmd(Cmd::Quote);
    w.apply_cmd(Cmd::Table);
    w.apply_cmd(Cmd::Link);
    assert!(w.buffers.is_empty());
    assert!(w.modal.is_none());
    assert!(w.toast.is_none());
    assert!(matches!(w.apply_cmd(Cmd::Save), Effect::Nothing));
}

#[test]
fn table_op_outside_a_table_is_a_notice() {
    let mut w = with_text("no table here");
    w.sel = Some((0, 0));
    w.apply_cmd(Cmd::TableOp(TableCmd::InsertRowBelow));
    assert_eq!(active_text(&w), "no table here");
    assert!(w.toast.is_some());
}

#[test]
fn table_op_adds_a_row() {
    let mut w = with_text("| a | b |\n| --- | --- |\n| 1 | 2 |\n");
    w.sel = Some((2, 2));
    w.apply_cmd(Cmd::TableOp(TableCmd::InsertRowBelow));
    let t = active_text(&w);
    assert_eq!(t.lines().count(), 4);
}

#[test]
fn save_asks_for_a_name_first_when_untitled() {
    let mut w = with_text("x");
    assert!(matches!(w.apply_cmd(Cmd::Save), Effect::SaveAs(0)));
    assert!(matches!(w.apply_cmd(Cmd::SaveAs), Effect::SaveAs(0)));
    assert!(matches!(w.path_chosen(0, PathBuf::from("doc.md")), Effect::Save(0)));
    assert!(matches!(w.apply_cmd(Cmd::Save), Effect::Save(0)));
    assert!(matches!(w.path_chosen(5, PathBuf::from("doc.md")), Effect::Nothing));
}

#[test]
fn saving_clears_the_dirty_mark_and_says_so() {
    let mut w = with_text("edited");
    assert_eq!(w.dirty_list(), vec![0]);
    w.saved(0, None);
    assert!(w.dirty_list().is_empty());
    assert_eq!(w.toast.as_deref(), Some("Saved Untitled-1"));
}

#[test]
fn closing_a_clean_tab_drops_it() {
    let mut w = Workbench::new();
    w.apply_cmd(Cmd::New);
    w.apply_cmd(Cmd::New);
    w.apply_cmd(Cmd::CloseTab);
    assert_eq!(w.buffers.len(), 1);
    assert_eq!(w.active, Some(0));
    assert!(w.modal.is_none());
}

#[test]
fn closing_a_dirty_tab_asks_first() {
    let mut w = with_text("unsaved");
    w.apply_cmd(Cmd::CloseTab);
    assert_eq!(w.buffers.len(), 1);
    assert!(matches!(w.modal, Some(Modal::CloseDirty { idx: 0 })));
    // Cancel: the dialog goes, the tab stays
    assert!(matches!(w.answer(Answer::Cancel), Effect::Nothing));
    assert!(w.modal.is_none());
    assert_eq!(w.buffers.len(), 1);
    // Discard: the tab goes
    w.apply_cmd(Cmd::CloseTab);
    w.answer(Answer::Alternate);
    assert!(w.buffers.is_empty());
    assert_eq!(w.active, None);
    assert!(w.modal.is_none());
}

#[test]
fn close_dialog_save_then_close() {
    let mut w = with_text("unsaved");
    w.apply_cmd(Cmd::CloseTab);
    assert!(matches!(w.answer(Answer::Confirm), Effect::SaveAs(0)));
    assert!(matches!(w.modal, Some(Modal::CloseDirty { idx: 0 })));
    // the name dialog was cancelled: the dialog goes, the tab stays
    w.close_saved(SaveResult::Cancelled);
    assert!(w.modal.is_none());
    assert_eq!(w.buffers.len(), 1);
    // again, and this time it is saved
    w.apply_cmd(Cmd::CloseTab);
    w.answer(Answer::Confirm);
    w.close_saved(SaveResult::Failed);
    assert!(matches!(w.modal, Some(Modal::CloseDirty { idx: 0 })));
    w.close_saved(SaveResult::Saved);
    assert!(w.buffers.is_empty());
    assert!(w.modal.is_none());
}

#[test]
fn quit_with_unsaved_tabs_asks_first() {
    let mut w = with_text("unsaved");
    w.apply_cmd(Cmd::New);
    assert!(matches!(w.apply_cmd(Cmd::Quit), Effect::Nothing));
    match &w.modal {
        Some(Modal::QuitDirty { idxs }) => assert_eq!(idxs, &vec![0]),
        _ => panic!("quit dialog expected"),
    }
    assert!(matches!(w.answer(Answer::Cancel), Effect::Nothing));
    assert!(w.modal.is_none());
    assert_eq!(w.buffers.len(), 2);
    w.apply_cmd(Cmd::Quit);
    match w.answer(Answer::Confirm) {
        Effect::SaveAll(v) => assert_eq!(v, vec![0]),
        _ => panic!("save all expected"),
    }
    assert!(matches!(w.quit_saved(false), Effect::Nothing));
    assert!(matches!(w.modal, Some(Modal::QuitDirty { .. })));
    assert!(matches!(w.quit_saved(true), Effect::Exit));
    assert!(w.modal.is_none());
}

#[test]
fn quit_discard_all_drops_the_unsaved_tabs() {
    let mut w = with_text("a");
    w.apply_cmd(Cmd::New);
    w.apply_cmd(Cmd::New);
    w.buffers[2].text = "c".to_string();
    w.apply_cmd(Cmd::Quit);
    assert!(matches!(w.answer(Answer::Alternate), Effect::Exit));
    assert_eq!(w.buffers.len(), 1);
    assert_eq!(w.buffers[0].id, 2);
}

#[test]
fn quit_without_unsaved_tabs_closes() {
    let mut w = Workbench::new();
    w.apply_cmd(Cmd::New);
    assert!(matches!(w.apply_cmd(Cmd::Quit), Effect::Exit));
    assert!(w.modal.is_none());
}

#[test]
fn find_next_and_previous_select_matches() {
    let mut w = with_text("ab xx ab");
    w.find.query = "ab".to_string();
    w.find.case_sensitive = true;
    w.apply_cmd(Cmd::FindNext);
    assert_eq!(w.find_matches, vec![0..2, 6..8]);
    assert_eq!(w.sel, Some((0, 2)));
    w.apply_cmd(Cmd::FindNext);
    assert_eq!(w.sel, Some((6, 8)));
    w.apply_cmd(Cmd::FindNext);
    assert_eq!(w.sel, Some((0, 2)));
    w.apply_cmd(Cmd::FindPrev);
    assert_eq!(w.sel, Some((6, 8)));
}

#[test]
fn find_bar_toggles_and_computes_matches() {
    let mut w = with_text("a a");
    w.find.query = "a".to_string();
    w.apply_cmd(Cmd::FindBar);
    assert!(w.find.open);
    assert_eq!(w.find_matches.len(), 2);
    w.apply_cmd(Cmd::FindBar);
    assert!(!w.find.open);
}

#[test]
fn replace_all_reports_the_count() {
    let mut w = with_text("aXa");
    w.find.query = "a".to_string();
    w.find.replace = "bb".to_string();
    w.find.case_sensitive = true;
    w.apply_cmd(Cmd::ReplaceAll);
    assert_eq!(active_text(&w), "bbXbb");
    assert_eq!(w.toast.as_deref(), Some("Replaced 2 occurrence(s)"));
    assert!(w.find_matches.is_empty());
}

#[test]
fn replace_current_replaces_one_match() {
    let mut w = with_text("one two one");
    w.find.query = "one".to_string();
    w.find.replace = "1".to_string();
    w.find.case_sensitive = true;
    w.apply_cmd(Cmd::Replace);
    assert_eq!(active_text(&w), "one two one");
    assert_eq!(w.find_matches.len(), 2);
    w.sel = Some((5, 5));
    w.apply_cmd(Cmd::Replace);
    assert_eq!(active_text(&w), "one two 1");
    assert_eq!(w.sel, Some((8, 9)));
    assert_eq!(w.toast.as_deref(), Some("Replaced match"));
}

#[test]
fn go_to_line_moves_the_caret() {
    let mut w = with_text("one\ntwo\nthree");
    w.apply_cmd(Cmd::GoToLine);
    assert!(matches!(w.modal, Some(Modal::GoTo { idx: 0 })));
    w.goto = " 3 ".to_string();
    w.answer(Answer::Confirm);
    assert_eq!(w.sel, Some((8, 8)));
    assert!(w.modal.is_none());
    w.apply_cmd(Cmd::GoToLine);
    w.goto = "x".to_string();
    w.answer(Answer::Confirm);
    assert_eq!(w.sel, Some((8, 8)));
    assert!(w.modal.is_none());
}

#[test]
fn link_dialog_inserts_a_link() {
    let mut w = with_text("see docs");
    w.sel = Some((4, 8));
    w.apply_cmd(Cmd::Link);
    assert_eq!(w.link_text, "docs");
    assert!(matches!(w.modal, Some(Modal::InsertLink { idx: 0 })));
    w.link_url = "u".to_string();
    w.sel = Some((8, 8));
    w.answer(Answer::Confirm);
    assert_eq!(active_text(&w), "see docs[docs](u)");
    assert_eq!(w.link_text, "");
    assert_eq!(w.link_url, "");
    assert!(w.modal.is_none());
}

#[test]
fn table_dialog_inserts_a_table() {
    let mut w = with_text("");
    w.apply_cmd(Cmd::Table);
    assert!(matches!(w.modal, Some(Modal::TablePicker { idx: 0 })));
    w.rows = 1;
    w.cols = 2;
    w.answer(Answer::Confirm);
    assert!(active_text(&w).starts_with("| Column 1 | Column 2 |"));
    assert!(w.modal.is_none());
}

#[test]
fn picked_image_is_inserted_with_forward_slashes() {
    let mut w = with_text("");
    assert!(matches!(w.apply_cmd(Cmd::Image), Effect::PickImage));
    w.insert_image_url("C:\\pics\\a.png");
    assert_eq!(active_text(&w), "![](C:/pics/a.png)");
}

#[test]
fn outside_settings_are_left_to_the_window() {
    let mut w = Workbench::new();
    assert!(matches!(w.apply_cmd(Cmd::ZoomIn), Effect::Zoom(Zoom::In)));
    assert!(matches!(w.apply_cmd(Cmd::Wrap), Effect::Toggle(Setting::Wrap)));
    assert!(matches!(w.apply_cmd(Cmd::Theme(ThemeMode::Dark)), Effect::Theme(ThemeMode::Dark)));
    assert!(matches!(w.apply_cmd(Cmd::Open), Effect::PickFiles));
    match w.apply_cmd(Cmd::OpenRecent(PathBuf::from("a.md"))) {
        Effect::Open(p) => assert_eq!(p, PathBuf::from("a.md")),
        _ => panic!("open expected"),
    }
    w.apply_cmd(Cmd::Mode(Mode::Split));
    assert!(w.mode == Mode::Split);
    w.apply_cmd(Cmd::About);
    assert!(matches!(w.modal, Some(Modal::About)));
    w.answer(Answer::Confirm);
    assert!(w.modal.is_none());
}

#[test]
fn shortcuts_map_keys_to_commands() {
    let w = Workbench::new();
    let mut k = no_keys();
    k.command = true;
    k.s = true;
    assert!(matches!(w.shortcut(&k), Some(Cmd::Save)));
    k.shift = true;
    assert!(matches!(w.shortcut(&k), Some(Cmd::SaveAs)));
    let mut k = no_keys();
    k.f3 = true;
    assert!(matches!(w.shortcut(&k), Some(Cmd::FindNext)));
    k.shift = true;
    assert!(matches!(w.shortcut(&k), Some(Cmd::FindPrev)));
    let mut k = no_keys();
    k.command = true;
    k.w = true;
    k.shift = true;
    assert!(matches!(w.shortcut(&k), Some(Cmd::Quit)));
    assert!(w.shortcut(&no_keys()).is_none());
}

#[test]
fn shortcuts_are_ignored_while_a_dialog_is_open() {
    let mut w = Workbench::new();
    w.apply_cmd(Cmd::About);
    let mut k = no_keys();
    k.f1 = true;
    assert!(w.shortcut(&k).is_none());
}

#[test]
fn opened_file_becomes_the_active_tab() {
    let mut w = Workbench::new();
    let stamp = DiskStamp { len: 3, modified_millis: None };
    w.opened(Path::new("notes.md"), "a\r\nb".to_string(), Encoding::Utf8, false, stamp);
    assert_eq!(w.active, Some(0));
    assert_eq!(w.buffers[0].text, "a\nb");
    assert!(w.dirty_list().is_empty());
    w.opened(Path::new("bad.md"), "x".to_string(), Encoding::Lossy, true, stamp);
    assert_eq!(w.active, Some(1));
    assert_eq!(w.buffers[1].title(), "bad.md (repaired)");
    w.show_tab(0);
    assert_eq!(w.active, Some(0));
}

#[test]
fn reload_replaces_the_text_and_missing_marks_it() {
    let mut w = Workbench::new();
    let stamp = DiskStamp { len: 1, modified_millis: Some(5) };
    w.opened(Path::new("n.md"), "old".to_string(), Encoding::Utf8, false, stamp);
    w.buffers[0].text = "mine".to_string();
    w.reloaded(0, "new\r\n".to_string(), Encoding::Utf8Bom, false, stamp);
    assert_eq!(w.buffers[0].text, "new\n");
    assert!(w.dirty_list().is_empty());
    assert_eq!(w.buffers[0].encoding, Encoding::Utf8Bom);
    assert!(w.toast.as_deref().unwrap().starts_with("Reloaded "));
    w.reload_missing(0);
    assert!(w.buffers[0].missing_on_disk);
}

#[test]
fn external_change_keep_mine_suppresses_the_prompt_once() {
    let mut w = with_text("x");
    w.modal = Some(Modal::ExternalChanged { idx: 0 });
    assert!(matches!(w.answer(Answer::Alternate), Effect::Nothing));
    assert!(w.buffers[0].suppress_external_change_once);
    w.modal = Some(Modal::ExternalChanged { idx: 0 });
    assert!(matches!(w.answer(Answer::Confirm), Effect::Reload(0)));
    assert!(w.modal.is_none());
}

#[test]
fn recovery_restores_the_copies() {
    let mut w = Workbench::new();
    w.modal = Some(Modal::Recovery {
        items: vec![
            ("one".to_string(), None, "1".to_string()),
            ("two".to_string(), Some(PathBuf::from("t.md")), "2".to_string()),
        ],
    });
    assert!(matches!(w.answer(Answer::Confirm), Effect::ClearRecovery));
    assert_eq!(w.buffers.len(), 2);
    assert_eq!(w.active, Some(1));
    assert_eq!(w.buffers[0].title(), "one");
    assert_eq!(w.buffers[1].text, "2");
    assert_eq!(w.dirty_list(), vec![0, 1]);
    assert_eq!(w.next_id, 3);
    assert!(w.modal.is_none());
}

#[test]
fn cjk_font_is_needed_only_for_cjk_text() {
    let mut w = with_text("plain café");
    assert!(!w.needs_cjk_font());
    w.apply_cmd(Cmd::New);
    w.buffers[1].text = "日本語".to_string();
    assert!(w.needs_cjk_font());
}

#[test]
fn caret_toggles_undo_themselves() {
    for c in [Cmd::Quote, Cmd::Bullet, Cmd::Numbered, Cmd::Heading(3)] {
        let mut w = with_text("one\ntwo\nthree");
        w.sel = Some((5, 5));
        let again = match &c {
            Cmd::Quote => Cmd::Quote,
            Cmd::Bullet => Cmd::Bullet,
            Cmd::Numbered => Cmd::Numbered,
            _ => Cmd::Heading(3),
        };
        w.apply_cmd(c);
        assert_ne!(active_text(&w), "one\ntwo\nthree");
        w.apply_cmd(again);
        assert_eq!(active_text(&w), "one\ntwo\nthree");
        assert_eq!(w.sel, Some((5, 5)));
    }
}

#[test]
fn test_app_smart_enter_bullet_flow() {
    let mut w = with_text("- first");
    w.sel = Some((7, 7));
    assert!(w.enter());
    assert_eq!(w.buffers[0].text, "- first\n- ");
    assert!(w.enter());
    assert_eq!(w.buffers[0].text, "- first\n");
}

#[test]
fn test_app_smart_enter_numbered_flow() {
    let mut w = with_text("1. first");
    w.sel = Some((8, 8));
    assert!(w.enter());
    assert_eq!(w.buffers[0].text, "1. first\n2. ");
    assert!(w.enter());
    assert_eq!(w.buffers[0].text, "1. first\n");
}

#[test]
fn test_app_h3_heading_toggle() {
    let mut w = with_text("section title");
    w.sel = Some((0, 0));
    w.apply_cmd(Cmd::Heading(3));
    assert_eq!(w.buffers[0].text, "### section title");
}

#[test]
fn test_app_table_commands_no_crash() {
    let mut w = with_text("# Title\n\n| Column 1 | Column 2 |\n| --- | --- |\n| row1_a | row1_b |\n");
    let cell_pos = w.buffers[0].text.find("row1_a").unwrap();
    w.sel = Some((cell_pos, cell_pos));
    w.apply_cmd(Cmd::TableOp(TableCmd::InsertRowAbove));
    assert!(w.buffers[0].text.lines().count() >= 6);
    w.apply_cmd(Cmd::TableOp(TableCmd::InsertRowBelow));
    assert!(w.buffers[0].text.lines().count() >= 7);
    w.apply_cmd(Cmd::TableOp(TableCmd::InsertColLeft));
    w.apply_cmd(Cmd::TableOp(TableCmd::InsertColRight));
    w.apply_cmd(Cmd::TableOp(TableCmd::DeleteRow));
    w.apply_cmd(Cmd::TableOp(TableCmd::DeleteCol));
}

#[test]
fn enter_is_left_to_the_editor_off_a_list_or_with_a_selection() {
    let mut w = with_text("plain");
    w.sel = Some((5, 5));
    assert!(!w.enter());
    assert_eq!(w.buffers[0].text, "plain");
    let mut l = with_text("- a");
    l.sel = Some((1, 3));
    assert!(!l.enter());
    assert_eq!(l.buffers[0].text, "- a");
    assert!(!Workbench::new().enter());
}

#[test]
fn enter_refreshes_open_find_matches() {
    let mut w = with_text("- a");
    w.sel = Some((3, 3));
    w.find.open = true;
    w.find.query = "-".to_string();
    assert!(w.enter());
    assert_eq!(w.buffers[0].text, "- a\n- ");
    assert_eq!(w.find_matches, vec![0..1, 4..5]);
    assert_eq!(w.sel, Some((6, 6)));
}

fn on_disk(text: &str) -> Workbench {
    let mut w = Workbench::new();
    let stamp = DiskStamp { len: 1, modified_millis: Some(5) };
    w.opened(Path::new("n.md"), text.to_string(), Encoding::Utf8, false, stamp);
    w
}

#[test]
fn changed_clean_tab_is_reloaded() {
    let mut w = on_disk("a");
    assert!(matches!(w.disk_checked(0, true), Effect::Reload(0)));
    assert!(w.modal.is_none());
    assert!(matches!(w.disk_checked(0, false), Effect::Nothing));
    assert!(matches!(w.disk_checked(7, true), Effect::Nothing));
}

#[test]
fn changed_dirty_tab_asks_first() {
    let mut w = on_disk("a");
    w.buffers[0].text = "mine".to_string();
    assert!(matches!(w.disk_checked(0, true), Effect::Nothing));
    assert!(matches!(w.modal, Some(Modal::ExternalChanged { idx: 0 })));
    assert_eq!(w.buffers[0].text, "mine");
}

#[test]
fn changed_dirty_tab_keeps_an_open_dialog_and_respects_keep_mine() {
    let mut w = on_disk("a");
    w.buffers[0].text = "mine".to_string();
    w.modal = Some(Modal::About);
    assert!(matches!(w.disk_checked(0, true), Effect::Nothing));
    assert!(matches!(w.modal, Some(Modal::About)));
    w.modal = None;
    w.buffers[0].suppress_external_change_once = true;
    assert!(matches!(w.disk_checked(0, true), Effect::Nothing));
    assert!(w.modal.is_none());
}

#[test]
fn refusal_notice_reaches_the_toast() {
    let mut w = with_text("a **b c");
    w.sel = Some((2, 5));
    w.apply_cmd(Cmd::Bold);
    assert_eq!(w.toast.as_deref(), Some("Formatting markers are half-selected — include the whole word"));
    let mut t = with_text("no table here");
    t.sel = Some((0, 0));
    t.apply_cmd(Cmd::TableOp(TableCmd::InsertRowBelow));
    assert_eq!(t.toast.as_deref(), Some("caret is not inside a table"));
}
