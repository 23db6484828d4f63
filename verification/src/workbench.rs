//! The editor's state without the window: open tabs, the active one, the
//! selection, the find bar, the dialog in front, and what each command does
//! to them. The window draws this state, feeds commands in, and performs the
//! outside work a command asks for (dialogs, disk, zoom, settings).

use vstd::prelude::*;
use std::ops::Range;
use std::path::{Path, PathBuf};
use crate::buffer::{
    Buffer, Encoding, DiskStamp, untitled_name, spec_detect, normalize_crlf, normalize_crlf_string, path_display,
};
use crate::dialogs::Modal;
use crate::theme::ThemeMode;
use crate::find::{Finder, spec_matches, ranges_view, ranges_on_boundaries, replace_ranges};
use crate::session::{
    spec_active_after_remove, active_after_remove, lemma_active_stays_valid, selection_bytes, spec_goto, goto_match,
    spec_replace_target, replace_target, goto_line_caret, spec_parse_usize,
};
use crate::highlight::{trim_front, trim_back};
use crate::app_text::{nth_line_byte, is_cjk, text_has_cjk};
use crate::edits::{link_markup, image_markup, insert_link, insert_image, lemma_image_markup_len};
use crate::tables::{new_table, new_table_text, insert_table, first_body_cell};
use crate::utf8_text::{
    bytes_of, boundary, off, lemma_off_full, lemma_off_prefix, lemma_off_mono, count_starts, is_boundary,
    string_push_str, decimal, u64_to_decimal, str_range,
};
use crate::text_utils::byte_to_char;
use crate::format::{
    Out, Outcome, out_is, spec_toggle_wrap, toggle_wrap, spec_toggle_heading, toggle_heading, spec_toggle_blockquote,
    toggle_blockquote, spec_toggle_bullet, toggle_bullet_list, spec_toggle_numbered, toggle_numbered_list,
    spec_toggle_task, toggle_task_list, task_toggle_safe, touched, all_lines, task_or_blank, task_box_safe,
};
use crate::tables::{TableCmd, spec_table_op, table_op, table_caret_safe, at_safe};
use crate::session::{has_newline, spec_code_fence, code_span, ascii_string};
use crate::enter::{spec_smart_enter, smart_enter, lemma_smart_enter_len};

verus! {

/// A command on the lines the selection touches.
#[derive(Clone, Copy)]
pub enum BlockCmd {
    Heading(u8),
    Quote,
    Bullet,
    Numbered,
    Task,
}

/// A command from the menus, the toolbar or a shortcut.
pub enum Cmd {
    New,
    Open,
    OpenRecent(PathBuf),
    Save,
    SaveAs,
    CloseTab,
    Quit,
    Mode(Mode),
    FindBar,
    FindNext,
    FindPrev,
    Replace,
    ReplaceAll,
    Bold,
    Italic,
    Strike,
    CodeSpan,
    Heading(u8),
    Quote,
    Bullet,
    Numbered,
    Task,
    Table,
    TableOp(TableCmd),
    Link,
    Image,
    Theme(ThemeMode),
    ZoomIn,
    ZoomOut,
    ZoomReset,
    Wrap,
    Numbers,
    SyncScroll,
    ToggleFps,
    GoToLine,
    About,
}

/// The keys pressed in one frame, with the modifiers held.
pub struct Keys {
    /// Ctrl (Cmd on macOS).
    pub command: bool,
    pub shift: bool,
    pub s: bool,
    pub o: bool,
    pub n: bool,
    pub w: bool,
    pub f: bool,
    pub f1: bool,
    pub f3: bool,
    pub num0: bool,
    pub num1: bool,
    pub num2: bool,
    pub num3: bool,
    pub b: bool,
    pub i: bool,
    pub k: bool,
    pub g: bool,
    pub equals: bool,
    pub minus: bool,
}

/// A zoom step.
#[derive(Clone, Copy, PartialEq, Eq, Structural)]
pub enum Zoom {
    In,
    Out,
    Reset,
}

/// A view setting the window flips.
#[derive(Clone, Copy, PartialEq, Eq, Structural)]
pub enum Setting {
    Wrap,
    LineNumbers,
    SyncScroll,
    Fps,
}

/// Outside work a command leaves to the window.
pub enum Effect {
    Nothing,
    /// Ask for files to open.
    PickFiles,
    /// Open this file.
    Open(PathBuf),
    /// Write the tab to its file.
    Save(usize),
    /// Ask for a file name for the tab, then write it.
    SaveAs(usize),
    /// Close the window.
    Exit,
    /// Ask for an image to insert.
    PickImage,
    /// Switch to this theme (and remember it).
    Theme(ThemeMode),
    Zoom(Zoom),
    /// Flip this setting (and remember it).
    Toggle(Setting),
    /// Read the tab's file again.
    Reload(usize),
    /// Save these tabs one after the other (as [`Effect::Save`] or
    /// [`Effect::SaveAs`] each), stopping at the first that is not saved.
    SaveAll(Vec<usize>),
    /// Delete the recovery copies of the last session.
    ClearRecovery,
}

/// A dialog button.
#[derive(Clone, Copy, PartialEq, Eq, Structural)]
pub enum Answer {
    /// The first button: Save, Save All, Reload, Insert, Go, Recover All, Close.
    Confirm,
    /// The second button: Discard, Discard All, Keep Mine.
    Alternate,
    /// Cancel, Escape or the dialog's close box.
    Cancel,
}

/// How a save asked for by a dialog ended.
#[derive(Clone, Copy, PartialEq, Eq, Structural)]
pub enum SaveResult {
    Saved,
    /// The file name was not chosen.
    Cancelled,
    Failed,
}

/// How the active tab is shown.
#[derive(Clone, Copy, PartialEq, Eq, Structural)]
pub enum Mode {
    View,
    Edit,
    Split,
}

/// Everything the editor knows besides what the window draws.
pub struct Workbench {
    pub buffers: Vec<Buffer>,
    pub active: Option<usize>,
    pub next_id: u64,
    pub mode: Mode,
    pub find: Finder,
    pub find_matches: Vec<Range<usize>>,
    pub modal: Option<Modal>,
    /// Character offsets of the selection in the active tab (either end first).
    pub sel: Option<(usize, usize)>,
    pub link_text: String,
    pub link_url: String,
    pub goto: String,
    pub rows: usize,
    pub cols: usize,
    /// The rendered preview must be rebuilt.
    pub preview_stale: bool,
    /// The editor should take the keyboard focus.
    pub focus_editor: bool,
    /// A transient notice to show.
    pub toast: Option<String>,
    /// The selection and text before the last programmatic edit: one undo step
    /// for the editor to record.
    pub undo_snapshot: Option<(Option<(usize, usize)>, String)>,
    /// Character range the editor cursor must take.
    pub pending_cursor: Option<(usize, usize)>,
}

/// Indices of the tabs with unsaved edits, in order.
pub open spec fn dirty_indices(bs: Seq<Buffer>) -> Seq<usize>
    decreases bs.len(),
{
    if bs.len() == 0 {
        Seq::empty()
    } else {
        dirty_indices(bs.drop_last()) + if bs.last().text@ != bs.last().saved_text@ {
            seq![(bs.len() - 1) as usize]
        } else {
            Seq::empty()
        }
    }
}

/// `b` is a fresh untitled buffer numbered `id`.
pub open spec fn fresh_untitled(b: Buffer, id: u64) -> bool {
    &&& b.id == id
    &&& b.path is None
    &&& b.text@.len() == 0
    &&& b.saved_text@.len() == 0
    &&& b.encoding == Encoding::Utf8
    &&& !b.read_only
    &&& !b.missing_on_disk
    &&& b.disk_stamp is None
    &&& !b.suppress_external_change_once
    &&& b.title_override is None
}

impl Workbench {
    /// The active tab, when there is one, names an open tab.
    pub open spec fn wf(&self) -> bool {
        self.active matches Some(a) ==> a < self.buffers@.len()
    }

    /// The strings an edit splices together fit in memory together.
    pub open spec fn fits(&self) -> bool {
        bytes_of(self.active_text()).len() + bytes_of(self.find.replace@).len() + bytes_of(self.link_text@).len()
            + bytes_of(self.link_url@).len() <= isize::MAX
    }

    /// The text of the active tab, empty without one.
    pub open spec fn active_text(&self) -> Seq<char> {
        match self.active {
            Some(a) => self.buffers@[a as int].text@,
            None => Seq::empty(),
        }
    }

    /// A workbench with no tab open, in edit mode.
    pub fn new() -> (w: Workbench)
        ensures
            w.wf(),
            w.buffers@.len() == 0,
            w.active is None,
            w.next_id == 1,
            w.mode == Mode::Edit,
            w.find_matches@.len() == 0,
            w.modal is None,
            w.sel is None,
            w.rows == 3,
            w.cols == 4,
            !w.find.open,
            w.toast is None,
            w.undo_snapshot is None,
            w.pending_cursor is None,
    {
        Workbench {
            buffers: Vec::new(),
            active: None,
            next_id: 1,
            mode: Mode::Edit,
            find: Finder::default(),
            find_matches: Vec::new(),
            modal: None,
            sel: None,
            link_text: String::new(),
            link_url: String::new(),
            goto: String::new(),
            rows: 3,
            cols: 4,
            preview_stale: false,
            focus_editor: false,
            toast: None,
            undo_snapshot: None,
            pending_cursor: None,
        }
    }

    /// Indices of the tabs with unsaved edits.
    pub fn dirty_list(&self) -> (r: Vec<usize>)
        ensures
            r@ == dirty_indices(self.buffers@),
    {
        let mut r: Vec<usize> = Vec::new();
        let mut i: usize = 0;
        while i < self.buffers.len()
            invariant
                i <= self.buffers@.len(),
                r@ == dirty_indices(self.buffers@.take(i as int)),
            decreases self.buffers@.len() - i,
        {
            assert(self.buffers@.take(i + 1).drop_last() =~= self.buffers@.take(i as int));
            if self.buffers[i].is_dirty() {
                r.push(i);
            }
            i = i + 1;
        }
        assert(self.buffers@.take(i as int) =~= self.buffers@);
        r
    }

    /// Open a new empty tab and make it active, in edit mode.
    pub fn add_untitled(&mut self)
        requires
            old(self).next_id < u64::MAX,
        ensures
            final(self).wf(),
            final(self).buffers@.len() == old(self).buffers@.len() + 1,
            final(self).buffers@.drop_last() == old(self).buffers@,
            fresh_untitled(final(self).buffers@.last(), old(self).next_id),
            *final(self) == (Workbench {
                buffers: final(self).buffers,
                active: Some(old(self).buffers@.len() as usize),
                next_id: (old(self).next_id + 1) as u64,
                mode: Mode::Edit,
                preview_stale: true,
                ..*old(self)
            }),
    {
        let id = self.next_id;
        self.next_id = self.next_id + 1;
        self.buffers.push(Buffer::untitled(id));
        self.active = Some(self.buffers.len() - 1);
        self.mode = Mode::Edit;
        self.preview_stale = true;
        assert(final(self).buffers@.drop_last() =~= old(self).buffers@);
    }

    /// Drop the tab at `idx` (nothing when there is none); the active tab
    /// follows [`spec_active_after_remove`].
    pub fn remove_at(&mut self, idx: usize)
        requires
            old(self).wf(),
        ensures
            final(self).wf(),
            idx >= old(self).buffers@.len() ==> *final(self) == *old(self),
            idx < old(self).buffers@.len() ==> *final(self) == (Workbench {
                buffers: final(self).buffers,
                active: spec_active_after_remove(old(self).active, idx, (old(self).buffers@.len() - 1) as usize),
                preview_stale: true,
                ..*old(self)
            }) && final(self).buffers@ == old(self).buffers@.remove(idx as int),
    {
        if idx >= self.buffers.len() {
            return;
        }
        let _gone = self.buffers.remove(idx);
        self.active = active_after_remove(self.active, idx, self.buffers.len());
        self.preview_stale = true;
        proof {
            lemma_active_stays_valid_opt(old(self).active, idx, self.buffers@.len() as usize);
        }
    }

    /// Close the tab at `idx`: at once when it has no unsaved edits, else ask
    /// first (the close-dirty dialog).
    pub fn close_tab(&mut self, idx: usize)
        requires
            old(self).wf(),
        ensures
            final(self).wf(),
            idx >= old(self).buffers@.len() ==> *final(self) == *old(self),
            idx < old(self).buffers@.len() && old(self).buffers@[idx as int].text@
                == old(self).buffers@[idx as int].saved_text@ ==> *final(self) == (Workbench {
                buffers: final(self).buffers,
                active: spec_active_after_remove(old(self).active, idx, (old(self).buffers@.len() - 1) as usize),
                preview_stale: true,
                ..*old(self)
            }) && final(self).buffers@ == old(self).buffers@.remove(idx as int),
            idx < old(self).buffers@.len() && old(self).buffers@[idx as int].text@
                != old(self).buffers@[idx as int].saved_text@ ==> *final(self) == (Workbench {
                modal: Some(Modal::CloseDirty { idx }),
                ..*old(self)
            }),
    {
        if idx >= self.buffers.len() {
            return;
        }
        if !self.buffers[idx].is_dirty() {
            self.remove_at(idx);
        } else {
            self.modal = Some(Modal::CloseDirty { idx });
        }
    }

    /// Byte range of the selection in the active tab.
    pub fn sel_bytes(&self) -> (r: Range<usize>)
        requires
            self.wf(),
        ensures
            r.start == sel_lo(self.active_text(), self.sel),
            r.end == sel_hi(self.active_text(), self.sel),
            r.start <= r.end <= bytes_of(self.active_text()).len(),
            boundary(bytes_of(self.active_text()), r.start as int),
            boundary(bytes_of(self.active_text()), r.end as int),
    {
        match self.active {
            Some(i) => sel_of(self.buffers[i].text.as_str(), self.sel),
            None => {
                let e = String::new();
                sel_of(e.as_str(), self.sel)
            },
        }
    }
}

/// `x` clamped to at most `n`.
pub open spec fn clamp(x: int, n: int) -> int {
    if x < n { x } else { n }
}

/// Byte offset where the character selection `sel` of `text` starts (its
/// smaller end, clamped to the text; the end of the text without one).
pub open spec fn sel_lo(text: Seq<char>, sel: Option<(usize, usize)>) -> int {
    match sel {
        Some((a, b)) => off(text, clamp(if a < b { a as int } else { b as int }, text.len() as int)),
        None => bytes_of(text).len() as int,
    }
}

/// Byte offset where the character selection `sel` of `text` ends.
pub open spec fn sel_hi(text: Seq<char>, sel: Option<(usize, usize)>) -> int {
    match sel {
        Some((a, b)) => off(text, clamp(if a < b { b as int } else { a as int }, text.len() as int)),
        None => bytes_of(text).len() as int,
    }
}

/// [`selection_bytes`] with the facts its callers need: the ends are ordered
/// character boundaries of the text.
fn sel_of(text: &str, sel: Option<(usize, usize)>) -> (r: Range<usize>)
    ensures
        r.start == sel_lo(text@, sel),
        r.end == sel_hi(text@, sel),
        r.start <= r.end <= bytes_of(text@).len(),
        boundary(bytes_of(text@), r.start as int),
        boundary(bytes_of(text@), r.end as int),
{
    let r = selection_bytes(text, sel);
    proof {
        let n = text@.len() as int;
        lemma_off_full(text@);
        match sel {
            Some((a, b)) => {
                let lo = if a < b { a as int } else { b as int };
                let hi = if a < b { b as int } else { a as int };
                let l = if lo < n { lo } else { n };
                let h = if hi < n { hi } else { n };
                lemma_off_prefix(text@, l);
                lemma_off_prefix(text@, h);
                lemma_off_mono(text@, l, h);
            },
            None => {},
        }
    }
    r
}

/// [`lemma_active_stays_valid`] for any active tab.
proof fn lemma_active_stays_valid_opt(active: Option<usize>, idx: usize, len_after: usize)
    requires
        active matches Some(a) ==> a < len_after + 1,
        idx < len_after + 1,
    ensures
        spec_active_after_remove(active, idx, len_after) matches Some(a) ==> a < len_after,
{
    if let Some(a) = active {
        lemma_active_stays_valid(a, idx, len_after);
    }
}

/// Character offsets of the byte range `r` of the text `t`, clamped to it,
/// when both ends fall on character boundaries.
pub open spec fn char_range(t: Seq<u8>, r: Option<(int, int)>) -> Option<(usize, usize)> {
    match r {
        None => None,
        Some((s0, e0)) => {
            let s = clamp(s0, t.len() as int);
            let e = clamp(e0, t.len() as int);
            if 0 <= s && 0 <= e && boundary(t, s) && boundary(t, e) {
                Some((count_starts(t.subrange(0, s)) as usize, count_starts(t.subrange(0, e)) as usize))
            } else {
                None
            }
        },
    }
}

/// `n` is `o` after the active tab's text was replaced by the text whose
/// bytes are `nt`, as one undo step, with the selection moved to `r`.
pub open spec fn text_set(o: Workbench, n: Workbench, nt: Seq<u8>, r: Option<(int, int)>) -> bool {
    match o.active {
        None => n == o,
        Some(i) => {
            &&& bytes_of(n.buffers@[i as int].text@) == nt
            &&& n.buffers@ == o.buffers@.update(
                i as int,
                Buffer { text: n.buffers@[i as int].text, ..o.buffers@[i as int] },
            )
            &&& n.undo_snapshot matches Some((us, ut)) && us == o.sel && ut@ == o.buffers@[i as int].text@
            &&& match char_range(nt, r) {
                Some((a, b)) => n.sel == Some((a, b)) && n.pending_cursor == Some(
                    (if a < b { a } else { b }, if a < b { b } else { a }),
                ),
                None => n.sel == o.sel && n.pending_cursor == o.pending_cursor,
            }
            &&& n == Workbench {
                buffers: n.buffers,
                undo_snapshot: n.undo_snapshot,
                sel: n.sel,
                pending_cursor: n.pending_cursor,
                preview_stale: true,
                focus_editor: true,
                ..o
            }
        },
    }
}

/// `n` is `o` after an edit with outcome `x`: the new text and selection
/// when applied, a notice when refused.
pub open spec fn outcome_applied(o: Workbench, n: Workbench, x: Outcome) -> bool {
    match x {
        Outcome::Applied(nt, s, e) => text_set(o, n, nt, Some((s, e))),
        Outcome::Noop(m) => o.active is Some ==> (n == Workbench { toast: n.toast, ..o } && (n.toast matches Some(t) && t@ == m)),
    }
}

impl Workbench {
    /// Replace the active tab's text as one undo step (nothing without an
    /// active tab); with `new_sel`, select that byte range of the new text
    /// (clamped) when both ends are character boundaries.
    pub fn set_text(&mut self, new_text: String, new_sel: Option<Range<usize>>)
        requires
            old(self).wf(),
        ensures
            final(self).wf(),
            text_set(
                *old(self),
                *final(self),
                bytes_of(new_text@),
                match new_sel {
                    Some(r) => Some((r.start as int, r.end as int)),
                    None => None,
                },
            ),
    {
        let idx = match self.active {
            Some(i) => i,
            None => return,
        };
        let before = self.buffers[idx].text.clone();
        self.undo_snapshot = Some((self.sel, before));
        self.buffers[idx].text = new_text;
        self.preview_stale = true;
        self.focus_editor = true;
        if let Some(r) = new_sel {
            let t = self.buffers[idx].text.as_str();
            let b = t.as_bytes();
            let n = b.len();
            let s = if r.start < n { r.start } else { n };
            let e = if r.end < n { r.end } else { n };
            if is_boundary(b, s) && is_boundary(b, e) {
                let a = byte_to_char(t, s);
                let c = byte_to_char(t, e);
                self.sel = Some((a, c));
                self.pending_cursor = Some((if a < c { a } else { c }, if a < c { c } else { a }));
            }
        }
        proof {
            assert(final(self).buffers@ =~= old(self).buffers@.update(
                idx as int,
                Buffer { text: final(self).buffers@[idx as int].text, ..old(self).buffers@[idx as int] },
            ));
        }
    }

    /// Apply an edit's result: the new text and selection, or the refusal
    /// as a notice.
    fn apply_out(&mut self, out: Out, Ghost(x): Ghost<Outcome>)
        requires
            old(self).wf(),
            out_is(out, x),
        ensures
            final(self).wf(),
            outcome_applied(*old(self), *final(self), x),
    {
        match out {
            Out::Applied(op) => {
                self.set_text(op.new_text, Some(op.selection));
            },
            Out::Noop(msg) => {
                if self.active.is_some() {
                    self.toast = Some(text_of(msg));
                }
            },
        }
    }
}

/// An owned copy of `s`.
fn text_of(s: &str) -> (r: String)
    ensures
        r@ == s@,
{
    let mut r = String::new();
    string_push_str(&mut r, s);
    r
}

/// `n` is `o` after an edit command whose outcome is `x` (`None`: the
/// command cannot run here); without an active tab nothing changes.
pub open spec fn edited(o: Workbench, n: Workbench, x: Option<Outcome>) -> bool {
    if o.active is None {
        n == o
    } else {
        match x {
            None => n == o,
            Some(x) => outcome_applied(o, n, x),
        }
    }
}

/// Outcome of an inline delimiter command (`o` before, `c` after the
/// selection) in the active tab.
#[verifier::opaque]
pub open spec fn wrap_outcome(w: Workbench, o: Seq<u8>, c: Seq<u8>) -> Outcome {
    let t = w.active_text();
    spec_toggle_wrap(bytes_of(t), sel_lo(t, w.sel), sel_hi(t, w.sel), o, c)
}

/// Outcome of the inline-code command in the active tab.
#[verifier::opaque]
pub open spec fn code_outcome(w: Workbench) -> Outcome {
    let t = w.active_text();
    let b = bytes_of(t);
    let s = sel_lo(t, w.sel);
    let e = sel_hi(t, w.sel);
    if s < e && has_newline(b, s, e) {
        spec_code_fence(b, s, e)
    } else {
        spec_toggle_wrap(b, s, e, seq![96u8], seq![96u8])
    }
}

/// Removing task boxes on the lines touched by `[s, e)` cuts no character.
pub open spec fn task_safe(t: Seq<u8>, s: int, e: int) -> bool {
    let ls = touched(t, s, e);
    all_lines(t, ls, |c: Seq<u8>| task_or_blank(c)) ==> all_lines(t, ls, |c: Seq<u8>| task_box_safe(c))
}

/// Outcome of a line command in the active tab; `None` when removing a
/// task box would cut a character in two.
#[verifier::opaque]
pub open spec fn block_outcome(w: Workbench, b: BlockCmd) -> Option<Outcome> {
    let t = w.active_text();
    let bt = bytes_of(t);
    let s = sel_lo(t, w.sel);
    let e = sel_hi(t, w.sel);
    match b {
        BlockCmd::Heading(l) => Some(spec_toggle_heading(bt, s, e, l as int)),
        BlockCmd::Quote => Some(spec_toggle_blockquote(bt, s, e)),
        BlockCmd::Bullet => Some(spec_toggle_bullet(bt, s, e)),
        BlockCmd::Numbered => Some(spec_toggle_numbered(bt, s, e)),
        BlockCmd::Task => if task_safe(bt, s, e) {
            Some(spec_toggle_task(bt, s, e, false))
        } else {
            None
        },
    }
}

/// Outcome of a table command at the selection start; `None` when slicing
/// the caret's row would cut a character in two.
#[verifier::opaque]
pub open spec fn table_outcome(w: Workbench, op: TableCmd) -> Option<Outcome> {
    let t = w.active_text();
    let caret = sel_lo(t, w.sel);
    if at_safe(bytes_of(t), caret) {
        Some(spec_table_op(bytes_of(t), caret, op))
    } else {
        None
    }
}

impl Workbench {
    /// Wrap or unwrap the selection with a delimiter pair.
    fn toggle_pair(&mut self, open: &str, close: &str)
        requires
            old(self).wf(),
            old(self).fits(),
            bytes_of(open@).len() <= 2,
            bytes_of(close@).len() <= 2,
        ensures
            final(self).wf(),
            edited(*old(self), *final(self), Some(wrap_outcome(*old(self), bytes_of(open@), bytes_of(close@)))),
    {
        let sel = self.sel_bytes();
        let idx = match self.active {
            Some(i) => i,
            None => return,
        };
        let out = toggle_wrap(self.buffers[idx].text.as_str(), &sel, open, close);
        proof {
            reveal(wrap_outcome);
        }
        self.apply_out(out, Ghost(wrap_outcome(*old(self), bytes_of(open@), bytes_of(close@))));
    }

    /// The inline-code command: backticks around a single-line selection, a
    /// fenced block around a multi-line one.
    fn code_span_cmd(&mut self)
        requires
            old(self).wf(),
            old(self).fits(),
        ensures
            final(self).wf(),
            edited(*old(self), *final(self), Some(code_outcome(*old(self)))),
    {
        let sel = self.sel_bytes();
        let idx = match self.active {
            Some(i) => i,
            None => return,
        };
        let out = code_span(self.buffers[idx].text.as_str(), &sel);
        proof {
            reveal(code_outcome);
        }
        self.apply_out(out, Ghost(code_outcome(*old(self))));
    }

    /// A line command (heading, quote, lists, tasks) on the touched lines.
    pub fn block_cmd(&mut self, which: BlockCmd)
        requires
            old(self).wf(),
            which matches BlockCmd::Heading(l) ==> 1 <= l <= 6,
        ensures
            final(self).wf(),
            edited(*old(self), *final(self), block_outcome(*old(self), which)),
    {
        let sel = self.sel_bytes();
        let idx = match self.active {
            Some(i) => i,
            None => return,
        };
        let t = self.buffers[idx].text.as_str();
        proof {
            reveal(block_outcome);
        }
        let out = match which {
            BlockCmd::Heading(l) => toggle_heading(t, &sel, l),
            BlockCmd::Quote => toggle_blockquote(t, &sel),
            BlockCmd::Bullet => toggle_bullet_list(t, &sel),
            BlockCmd::Numbered => toggle_numbered_list(t, &sel),
            BlockCmd::Task => {
                if !task_toggle_safe(t, &sel) {
                    return;
                }
                toggle_task_list(t, &sel, false)
            },
        };
        self.apply_out(out, Ghost(block_outcome(*old(self), which)->0));
    }

    /// A row/column command on the table around the selection start.
    pub fn table_op(&mut self, cmd: TableCmd)
        requires
            old(self).wf(),
            old(self).fits(),
        ensures
            final(self).wf(),
            edited(*old(self), *final(self), table_outcome(*old(self), cmd)),
    {
        let caret = self.sel_bytes().start;
        let idx = match self.active {
            Some(i) => i,
            None => return,
        };
        let t = self.buffers[idx].text.as_str();
        proof {
            reveal(table_outcome);
        }
        if !table_caret_safe(t, caret) {
            return;
        }
        let out = table_op(t, caret, cmd);
        self.apply_out(out, Ghost(table_outcome(*old(self), cmd)->0));
    }
}

/// The matches of the find bar in the active tab (none without one).
pub open spec fn matches_in(w: Workbench, t: Seq<char>) -> Seq<(int, int)> {
    if w.active is Some { spec_matches(&w.find, t) } else { Seq::empty() }
}

/// `n` is `o` with the find bar's matches recomputed for the active text.
pub open spec fn refreshed(o: Workbench, n: Workbench) -> bool {
    &&& ranges_view(n.find_matches@) == matches_in(o, o.active_text())
    &&& n == Workbench { find_matches: n.find_matches, ..o }
}

/// Where "find next/previous" starts from: the selection's far end going
/// forward, its near end going back, the start without a selection.
pub open spec fn goto_anchor(sel: Option<(usize, usize)>, next: bool) -> int {
    match sel {
        Some((a, b)) => if next {
            if a < b { b as int } else { a as int }
        } else {
            if a < b { a as int } else { b as int }
        },
        None => 0,
    }
}

/// The byte range `m` indexes `t` on character boundaries.
pub open spec fn range_ok(t: Seq<u8>, m: (int, int)) -> bool {
    0 <= m.0 <= m.1 <= t.len() && boundary(t, m.0) && boundary(t, m.1)
}

impl Workbench {
    /// Recompute the find bar's matches for the active tab.
    pub fn find_refresh(&mut self)
        requires
            old(self).wf(),
        ensures
            final(self).wf(),
            refreshed(*old(self), *final(self)),
    {
        match self.active {
            Some(i) => {
                self.find_matches = self.find.matches(self.buffers[i].text.as_str());
            },
            None => {
                self.find_matches = Vec::new();
                assert(ranges_view(self.find_matches@) =~= Seq::<(int, int)>::empty());
            },
        }
    }

    /// What to do when the window regains focus and the file of tab `idx`
    /// may have changed on disk (`changed`): a tab with unsaved edits asks
    /// first (unless it was told to keep quiet once, or a dialog is already
    /// open), a clean tab is read again, and an unchanged one is left alone.
    pub fn disk_checked(&mut self, idx: usize, changed: bool) -> (r: Effect)
        requires
            old(self).wf(),
        ensures
            final(self).wf(),
            (!changed || idx >= old(self).buffers@.len()) ==> *final(self) == *old(self) && r == Effect::Nothing,
            changed && idx < old(self).buffers@.len() && old(self).buffers@[idx as int].text@
                != old(self).buffers@[idx as int].saved_text@
                && !old(self).buffers@[idx as int].suppress_external_change_once ==> r == Effect::Nothing
                && *final(self) == (if old(self).modal is None {
                Workbench { modal: Some(Modal::ExternalChanged { idx }), ..*old(self) }
            } else {
                *old(self)
            }),
            changed && idx < old(self).buffers@.len() && old(self).buffers@[idx as int].text@
                == old(self).buffers@[idx as int].saved_text@ ==> r == Effect::Reload(idx) && *final(self)
                == *old(self),
            changed && idx < old(self).buffers@.len() && old(self).buffers@[idx as int].text@
                != old(self).buffers@[idx as int].saved_text@
                && old(self).buffers@[idx as int].suppress_external_change_once ==> *final(self) == *old(self)
                && r == Effect::Nothing,
    {
        if !changed || idx >= self.buffers.len() {
            return Effect::Nothing;
        }
        if self.buffers[idx].is_dirty() {
            if !self.buffers[idx].suppress_external_change_once && self.modal.is_none() {
                self.modal = Some(Modal::ExternalChanged { idx });
            }
            Effect::Nothing
        } else {
            Effect::Reload(idx)
        }
    }

    /// Enter in the editor with an empty selection: continue the list item
    /// on the caret's line (or end the list on an empty item) through
    /// [`smart_enter`], as one undo step, and refresh the find bar's matches
    /// when it is open. `false` when Enter is left to the editor: no active
    /// tab, a selection, or no list item on the caret's line.
    pub fn enter(&mut self) -> (r: bool)
        requires
            old(self).wf(),
            2 * bytes_of(old(self).active_text()).len() + 32 <= isize::MAX,
        ensures
            final(self).wf(),
            ({
                let t = old(self).active_text();
                let s = sel_lo(t, old(self).sel);
                if old(self).active is Some && s == sel_hi(t, old(self).sel) && spec_smart_enter(bytes_of(t), s) is Some {
                    let (nt, c) = spec_smart_enter(bytes_of(t), s).unwrap();
                    &&& r
                    &&& text_set(
                        *old(self),
                        Workbench { find_matches: old(self).find_matches, ..*final(self) },
                        nt,
                        Some((c, c)),
                    )
                    &&& if old(self).find.open {
                        ranges_view(final(self).find_matches@) == spec_matches(&old(self).find, final(self).active_text())
                    } else {
                        final(self).find_matches == old(self).find_matches
                    }
                } else {
                    !r && *final(self) == *old(self)
                }
            }),
    {
        let sel = self.sel_bytes();
        let idx = match self.active {
            Some(i) => i,
            None => return false,
        };
        if sel.start != sel.end {
            return false;
        }
        proof {
            lemma_smart_enter_len(bytes_of(self.active_text()), sel.start as int);
        }
        let op = match smart_enter(self.buffers[idx].text.as_str(), sel.start) {
            Some(op) => op,
            None => return false,
        };
        self.set_text(op.new_text, Some(op.selection));
        if self.find.open {
            self.find_refresh();
        }
        true
    }

    /// Select the next (or previous) match, wrapping around; with no
    /// matches yet, only compute them.
    pub fn find_goto(&mut self, next: bool)
        requires
            old(self).wf(),
        ensures
            final(self).wf(),
            old(self).active is None ==> *final(self) == *old(self),
            old(self).active is Some && old(self).find_matches@.len() == 0 ==> refreshed(*old(self), *final(self)),
            old(self).active is Some && old(self).find_matches@.len() > 0 ==> {
                let ms = ranges_view(old(self).find_matches@);
                spec_goto(ms, goto_anchor(old(self).sel, next), next) matches Some(k) && text_set(
                    *old(self),
                    *final(self),
                    bytes_of(old(self).active_text()),
                    Some(ms[k]),
                )
            },
    {
        let idx = match self.active {
            Some(i) => i,
            None => return,
        };
        if self.find_matches.len() == 0 {
            self.find_refresh();
            return;
        }
        let anchor = match self.sel {
            Some((a, b)) => if next {
                if a < b { b } else { a }
            } else {
                if a < b { a } else { b }
            },
            None => 0,
        };
        let m = goto_match(self.find_matches.as_slice(), anchor, next);
        proof {
            let ms = ranges_view(old(self).find_matches@);
            if let Some(k) = spec_goto(ms, anchor as int, next) {
                assert(ms[k] == (old(self).find_matches@[k].start as int, old(self).find_matches@[k].end as int));
            }
        }
        match m {
            Some(r) => {
                let t = self.buffers[idx].text.clone();
                self.set_text(t, Some(r));
            },
            None => {},
        }
    }

    /// Replace every match as one edit and report how many were replaced;
    /// nothing when there are none, or when a match does not fall on
    /// character boundaries of the text.
    pub fn replace_all(&mut self)
        requires
            old(self).wf(),
        ensures
            final(self).wf(),
            ({
                let t = bytes_of(old(self).active_text());
                let ms = matches_in(*old(self), old(self).active_text());
                if old(self).active is Some && ranges_on_boundaries(t, ms) && ms.len() > 0 {
                    &&& text_set(
                        *old(self),
                        Workbench { find_matches: old(self).find_matches, toast: old(self).toast, ..*final(self) },
                        replace_ranges(t, ms, bytes_of(old(self).find.replace@), 0),
                        None,
                    )
                    &&& ranges_view(final(self).find_matches@) == spec_matches(&old(self).find, final(self).active_text())
                    &&& final(self).toast matches Some(m) && m@ == "Replaced "@ + decimal(ms.len()) + " occurrence(s)"@
                } else {
                    *final(self) == *old(self)
                }
            }),
    {
        let idx = match self.active {
            Some(i) => i,
            None => return,
        };
        let r = self.find.try_replace_all(self.buffers[idx].text.as_str());
        match r {
            Some((nt, n)) => {
                if n > 0 {
                    self.set_text(nt, None);
                    self.find_refresh();
                    let mut msg = text_of("Replaced ");
                    let d = u64_to_decimal(n as u64);
                    string_push_str(&mut msg, d.as_str());
                    string_push_str(&mut msg, " occurrence(s)");
                    self.toast = Some(msg);
                }
            },
            None => {},
        }
    }

    /// Replace the match at (or after) the selection start, wrapping to the
    /// first, and select the replacement; with no matches yet, only compute
    /// them. Nothing when that match does not fall on character boundaries of
    /// the text.
    pub fn replace_current(&mut self)
        requires
            old(self).wf(),
            old(self).fits(),
        ensures
            final(self).wf(),
            old(self).active is None ==> *final(self) == *old(self),
            old(self).active is Some && old(self).find_matches@.len() == 0 ==> refreshed(*old(self), *final(self)),
            old(self).active is Some && old(self).find_matches@.len() > 0 ==> {
                let t = bytes_of(old(self).active_text());
                let ms = ranges_view(old(self).find_matches@);
                let rep = bytes_of(old(self).find.replace@);
                spec_replace_target(ms, goto_anchor(old(self).sel, false)) matches Some(k) && if range_ok(t, ms[k]) {
                    &&& text_set(
                        *old(self),
                        Workbench { find_matches: old(self).find_matches, toast: old(self).toast, ..*final(self) },
                        t.subrange(0, ms[k].0) + rep + t.subrange(ms[k].1, t.len() as int),
                        Some((ms[k].0, ms[k].0 + rep.len())),
                    )
                    &&& ranges_view(final(self).find_matches@) == spec_matches(&old(self).find, final(self).active_text())
                    &&& final(self).toast matches Some(m) && m@ == "Replaced match"@
                } else {
                    *final(self) == *old(self)
                }
            },
    {
        let idx = match self.active {
            Some(i) => i,
            None => return,
        };
        if self.find_matches.len() == 0 {
            self.find_refresh();
            return;
        }
        let anchor = match self.sel {
            Some((a, b)) => if a < b { a } else { b },
            None => 0,
        };
        let target = replace_target(self.find_matches.as_slice(), anchor);
        proof {
            let ms = ranges_view(old(self).find_matches@);
            if let Some(k) = spec_replace_target(ms, anchor as int) {
                assert(ms[k] == (old(self).find_matches@[k].start as int, old(self).find_matches@[k].end as int));
            }
        }
        let m = match target {
            Some(m) => m,
            None => return,
        };
        let b = self.buffers[idx].text.as_str().as_bytes();
        if !(m.start <= m.end && m.end <= b.len() && is_boundary(b, m.start) && is_boundary(b, m.end)) {
            return;
        }
        let nt = Finder::replace_at(self.buffers[idx].text.as_str(), &m, self.find.replace.as_str());
        let rl = self.find.replace.as_str().as_bytes().len();
        let new_sel = m.start..(m.start + rl);
        self.set_text(nt, Some(new_sel));
        self.find_refresh();
        self.toast = Some(text_of("Replaced match"));
    }
}

/// `n` is `o` after the tab `i` was closed (or its close-dirty dialog
/// opened).
pub open spec fn tab_closed(o: Workbench, n: Workbench, i: usize) -> bool {
    if i >= o.buffers@.len() {
        n == o
    } else if o.buffers@[i as int].text@ == o.buffers@[i as int].saved_text@ {
        &&& n.buffers@ == o.buffers@.remove(i as int)
        &&& n == Workbench {
            buffers: n.buffers,
            active: spec_active_after_remove(o.active, i, (o.buffers@.len() - 1) as usize),
            preview_stale: true,
            ..o
        }
    } else {
        n == Workbench { modal: Some(Modal::CloseDirty { idx: i }), ..o }
    }
}

/// `n` is `o` after "find next" (or previous): the matches recomputed, then
/// the one after (or before) the selection selected.
pub open spec fn found(o: Workbench, n: Workbench, next: bool) -> bool {
    let t = o.active_text();
    let ms = matches_in(o, t);
    &&& ranges_view(n.find_matches@) == ms
    &&& if o.active is Some && ms.len() > 0 {
        spec_goto(ms, goto_anchor(o.sel, next), next) matches Some(k) && text_set(
            Workbench { find_matches: n.find_matches, ..o },
            n,
            bytes_of(t),
            Some(ms[k]),
        )
    } else {
        n == Workbench { find_matches: n.find_matches, ..o }
    }
}

/// `n` is `o` after "replace all".
pub open spec fn replaced_all(o: Workbench, n: Workbench) -> bool {
    let t = bytes_of(o.active_text());
    let ms = matches_in(o, o.active_text());
    if o.active is Some && ranges_on_boundaries(t, ms) && ms.len() > 0 {
        &&& text_set(
            o,
            Workbench { find_matches: o.find_matches, toast: o.toast, ..n },
            replace_ranges(t, ms, bytes_of(o.find.replace@), 0),
            None,
        )
        &&& ranges_view(n.find_matches@) == spec_matches(&o.find, n.active_text())
        &&& n.toast matches Some(m) && m@ == "Replaced "@ + decimal(ms.len()) + " occurrence(s)"@
    } else {
        n == o
    }
}

/// `n` is `o` after "replace".
pub open spec fn replaced_one(o: Workbench, n: Workbench) -> bool {
    if o.active is None {
        n == o
    } else if o.find_matches@.len() == 0 {
        refreshed(o, n)
    } else {
        let t = bytes_of(o.active_text());
        let ms = ranges_view(o.find_matches@);
        let rep = bytes_of(o.find.replace@);
        spec_replace_target(ms, goto_anchor(o.sel, false)) matches Some(k) && if range_ok(t, ms[k]) {
            &&& text_set(
                o,
                Workbench { find_matches: o.find_matches, toast: o.toast, ..n },
                t.subrange(0, ms[k].0) + rep + t.subrange(ms[k].1, t.len() as int),
                Some((ms[k].0, ms[k].0 + rep.len())),
            )
            &&& ranges_view(n.find_matches@) == spec_matches(&o.find, n.active_text())
            &&& n.toast matches Some(m) && m@ == "Replaced match"@
        } else {
            n == o
        }
    }
}

/// The outside work command `c` asks for.
pub open spec fn cmd_effect(o: Workbench, c: Cmd) -> Effect {
    match c {
        Cmd::Open => Effect::PickFiles,
        Cmd::OpenRecent(p) => Effect::Open(p),
        Cmd::Save => match o.active {
            Some(i) => if o.buffers@[i as int].path is Some { Effect::Save(i) } else { Effect::SaveAs(i) },
            None => Effect::Nothing,
        },
        Cmd::SaveAs => match o.active {
            Some(i) => Effect::SaveAs(i),
            None => Effect::Nothing,
        },
        Cmd::Quit => if dirty_indices(o.buffers@).len() == 0 { Effect::Exit } else { Effect::Nothing },
        Cmd::Image => Effect::PickImage,
        Cmd::Theme(m) => Effect::Theme(m),
        Cmd::ZoomIn => Effect::Zoom(Zoom::In),
        Cmd::ZoomOut => Effect::Zoom(Zoom::Out),
        Cmd::ZoomReset => Effect::Zoom(Zoom::Reset),
        Cmd::Wrap => Effect::Toggle(Setting::Wrap),
        Cmd::Numbers => Effect::Toggle(Setting::LineNumbers),
        Cmd::SyncScroll => Effect::Toggle(Setting::SyncScroll),
        Cmd::ToggleFps => Effect::Toggle(Setting::Fps),
        _ => Effect::Nothing,
    }
}

/// `n` is `o` after command `c`.
pub open spec fn cmd_done(o: Workbench, n: Workbench, c: Cmd) -> bool {
    let t = o.active_text();
    match c {
        Cmd::New => {
            &&& n.buffers@.len() == o.buffers@.len() + 1
            &&& n.buffers@.drop_last() == o.buffers@
            &&& fresh_untitled(n.buffers@.last(), o.next_id)
            &&& n == Workbench {
                buffers: n.buffers,
                active: Some(o.buffers@.len() as usize),
                next_id: (o.next_id + 1) as u64,
                mode: Mode::Edit,
                preview_stale: true,
                ..o
            }
        },
        Cmd::CloseTab => match o.active {
            Some(i) => tab_closed(o, n, i),
            None => n == o,
        },
        Cmd::Quit => if dirty_indices(o.buffers@).len() == 0 {
            n == o
        } else {
            &&& n.modal matches Some(Modal::QuitDirty { idxs }) && idxs@ == dirty_indices(o.buffers@)
            &&& n == Workbench { modal: n.modal, ..o }
        },
        Cmd::Mode(m) => n == Workbench { mode: m, preview_stale: true, ..o },
        Cmd::FindBar => if o.find.open {
            n == Workbench { find: Finder { open: false, ..o.find }, ..o }
        } else {
            refreshed(Workbench { find: Finder { open: true, ..o.find }, ..o }, n)
        },
        Cmd::FindNext => found(o, n, true),
        Cmd::FindPrev => found(o, n, false),
        Cmd::Replace => replaced_one(o, n),
        Cmd::ReplaceAll => replaced_all(o, n),
        Cmd::Bold => edited(o, n, Some(wrap_outcome(o, seq![42u8, 42u8], seq![42u8, 42u8]))),
        Cmd::Italic => edited(o, n, Some(wrap_outcome(o, seq![42u8], seq![42u8]))),
        Cmd::Strike => edited(o, n, Some(wrap_outcome(o, seq![126u8, 126u8], seq![126u8, 126u8]))),
        Cmd::CodeSpan => edited(o, n, Some(code_outcome(o))),
        Cmd::Heading(l) => edited(o, n, block_outcome(o, BlockCmd::Heading(l))),
        Cmd::Quote => edited(o, n, block_outcome(o, BlockCmd::Quote)),
        Cmd::Bullet => edited(o, n, block_outcome(o, BlockCmd::Bullet)),
        Cmd::Numbered => edited(o, n, block_outcome(o, BlockCmd::Numbered)),
        Cmd::Task => edited(o, n, block_outcome(o, BlockCmd::Task)),
        Cmd::Table => match o.active {
            Some(i) => n == Workbench { modal: Some(Modal::TablePicker { idx: i }), ..o },
            None => n == o,
        },
        Cmd::TableOp(op) => edited(o, n, table_outcome(o, op)),
        Cmd::Link => match o.active {
            Some(i) => {
                &&& bytes_of(n.link_text@) == bytes_of(t).subrange(sel_lo(t, o.sel), sel_hi(t, o.sel))
                &&& n.link_url@.len() == 0
                &&& n == Workbench {
                    link_text: n.link_text,
                    link_url: n.link_url,
                    modal: Some(Modal::InsertLink { idx: i }),
                    ..o
                }
            },
            None => n == o,
        },
        Cmd::GoToLine => {
            &&& n.goto@.len() == 0
            &&& n == Workbench {
                goto: n.goto,
                modal: Some(Modal::GoTo { idx: match o.active { Some(i) => i, None => 0 } }),
                ..o
            }
        },
        Cmd::About => n == Workbench { modal: Some(Modal::About), ..o },
        _ => n == o,
    }
}

impl Workbench {
    /// Tab and file commands.
    fn file_cmd(&mut self, c: Cmd) -> (r: Effect)
        requires
            old(self).wf(),
            old(self).fits(),
            c is New ==> old(self).next_id < u64::MAX,
            c matches Cmd::Heading(l) ==> 1 <= l <= 6,
            c is New || c is Open || c is OpenRecent || c is Save || c is SaveAs || c is CloseTab || c is Quit,
        ensures
            final(self).wf(),
            r == cmd_effect(*old(self), c),
            cmd_done(*old(self), *final(self), c),
    {
        match c {
            Cmd::New => {
                self.add_untitled();
                Effect::Nothing
            },
            Cmd::Open => Effect::PickFiles,
            Cmd::OpenRecent(p) => Effect::Open(p),
            Cmd::Save => match self.active {
                Some(i) => if self.buffers[i].path.is_some() { Effect::Save(i) } else { Effect::SaveAs(i) },
                None => Effect::Nothing,
            },
            Cmd::SaveAs => match self.active {
                Some(i) => Effect::SaveAs(i),
                None => Effect::Nothing,
            },
            Cmd::CloseTab => {
                if let Some(i) = self.active {
                    self.close_tab(i);
                }
                Effect::Nothing
            },
            Cmd::Quit => {
                let dirty = self.dirty_list();
                if dirty.len() == 0 {
                    Effect::Exit
                } else {
                    self.modal = Some(Modal::QuitDirty { idxs: dirty });
                    Effect::Nothing
                }
            },
            _ => Effect::Nothing,
        }
    }

    /// Find-bar commands.
    fn find_cmd(&mut self, c: Cmd) -> (r: Effect)
        requires
            old(self).wf(),
            old(self).fits(),
            c is New ==> old(self).next_id < u64::MAX,
            c matches Cmd::Heading(l) ==> 1 <= l <= 6,
            c is FindBar || c is FindNext || c is FindPrev || c is Replace || c is ReplaceAll,
        ensures
            final(self).wf(),
            r == cmd_effect(*old(self), c),
            cmd_done(*old(self), *final(self), c),
    {
        match c {
            Cmd::FindBar => {
                self.find.open = !self.find.open;
                if self.find.open {
                    self.find_refresh();
                }
                Effect::Nothing
            },
            Cmd::FindNext => {
                self.find_refresh();
                self.find_goto(true);
                Effect::Nothing
            },
            Cmd::FindPrev => {
                self.find_refresh();
                self.find_goto(false);
                Effect::Nothing
            },
            Cmd::Replace => {
                self.replace_current();
                Effect::Nothing
            },
            Cmd::ReplaceAll => {
                self.replace_all();
                Effect::Nothing
            },
            _ => Effect::Nothing,
        }
    }

    /// Inline formatting of the selection.
    fn inline_cmd(&mut self, c: Cmd) -> (r: Effect)
        requires
            old(self).wf(),
            old(self).fits(),
            c is New ==> old(self).next_id < u64::MAX,
            c matches Cmd::Heading(l) ==> 1 <= l <= 6,
            c is Bold || c is Italic || c is Strike || c is CodeSpan,
        ensures
            final(self).wf(),
            r == cmd_effect(*old(self), c),
            cmd_done(*old(self), *final(self), c),
    {
        match c {
            Cmd::Bold => {
                let b: &[u8] = &[42u8, 42u8];
                assert(b@ =~= seq![42u8, 42u8]);
                let d = ascii_string(b);
                self.toggle_pair(d.as_str(), d.as_str());
                Effect::Nothing
            },
            Cmd::Italic => {
                let b: &[u8] = &[42u8];
                assert(b@ =~= seq![42u8]);
                let d = ascii_string(b);
                self.toggle_pair(d.as_str(), d.as_str());
                Effect::Nothing
            },
            Cmd::Strike => {
                let b: &[u8] = &[126u8, 126u8];
                assert(b@ =~= seq![126u8, 126u8]);
                let d = ascii_string(b);
                self.toggle_pair(d.as_str(), d.as_str());
                Effect::Nothing
            },
            Cmd::CodeSpan => {
                self.code_span_cmd();
                Effect::Nothing
            },
            _ => Effect::Nothing,
        }
    }

    /// Line and table formatting commands.
    fn lines_cmd(&mut self, c: Cmd) -> (r: Effect)
        requires
            old(self).wf(),
            old(self).fits(),
            c is New ==> old(self).next_id < u64::MAX,
            c matches Cmd::Heading(l) ==> 1 <= l <= 6,
            c is Heading || c is Quote || c is Bullet || c is Numbered || c is Task || c is TableOp,
        ensures
            final(self).wf(),
            r == cmd_effect(*old(self), c),
            cmd_done(*old(self), *final(self), c),
    {
        match c {
            Cmd::Heading(l) => {
                self.block_cmd(BlockCmd::Heading(l));
                Effect::Nothing
            },
            Cmd::Quote => {
                self.block_cmd(BlockCmd::Quote);
                Effect::Nothing
            },
            Cmd::Bullet => {
                self.block_cmd(BlockCmd::Bullet);
                Effect::Nothing
            },
            Cmd::Numbered => {
                self.block_cmd(BlockCmd::Numbered);
                Effect::Nothing
            },
            Cmd::Task => {
                self.block_cmd(BlockCmd::Task);
                Effect::Nothing
            },
            Cmd::TableOp(op) => {
                self.table_op(op);
                Effect::Nothing
            },
            _ => Effect::Nothing,
        }
    }

    /// View, dialog and setting commands.
    fn other_cmd(&mut self, c: Cmd) -> (r: Effect)
        requires
            old(self).wf(),
            old(self).fits(),
            c is New ==> old(self).next_id < u64::MAX,
            c matches Cmd::Heading(l) ==> 1 <= l <= 6,
            c is Mode || c is Table || c is Link || c is Image || c is Theme || c is ZoomIn || c is ZoomOut || c is ZoomReset || c is Wrap || c is Numbers || c is SyncScroll || c is ToggleFps || c is GoToLine || c is About,
        ensures
            final(self).wf(),
            r == cmd_effect(*old(self), c),
            cmd_done(*old(self), *final(self), c),
    {
        match c {
            Cmd::Mode(m) => {
                self.mode = m;
                self.preview_stale = true;
                Effect::Nothing
            },
            Cmd::Table => {
                if let Some(i) = self.active {
                    self.modal = Some(Modal::TablePicker { idx: i });
                }
                Effect::Nothing
            },
            Cmd::Link => {
                if let Some(i) = self.active {
                    let r = self.sel_bytes();
                    let sub = str_range(self.buffers[i].text.as_str(), r.start, r.end);
                    self.link_text = text_of(sub);
                    self.link_url = String::new();
                    self.modal = Some(Modal::InsertLink { idx: i });
                }
                Effect::Nothing
            },
            Cmd::Image => Effect::PickImage,
            Cmd::Theme(m) => Effect::Theme(m),
            Cmd::ZoomIn => Effect::Zoom(Zoom::In),
            Cmd::ZoomOut => Effect::Zoom(Zoom::Out),
            Cmd::ZoomReset => Effect::Zoom(Zoom::Reset),
            Cmd::Wrap => Effect::Toggle(Setting::Wrap),
            Cmd::Numbers => Effect::Toggle(Setting::LineNumbers),
            Cmd::SyncScroll => Effect::Toggle(Setting::SyncScroll),
            Cmd::ToggleFps => Effect::Toggle(Setting::Fps),
            Cmd::GoToLine => {
                self.goto = String::new();
                self.modal = Some(Modal::GoTo { idx: match self.active { Some(i) => i, None => 0 } });
                Effect::Nothing
            },
            Cmd::About => {
                self.modal = Some(Modal::About);
                Effect::Nothing
            },
            _ => Effect::Nothing,
        }
    }

    /// Run a command: change the state as the command says and hand back the
    /// outside work it needs.
    pub fn apply_cmd(&mut self, c: Cmd) -> (r: Effect)
        requires
            old(self).wf(),
            old(self).fits(),
            c is New ==> old(self).next_id < u64::MAX,
            c matches Cmd::Heading(l) ==> 1 <= l <= 6,
        ensures
            final(self).wf(),
            r == cmd_effect(*old(self), c),
            cmd_done(*old(self), *final(self), c),
    {
        if matches!(c, Cmd::New | Cmd::Open | Cmd::OpenRecent(_) | Cmd::Save | Cmd::SaveAs | Cmd::CloseTab | Cmd::Quit) {
            self.file_cmd(c)
        } else if matches!(c, Cmd::FindBar | Cmd::FindNext | Cmd::FindPrev | Cmd::Replace | Cmd::ReplaceAll) {
            self.find_cmd(c)
        } else if matches!(c, Cmd::Bold | Cmd::Italic | Cmd::Strike | Cmd::CodeSpan) {
            self.inline_cmd(c)
        } else if matches!(c, Cmd::Heading(_) | Cmd::Quote | Cmd::Bullet | Cmd::Numbered | Cmd::Task | Cmd::TableOp(_)) {
            self.lines_cmd(c)
        } else {
            self.other_cmd(c)
        }
    }
}

/// Lossy text of a path.
/// Calls `Path::to_string_lossy`; how the platform encodes paths is not
/// modelled, so nothing is stated of the result.
#[verifier::external_body]
fn path_text(p: &PathBuf) -> String {
    p.to_string_lossy().into_owned()
}

/// The caret "Go to line" moves to for the typed `input`: the start of the
/// line it names (see [`goto_line_caret`]).
pub open spec fn line_caret(text: Seq<char>, input: Seq<char>) -> Option<usize> {
    match spec_parse_usize(trim_back(trim_front(input))) {
        Some(n) => Some(
            count_starts(
                bytes_of(text).subrange(0, nth_line_byte(bytes_of(text), if n > 0 { (n - 1) as nat } else { 0 })),
            ) as usize,
        ),
        None => None,
    }
}

/// `n` is `o` after the tab `idx` was dropped (when it exists).
pub open spec fn tab_removed(o: Workbench, n: Workbench, idx: usize) -> bool {
    if idx >= o.buffers@.len() {
        n == o
    } else {
        &&& n.buffers@ == o.buffers@.remove(idx as int)
        &&& n == Workbench {
            buffers: n.buffers,
            active: spec_active_after_remove(o.active, idx, (o.buffers@.len() - 1) as usize),
            preview_stale: true,
            ..o
        }
    }
}

/// Tabs, active tab and whether any tab went, after dropping the tabs
/// `idxs` one by one, each index shifted down by the tabs already dropped
/// (an index below that count is skipped).
pub open spec fn discarded(bs: Seq<Buffer>, active: Option<usize>, idxs: Seq<usize>) -> (Seq<Buffer>, Option<usize>, bool)
    decreases idxs.len(),
{
    if idxs.len() == 0 {
        (bs, active, false)
    } else {
        let st = discarded(bs, active, idxs.drop_last());
        let j = idxs.len() - 1;
        let i = idxs[j] - j;
        if idxs[j] >= j && i < st.0.len() {
            (st.0.remove(i), spec_active_after_remove(st.1, i as usize, (st.0.len() - 1) as usize), true)
        } else {
            st
        }
    }
}

/// Where an insertion goes: the selection start in the active tab.
pub open spec fn caret_of(w: Workbench) -> int {
    sel_lo(w.active_text(), w.sel)
}

/// `n` is `o` after the markup `m` was inserted at the caret and `(s, e)`
/// past the caret selected.
pub open spec fn inserted(o: Workbench, n: Workbench, m: Seq<u8>, s: int, e: int) -> bool {
    let t = bytes_of(o.active_text());
    let c = caret_of(o);
    text_set(o, n, t.subrange(0, c) + m + t.subrange(c, t.len() as int), Some((c + s, c + e)))
}

/// `n` is `o` after `![](u)` was inserted at the caret, when it fits.
pub open spec fn image_inserted(o: Workbench, n: Workbench, u: Seq<char>) -> bool {
    if bytes_of(o.active_text()).len() + bytes_of(u).len() + 7 <= isize::MAX {
        inserted(o, n, bytes_of(image_markup(Seq::empty(), u)), 2, 2)
    } else {
        n == o
    }
}

/// The restored tab `b` holds the recovery copy `it` and is numbered `id`.
pub open spec fn recovered(b: Buffer, it: (String, Option<PathBuf>, String), id: int) -> bool {
    &&& b.id == id
    &&& b.title_override == Some(it.0)
    &&& b.path == it.1
    &&& b.text == it.2
    &&& b.saved_text@.len() == 0
    &&& b.encoding == Encoding::Utf8
    &&& !b.read_only
    &&& !b.missing_on_disk
    &&& b.disk_stamp is None
    &&& !b.suppress_external_change_once
}

/// `r` is the effect `e`, lists compared by their contents.
pub open spec fn same_effect(r: Effect, e: Effect) -> bool {
    match (r, e) {
        (Effect::SaveAll(a), Effect::SaveAll(b)) => a@ == b@,
        _ => r == e,
    }
}

/// The outside work answering the dialog in front with `a` asks for.
pub open spec fn answer_effect(o: Workbench, a: Answer) -> Effect {
    match o.modal {
        Some(Modal::CloseDirty { idx }) => if a == Answer::Confirm {
            if idx < o.buffers@.len() && o.buffers@[idx as int].path is Some {
                Effect::Save(idx)
            } else {
                Effect::SaveAs(idx)
            }
        } else {
            Effect::Nothing
        },
        Some(Modal::QuitDirty { idxs }) => match a {
            Answer::Confirm => Effect::SaveAll(idxs),
            Answer::Alternate => Effect::Exit,
            Answer::Cancel => Effect::Nothing,
        },
        Some(Modal::ExternalChanged { idx }) => if a == Answer::Confirm {
            Effect::Reload(idx)
        } else {
            Effect::Nothing
        },
        Some(Modal::Recovery { items }) => if a == Answer::Cancel {
            Effect::Nothing
        } else {
            Effect::ClearRecovery
        },
        _ => Effect::Nothing,
    }
}

/// `n` is `o` after the dialog in front was answered with `a`.
pub open spec fn answered(o: Workbench, n: Workbench, a: Answer) -> bool {
    let closed = Workbench { modal: None, ..o };
    match o.modal {
        None => n == o,
        Some(Modal::About) => n == closed,
        Some(Modal::GoTo { idx }) => match a {
            Answer::Confirm => match line_caret(o.active_text(), o.goto@) {
                Some(c) => n == Workbench { sel: Some((c, c)), pending_cursor: Some((c, c)), ..closed },
                None => n == closed,
            },
            Answer::Alternate => n == o,
            Answer::Cancel => n == closed,
        },
        Some(Modal::CloseDirty { idx }) => match a {
            Answer::Confirm => n == o,
            Answer::Alternate => tab_removed(closed, n, idx),
            Answer::Cancel => n == closed,
        },
        Some(Modal::QuitDirty { idxs }) => match a {
            Answer::Confirm => n == o,
            Answer::Alternate => {
                let st = discarded(o.buffers@, o.active, idxs@);
                &&& n.buffers@ == st.0
                &&& n == Workbench {
                    buffers: n.buffers,
                    active: st.1,
                    preview_stale: o.preview_stale || st.2,
                    ..closed
                }
            },
            Answer::Cancel => n == closed,
        },
        Some(Modal::ExternalChanged { idx }) => match a {
            Answer::Alternate => if idx < o.buffers@.len() {
                &&& n.buffers@ == o.buffers@.update(
                    idx as int,
                    Buffer { suppress_external_change_once: true, ..o.buffers@[idx as int] },
                )
                &&& n == Workbench { buffers: n.buffers, ..closed }
            } else {
                n == closed
            },
            _ => n == closed,
        },
        Some(Modal::InsertLink { idx }) => match a {
            Answer::Confirm => {
                let t = bytes_of(o.active_text());
                let d = bytes_of(o.link_text@);
                let u = bytes_of(o.link_url@);
                &&& n.link_text@.len() == 0
                &&& n.link_url@.len() == 0
                &&& if t.len() + d.len() + u.len() + 4 <= isize::MAX {
                    inserted(
                        closed,
                        Workbench { link_text: o.link_text, link_url: o.link_url, ..n },
                        link_markup(d, u),
                        1,
                        1 + bytes_of(o.link_text@).len() as int,
                    )
                } else {
                    n == Workbench { link_text: n.link_text, link_url: n.link_url, ..closed }
                }
            },
            Answer::Alternate => n == o,
            Answer::Cancel => {
                &&& n.link_text@.len() == 0
                &&& n.link_url@.len() == 0
                &&& n == Workbench { link_text: n.link_text, link_url: n.link_url, ..closed }
            },
        },
        Some(Modal::InsertImage { idx, path }) => match a {
            Answer::Confirm => exists|u: Seq<char>| image_inserted(closed, n, u),
            Answer::Alternate => n == o,
            Answer::Cancel => n == closed,
        },
        Some(Modal::TablePicker { idx }) => match a {
            Answer::Confirm => {
                let m = bytes_of(new_table(o.rows as int, o.cols as int));
                if bytes_of(o.active_text()).len() + m.len() <= isize::MAX {
                    inserted(closed, n, m, first_body_cell(m), first_body_cell(m))
                } else {
                    n == closed
                }
            },
            Answer::Alternate => n == o,
            Answer::Cancel => n == closed,
        },
        Some(Modal::Recovery { items }) => match a {
            Answer::Confirm => {
                let k = o.buffers@.len();
                let m = items@.len();
                &&& n.buffers@.len() == k + m
                &&& n.buffers@.take(k as int) == o.buffers@
                &&& forall|j: int| 0 <= j < m ==> recovered(#[trigger] n.buffers@[k + j], items@[j], o.next_id + j)
                &&& n == Workbench {
                    buffers: n.buffers,
                    next_id: (o.next_id + m) as u64,
                    active: if k + m > 0 { Some((k + m - 1) as usize) } else { o.active },
                    ..closed
                }
            },
            Answer::Alternate => n == closed,
            Answer::Cancel => n == o,
        },
    }
}

impl Workbench {
    /// Answer the dialog in front (nothing without one) and hand back the
    /// outside work the answer needs.
    pub fn answer(&mut self, a: Answer) -> (r: Effect)
        requires
            old(self).wf(),
            old(self).fits(),
            old(self).modal matches Some(Modal::Recovery { items }) ==> old(self).next_id + items@.len() < u64::MAX,
        ensures
            final(self).wf(),
            same_effect(r, answer_effect(*old(self), a)),
            answered(*old(self), *final(self), a),
    {
        let m = self.modal.take();
        match m {
            None => Effect::Nothing,
            Some(Modal::About) => Effect::Nothing,
            Some(Modal::GoTo { idx }) => {
                match a {
                    Answer::Confirm => {
                        let c = match self.active {
                            Some(i) => goto_line_caret(self.buffers[i].text.as_str(), self.goto.as_str()),
                            None => {
                                let e = String::new();
                                goto_line_caret(e.as_str(), self.goto.as_str())
                            },
                        };
                        if let Some(c) = c {
                            self.sel = Some((c, c));
                            self.pending_cursor = Some((c, c));
                        }
                    },
                    Answer::Alternate => {
                        self.modal = Some(Modal::GoTo { idx });
                    },
                    Answer::Cancel => {},
                }
                Effect::Nothing
            },
            Some(Modal::CloseDirty { idx }) => {
                match a {
                    Answer::Confirm => {
                        self.modal = Some(Modal::CloseDirty { idx });
                        if idx < self.buffers.len() && self.buffers[idx].path.is_some() {
                            Effect::Save(idx)
                        } else {
                            Effect::SaveAs(idx)
                        }
                    },
                    Answer::Alternate => {
                        self.remove_at(idx);
                        Effect::Nothing
                    },
                    Answer::Cancel => Effect::Nothing,
                }
            },
            Some(Modal::QuitDirty { idxs }) => {
                match a {
                    Answer::Confirm => {
                        let all = vec_copy(&idxs);
                        self.modal = Some(Modal::QuitDirty { idxs });
                        Effect::SaveAll(all)
                    },
                    Answer::Alternate => {
                        self.discard_all(&idxs);
                        Effect::Exit
                    },
                    Answer::Cancel => Effect::Nothing,
                }
            },
            Some(Modal::ExternalChanged { idx }) => {
                match a {
                    Answer::Confirm => Effect::Reload(idx),
                    Answer::Alternate => {
                        if idx < self.buffers.len() {
                            self.buffers[idx].suppress_external_change_once = true;
                        }
                        Effect::Nothing
                    },
                    Answer::Cancel => Effect::Nothing,
                }
            },
            Some(Modal::InsertLink { idx }) => {
                match a {
                    Answer::Confirm => {
                        self.insert_link_here();
                        self.link_text = String::new();
                        self.link_url = String::new();
                    },
                    Answer::Alternate => {
                        self.modal = Some(Modal::InsertLink { idx });
                    },
                    Answer::Cancel => {
                        self.link_text = String::new();
                        self.link_url = String::new();
                    },
                }
                Effect::Nothing
            },
            Some(Modal::InsertImage { idx, path }) => {
                match a {
                    Answer::Confirm => {
                        let url = path_text(&path);
                        self.insert_image_url(url.as_str());
                        assert(image_inserted(Workbench { modal: None, ..*old(self) }, *self, url@));
                    },
                    Answer::Alternate => {
                        self.modal = Some(Modal::InsertImage { idx, path });
                    },
                    Answer::Cancel => {},
                }
                Effect::Nothing
            },
            Some(Modal::TablePicker { idx }) => {
                match a {
                    Answer::Confirm => {
                        self.insert_table_here();
                    },
                    Answer::Alternate => {
                        self.modal = Some(Modal::TablePicker { idx });
                    },
                    Answer::Cancel => {},
                }
                Effect::Nothing
            },
            Some(Modal::Recovery { items }) => {
                match a {
                    Answer::Confirm => {
                        self.restore(items);
                        Effect::ClearRecovery
                    },
                    Answer::Alternate => Effect::ClearRecovery,
                    Answer::Cancel => {
                        self.modal = Some(Modal::Recovery { items });
                        Effect::Nothing
                    },
                }
            },
        }
    }

    /// Drop the tabs `idxs` one by one (see [`discarded`]).
    fn discard_all(&mut self, idxs: &Vec<usize>)
        requires
            old(self).wf(),
        ensures
            final(self).wf(),
            ({
                let st = discarded(old(self).buffers@, old(self).active, idxs@);
                &&& final(self).buffers@ == st.0
                &&& *final(self) == Workbench {
                    buffers: final(self).buffers,
                    active: st.1,
                    preview_stale: old(self).preview_stale || st.2,
                    ..*old(self)
                }
            }),
    {
        let mut k: usize = 0;
        while k < idxs.len()
            invariant
                k <= idxs@.len(),
                self.wf(),
                ({
                    let st = discarded(old(self).buffers@, old(self).active, idxs@.take(k as int));
                    &&& self.buffers@ == st.0
                    &&& *self == Workbench {
                        buffers: self.buffers,
                        active: st.1,
                        preview_stale: old(self).preview_stale || st.2,
                        ..*old(self)
                    }
                }),
            decreases idxs@.len() - k,
        {
            assert(idxs@.take(k + 1).drop_last() =~= idxs@.take(k as int));
            let i = idxs[k];
            if i >= k {
                self.remove_at(i - k);
            }
            k = k + 1;
        }
        assert(idxs@.take(k as int) =~= idxs@);
    }

    /// Insert `[link text](url)` from the link dialog at the caret.
    fn insert_link_here(&mut self)
        requires
            old(self).wf(),
            old(self).fits(),
        ensures
            final(self).wf(),
            ({
                let t = bytes_of(old(self).active_text());
                let d = bytes_of(old(self).link_text@);
                let u = bytes_of(old(self).link_url@);
                if t.len() + d.len() + u.len() + 4 <= isize::MAX {
                    inserted(
                        *old(self),
                        *final(self),
                        link_markup(d, u),
                        1,
                        1 + bytes_of(old(self).link_text@).len() as int,
                    )
                } else {
                    *final(self) == *old(self)
                }
            }),
    {
        let caret = self.sel_bytes().start;
        let idx = match self.active {
            Some(i) => i,
            None => return,
        };
        let t = self.buffers[idx].text.as_str();
        let room = (isize::MAX as usize) - t.as_bytes().len();
        let need = self.link_text.as_str().as_bytes().len() + self.link_url.as_str().as_bytes().len();
        if need > room || room - need < 4 {
            return;
        }
        let op = insert_link(t, caret, self.link_text.as_str(), self.link_url.as_str());
        self.set_text(op.new_text, Some(op.selection));
    }

    /// Insert `![](url)` at the caret (the image picked for the active tab).
    pub fn insert_image_url(&mut self, url: &str)
        requires
            old(self).wf(),
            old(self).fits(),
        ensures
            final(self).wf(),
            image_inserted(*old(self), *final(self), url@),
    {
        let caret = self.sel_bytes().start;
        let idx = match self.active {
            Some(i) => i,
            None => return,
        };
        let t = self.buffers[idx].text.as_str();
        let room = (isize::MAX as usize) - t.as_bytes().len();
        let ul = url.as_bytes().len();
        if ul > room || room - ul < 7 {
            return;
        }
        proof {
            lemma_image_markup_len(url@);
            assert(Seq::<char>::empty().len() == 0);
        }
        let alt = String::new();
        let op = insert_image(t, caret, alt.as_str(), url);
        self.set_text(op.new_text, Some(op.selection));
    }

    /// Insert the table sized in the table dialog at the caret.
    fn insert_table_here(&mut self)
        requires
            old(self).wf(),
            old(self).fits(),
        ensures
            final(self).wf(),
            ({
                let m = bytes_of(new_table(old(self).rows as int, old(self).cols as int));
                if bytes_of(old(self).active_text()).len() + m.len() <= isize::MAX {
                    inserted(*old(self), *final(self), m, first_body_cell(m), first_body_cell(m))
                } else {
                    *final(self) == *old(self)
                }
            }),
    {
        let caret = self.sel_bytes().start;
        let tbl = new_table_text(self.rows, self.cols);
        let idx = match self.active {
            Some(i) => i,
            None => return,
        };
        let t = self.buffers[idx].text.as_str();
        let room = (isize::MAX as usize) - t.as_bytes().len();
        if tbl.as_str().as_bytes().len() > room {
            return;
        }
        let op = insert_table(t, caret, self.rows, self.cols);
        self.set_text(op.new_text, Some(op.selection));
    }

    /// Reopen the recovery copies as new tabs and activate the last one.
    fn restore(&mut self, items: Vec<(String, Option<PathBuf>, String)>)
        requires
            old(self).wf(),
            old(self).next_id + items@.len() < u64::MAX,
        ensures
            final(self).wf(),
            ({
                let k = old(self).buffers@.len();
                let m = items@.len();
                &&& final(self).buffers@.len() == k + m
                &&& final(self).buffers@.take(k as int) == old(self).buffers@
                &&& forall|j: int| 0 <= j < m ==> recovered(#[trigger] final(self).buffers@[k + j], items@[j], old(self).next_id + j)
                &&& *final(self) == Workbench {
                    buffers: final(self).buffers,
                    next_id: (old(self).next_id + m) as u64,
                    active: if k + m > 0 { Some((k + m - 1) as usize) } else { old(self).active },
                    ..*old(self)
                }
            }),
    {
        let ghost k = old(self).buffers@.len();
        let ghost all = items@;
        let n0 = items.len();
        assert(all.len() == n0);
        let mut items = items;
        let mut j: usize = 0;
        while items.len() > 0
            invariant
                j + items@.len() == all.len(),
                all.len() <= usize::MAX,
                items@ == all.skip(j as int),
                self.buffers@.len() == k + j,
                self.buffers@.take(k as int) == old(self).buffers@,
                forall|q: int| 0 <= q < j ==> recovered(#[trigger] self.buffers@[k + q], all[q], old(self).next_id + q),
                old(self).next_id + all.len() < u64::MAX,
                *self == (Workbench { buffers: self.buffers, next_id: (old(self).next_id + j) as u64, ..*old(self) }),
            decreases items@.len(),
        {
            let (title, path, text) = items.remove(0);
            assert(all[j as int] == (title, path, text));
            let id = self.next_id;
            self.next_id = self.next_id + 1;
            let mut b = Buffer::untitled(id);
            b.title_override = Some(title);
            b.path = path;
            b.text = text;
            let ghost before = self.buffers@;
            self.buffers.push(b);
            proof {
                assert(self.buffers@.take(k as int) =~= before.take(k as int));
                assert forall|q: int| 0 <= q < j + 1 implies recovered(#[trigger] self.buffers@[k + q], all[q], old(self).next_id + q) by {
                    if q < j {
                        assert(self.buffers@[k + q] == before[k + q]);
                    }
                }
                assert(items@ =~= all.skip(j + 1));
            }
            j = j + 1;
        }
        if self.buffers.len() > 0 {
            self.active = Some(self.buffers.len() - 1);
        }
    }
}

fn vec_copy(v: &Vec<usize>) -> (r: Vec<usize>)
    ensures
        r@ == v@,
{
    let mut r: Vec<usize> = Vec::new();
    let mut i: usize = 0;
    while i < v.len()
        invariant
            i <= v@.len(),
            r@ == v@.take(i as int),
        decreases v@.len() - i,
    {
        r.push(v[i]);
        i = i + 1;
        assert(r@ =~= v@.take(i as int));
    }
    assert(v@.take(i as int) =~= v@);
    r
}

/// `n` is `o` with tab `idx` now `b` and a notice.
pub open spec fn tab_changed(o: Workbench, n: Workbench, idx: usize, b: Buffer) -> bool {
    &&& n.buffers@ == o.buffers@.update(idx as int, b)
    &&& n.toast is Some
    &&& n == Workbench { buffers: n.buffers, toast: n.toast, ..o }
}

impl Workbench {
    /// The tab's file was written (`stamp`: what the disk says now): its text
    /// is the saved one, and a notice says so.
    pub fn saved(&mut self, idx: usize, stamp: Option<DiskStamp>)
        requires
            old(self).wf(),
        ensures
            final(self).wf(),
            idx >= old(self).buffers@.len() ==> *final(self) == *old(self),
            idx < old(self).buffers@.len() ==> {
                let b = old(self).buffers@[idx as int];
                let nb = final(self).buffers@[idx as int];
                &&& tab_changed(*old(self), *final(self), idx, nb)
                &&& nb == Buffer {
                    saved_text: nb.saved_text,
                    suppress_external_change_once: false,
                    disk_stamp: nb.disk_stamp,
                    missing_on_disk: nb.missing_on_disk,
                    ..b
                }
                &&& nb.saved_text@ == b.text@
                &&& (b.path is Some && stamp is Some ==> nb.disk_stamp == stamp && !nb.missing_on_disk)
                &&& (!(b.path is Some && stamp is Some) ==> nb.disk_stamp == b.disk_stamp
                    && nb.missing_on_disk == b.missing_on_disk)
                &&& final(self).toast matches Some(m) && {
                    &&& b.title_override matches Some(t) ==> m@ == "Saved "@ + t@
                    &&& b.title_override is None && b.path is None ==> m@ == "Saved "@ + untitled_name(b.id)
                }
            },
    {
        if idx >= self.buffers.len() {
            return;
        }
        self.buffers[idx].mark_saved(stamp);
        let title = self.buffers[idx].title();
        let mut msg = text_of("Saved ");
        string_push_str(&mut msg, title.as_str());
        self.toast = Some(msg);
        proof {
            assert(final(self).buffers@ =~= old(self).buffers@.update(idx as int, final(self).buffers@[idx as int]));
        }
    }

    /// A file name was chosen for tab `idx` ("Save As"): the tab now belongs
    /// to it, and it is to be written.
    pub fn path_chosen(&mut self, idx: usize, path: PathBuf) -> (r: Effect)
        requires
            old(self).wf(),
        ensures
            final(self).wf(),
            idx >= old(self).buffers@.len() ==> *final(self) == *old(self) && r == Effect::Nothing,
            idx < old(self).buffers@.len() ==> {
                &&& r == Effect::Save(idx)
                &&& final(self).buffers@ == old(self).buffers@.update(
                    idx as int,
                    Buffer { path: Some(path), missing_on_disk: false, ..old(self).buffers@[idx as int] },
                )
                &&& *final(self) == Workbench { buffers: final(self).buffers, ..*old(self) }
            },
    {
        if idx >= self.buffers.len() {
            return Effect::Nothing;
        }
        self.buffers[idx].path = Some(path);
        self.buffers[idx].missing_on_disk = false;
        proof {
            assert(final(self).buffers@ =~= old(self).buffers@.update(
                idx as int,
                Buffer { path: Some(path), missing_on_disk: false, ..old(self).buffers@[idx as int] },
            ));
        }
        Effect::Save(idx)
    }

    /// The save asked for by the close-dirty dialog ended: saved, the tab
    /// closes; not saved because no file name was chosen, the dialog goes
    /// and the tab stays; failed, the dialog stays.
    pub fn close_saved(&mut self, res: SaveResult)
        requires
            old(self).wf(),
        ensures
            final(self).wf(),
            match old(self).modal {
                Some(Modal::CloseDirty { idx }) => match res {
                    SaveResult::Saved => tab_removed(Workbench { modal: None, ..*old(self) }, *final(self), idx),
                    SaveResult::Cancelled => *final(self) == Workbench { modal: None, ..*old(self) },
                    SaveResult::Failed => *final(self) == *old(self),
                },
                _ => *final(self) == *old(self),
            },
    {
        let m = self.modal.take();
        match m {
            Some(Modal::CloseDirty { idx }) => match res {
                SaveResult::Saved => {
                    self.remove_at(idx);
                },
                SaveResult::Cancelled => {},
                SaveResult::Failed => {
                    self.modal = Some(Modal::CloseDirty { idx });
                },
            },
            other => {
                self.modal = other;
            },
        }
    }

    /// The saves asked for by the quit dialog ended: all saved, the window
    /// closes; otherwise the dialog lists the tabs still unsaved.
    pub fn quit_saved(&mut self, all_saved: bool) -> (r: Effect)
        requires
            old(self).wf(),
        ensures
            final(self).wf(),
            old(self).modal matches Some(Modal::QuitDirty { .. }) ==> if all_saved {
                r == Effect::Exit && *final(self) == Workbench { modal: None, ..*old(self) }
            } else {
                &&& r == Effect::Nothing
                &&& final(self).modal matches Some(Modal::QuitDirty { idxs }) && idxs@ == dirty_indices(old(self).buffers@)
                &&& *final(self) == Workbench { modal: final(self).modal, ..*old(self) }
            },
            !(old(self).modal matches Some(Modal::QuitDirty { .. })) ==> r == Effect::Nothing && *final(self)
                == *old(self),
    {
        match &self.modal {
            Some(Modal::QuitDirty { .. }) => {},
            _ => return Effect::Nothing,
        }
        if all_saved {
            self.modal = None;
            Effect::Exit
        } else {
            let d = self.dirty_list();
            self.modal = Some(Modal::QuitDirty { idxs: d });
            Effect::Nothing
        }
    }

    /// A file was read: it opens in a new, active tab (the title marked as
    /// repaired when the text had to be decoded lossily).
    pub fn opened(&mut self, path: &Path, text: String, encoding: Encoding, read_only: bool, stamp: DiskStamp)
        requires
            old(self).wf(),
            old(self).next_id < u64::MAX,
        ensures
            final(self).wf(),
            final(self).buffers@.len() == old(self).buffers@.len() + 1,
            final(self).buffers@.drop_last() == old(self).buffers@,
            ({
                let b = final(self).buffers@.last();
                &&& b.id == old(self).next_id
                &&& b.path is Some
                &&& b.eol == spec_detect(text@)
                &&& b.text@ == normalize_crlf(text@)
                &&& b.saved_text@ == b.text@
                &&& b.encoding == encoding
                &&& b.read_only == read_only
                &&& !b.missing_on_disk
                &&& b.disk_stamp == Some(stamp)
                &&& !b.suppress_external_change_once
                &&& (encoding == Encoding::Lossy ==> (b.title_override matches Some(t) && " (repaired)"@.is_suffix_of(t@)))
                &&& (encoding != Encoding::Lossy ==> b.title_override is None)
            }),
            *final(self) == (Workbench {
                buffers: final(self).buffers,
                active: Some(old(self).buffers@.len() as usize),
                next_id: (old(self).next_id + 1) as u64,
                preview_stale: true,
                ..*old(self)
            }),
    {
        let id = self.next_id;
        self.next_id = self.next_id + 1;
        let mut b = Buffer::from_disk(id, path, text, encoding, read_only, stamp);
        if encoding == Encoding::Lossy {
            let mut t = b.title();
            let ghost t0 = t@;
            string_push_str(&mut t, " (repaired)");
            assert(t@.subrange(t0.len() as int, t@.len() as int) =~= " (repaired)"@);
            b.title_override = Some(t);
        }
        self.buffers.push(b);
        self.active = Some(self.buffers.len() - 1);
        self.preview_stale = true;
        assert(final(self).buffers@.drop_last() =~= old(self).buffers@);
    }

    /// Make the open tab `idx` active (nothing when there is none).
    pub fn show_tab(&mut self, idx: usize)
        requires
            old(self).wf(),
        ensures
            final(self).wf(),
            idx < old(self).buffers@.len() ==> *final(self) == (Workbench { active: Some(idx), ..*old(self) }),
            idx >= old(self).buffers@.len() ==> *final(self) == *old(self),
    {
        if idx < self.buffers.len() {
            self.active = Some(idx);
        }
    }

    /// The tab's file was read again: the tab holds what it says now, with
    /// no unsaved edits.
    pub fn reloaded(&mut self, idx: usize, text: String, encoding: Encoding, read_only: bool, stamp: DiskStamp)
        requires
            old(self).wf(),
        ensures
            final(self).wf(),
            idx < old(self).buffers@.len() && old(self).buffers@[idx as int].path is Some ==> {
                let nb = final(self).buffers@[idx as int];
                &&& nb.text@ == normalize_crlf(text@)
                &&& nb == Buffer {
                    text: nb.text,
                    saved_text: nb.text,
                    encoding,
                    read_only,
                    disk_stamp: Some(stamp),
                    missing_on_disk: false,
                    ..old(self).buffers@[idx as int]
                }
                &&& tab_changed(
                    Workbench { preview_stale: true, ..*old(self) },
                    *final(self),
                    idx,
                    nb,
                )
            },
            !(idx < old(self).buffers@.len() && old(self).buffers@[idx as int].path is Some) ==> *final(self)
                == *old(self),
    {
        if idx >= self.buffers.len() {
            return;
        }
        let msg = match &self.buffers[idx].path {
            Some(p) => {
                let mut m = text_of("Reloaded ");
                let d = path_display(p);
                string_push_str(&mut m, d.as_str());
                m
            },
            None => return,
        };
        let t = normalize_crlf_string(text.as_str());
        let t2 = t.clone();
        self.buffers[idx].text = t;
        self.buffers[idx].saved_text = t2;
        self.buffers[idx].encoding = encoding;
        self.buffers[idx].read_only = read_only;
        self.buffers[idx].disk_stamp = Some(stamp);
        self.buffers[idx].missing_on_disk = false;
        self.toast = Some(msg);
        self.preview_stale = true;
        proof {
            assert(final(self).buffers@ =~= old(self).buffers@.update(idx as int, final(self).buffers@[idx as int]));
        }
    }

    /// The tab's file could not be read again: it is marked missing.
    pub fn reload_missing(&mut self, idx: usize)
        requires
            old(self).wf(),
        ensures
            final(self).wf(),
            idx < old(self).buffers@.len() ==> {
                &&& final(self).buffers@ == old(self).buffers@.update(
                    idx as int,
                    Buffer { missing_on_disk: true, ..old(self).buffers@[idx as int] },
                )
                &&& *final(self) == Workbench { buffers: final(self).buffers, ..*old(self) }
            },
            idx >= old(self).buffers@.len() ==> *final(self) == *old(self),
    {
        if idx < self.buffers.len() {
            self.buffers[idx].missing_on_disk = true;
            proof {
                assert(final(self).buffers@ =~= old(self).buffers@.update(
                    idx as int,
                    Buffer { missing_on_disk: true, ..old(self).buffers@[idx as int] },
                ));
            }
        }
    }
}

/// The command a frame's keys give, the first that applies in this order;
/// none while a dialog is open.
pub open spec fn spec_shortcut(dialog_open: bool, k: Keys) -> Option<Cmd> {
    let c = k.command;
    if dialog_open {
        None
    } else if c && k.s && !k.shift {
        Some(Cmd::Save)
    } else if c && k.shift && k.s {
        Some(Cmd::SaveAs)
    } else if c && k.o {
        Some(Cmd::Open)
    } else if c && k.n {
        Some(Cmd::New)
    } else if c && k.w {
        if k.shift { Some(Cmd::Quit) } else { Some(Cmd::CloseTab) }
    } else if c && k.f {
        Some(Cmd::FindBar)
    } else if k.f3 && k.shift {
        Some(Cmd::FindPrev)
    } else if k.f3 {
        Some(Cmd::FindNext)
    } else if c && k.num1 {
        Some(Cmd::Mode(Mode::View))
    } else if c && k.num2 {
        Some(Cmd::Mode(Mode::Edit))
    } else if c && k.num3 {
        Some(Cmd::Mode(Mode::Split))
    } else if c && k.b {
        Some(Cmd::Bold)
    } else if c && k.i {
        Some(Cmd::Italic)
    } else if c && k.k {
        Some(Cmd::Link)
    } else if c && k.equals {
        Some(Cmd::ZoomIn)
    } else if c && k.minus {
        Some(Cmd::ZoomOut)
    } else if c && k.num0 {
        Some(Cmd::ZoomReset)
    } else if c && k.g {
        Some(Cmd::GoToLine)
    } else if k.f1 {
        Some(Cmd::About)
    } else {
        None
    }
}

impl Workbench {
    /// The keyboard shortcut pressed this frame, if any (none while a
    /// dialog is open).
    pub fn shortcut(&self, k: &Keys) -> (r: Option<Cmd>)
        ensures
            r == spec_shortcut(self.modal is Some, *k),
    {
        let c = k.command;
        if self.modal.is_some() {
            None
        } else if c && k.s && !k.shift {
            Some(Cmd::Save)
        } else if c && k.shift && k.s {
            Some(Cmd::SaveAs)
        } else if c && k.o {
            Some(Cmd::Open)
        } else if c && k.n {
            Some(Cmd::New)
        } else if c && k.w {
            if k.shift { Some(Cmd::Quit) } else { Some(Cmd::CloseTab) }
        } else if c && k.f {
            Some(Cmd::FindBar)
        } else if k.f3 && k.shift {
            Some(Cmd::FindPrev)
        } else if k.f3 {
            Some(Cmd::FindNext)
        } else if c && k.num1 {
            Some(Cmd::Mode(Mode::View))
        } else if c && k.num2 {
            Some(Cmd::Mode(Mode::Edit))
        } else if c && k.num3 {
            Some(Cmd::Mode(Mode::Split))
        } else if c && k.b {
            Some(Cmd::Bold)
        } else if c && k.i {
            Some(Cmd::Italic)
        } else if c && k.k {
            Some(Cmd::Link)
        } else if c && k.equals {
            Some(Cmd::ZoomIn)
        } else if c && k.minus {
            Some(Cmd::ZoomOut)
        } else if c && k.num0 {
            Some(Cmd::ZoomReset)
        } else if c && k.g {
            Some(Cmd::GoToLine)
        } else if k.f1 {
            Some(Cmd::About)
        } else {
            None
        }
    }
}

/// Closing a tab with unsaved edits never drops it: the tabs stay as they
/// are and the close-dirty dialog asks first.
pub proof fn lemma_close_dirty_guarded(o: Workbench, n: Workbench)
    requires
        o.wf(),
        o.active matches Some(i) && o.buffers@[i as int].text@ != o.buffers@[i as int].saved_text@,
        cmd_done(o, n, Cmd::CloseTab),
    ensures
        n.buffers@ == o.buffers@,
        n.modal == Some(Modal::CloseDirty { idx: o.active->0 }),
{
}

/// Quitting with unsaved edits never closes the window: the tabs stay as
/// they are and the quit dialog lists exactly the tabs with unsaved edits.
pub proof fn lemma_quit_dirty_guarded(o: Workbench, n: Workbench)
    requires
        dirty_indices(o.buffers@).len() > 0,
        cmd_done(o, n, Cmd::Quit),
    ensures
        cmd_effect(o, Cmd::Quit) != Effect::Exit,
        n.buffers@ == o.buffers@,
        n.modal matches Some(Modal::QuitDirty { idxs }) && idxs@ == dirty_indices(o.buffers@),
{
}

/// Cancelling a guard dialog (close, quit, changed on disk) closes it and
/// changes nothing else, and asks for no outside work.
pub proof fn lemma_cancel_changes_nothing(o: Workbench, n: Workbench)
    requires
        o.modal matches Some(m) && m.is_guard_spec(),
        answered(o, n, Answer::Cancel),
    ensures
        n == (Workbench { modal: None, ..o }),
        answer_effect(o, Answer::Cancel) == Effect::Nothing,
{
}

/// A formatting command that changes the active text records the text and
/// selection it had as one undo step.
pub proof fn lemma_format_undoable(o: Workbench, n: Workbench, c: Cmd)
    requires
        o.wf(),
        c is Bold || c is Italic || c is Strike || c is CodeSpan || c is Heading || c is Quote || c is Bullet
            || c is Numbered || c is Task || c is TableOp,
        cmd_done(o, n, c),
        n.active_text() != o.active_text(),
    ensures
        n.undo_snapshot matches Some((s, t)) && s == o.sel && t@ == o.active_text(),
{
}

/// After a tab's file was written the tab has no unsaved edits.
pub proof fn lemma_saved_is_clean(o: Workbench, n: Workbench, idx: usize, b: Buffer)
    requires
        idx < o.buffers@.len(),
        tab_changed(o, n, idx, b),
        b.saved_text@ == o.buffers@[idx as int].text@,
        b.text == o.buffers@[idx as int].text,
        o.buffers@.len() <= usize::MAX,
    ensures
        !dirty_indices(n.buffers@).contains(idx),
{
    lemma_dirty_indices(n.buffers@);
}

/// [`dirty_indices`] holds exactly the tabs with unsaved edits.
pub proof fn lemma_dirty_indices(bs: Seq<Buffer>)
    requires
        bs.len() <= usize::MAX,
    ensures
        forall|j: int| 0 <= j < dirty_indices(bs).len() ==> #[trigger] dirty_indices(bs)[j] < bs.len(),
        forall|i: usize| dirty_indices(bs).contains(i) <==> (i < bs.len() && bs[i as int].text@ != bs[i as int].saved_text@),
    decreases bs.len(),
{
    if bs.len() > 0 {
        let p = bs.drop_last();
        lemma_dirty_indices(p);
        let d = dirty_indices(bs);
        let dp = dirty_indices(p);
        assert forall|j: int| 0 <= j < d.len() implies #[trigger] d[j] < bs.len() by {
            if j < dp.len() {
                assert(d[j] == dp[j]);
            }
        }
        assert forall|i: usize| d.contains(i) <==> (i < bs.len() && bs[i as int].text@ != bs[i as int].saved_text@) by {
            if d.contains(i) {
                let j = choose|j: int| 0 <= j < d.len() && d[j] == i;
                if j < dp.len() {
                    assert(dp[j] == i);
                    assert(dp.contains(i));
                    assert(bs[i as int] == p[i as int]);
                }
            }
            if i < bs.len() && bs[i as int].text@ != bs[i as int].saved_text@ {
                if i < p.len() {
                    assert(bs[i as int] == p[i as int]);
                    assert(dp.contains(i));
                    let j = choose|j: int| 0 <= j < dp.len() && dp[j] == i;
                    assert(d[j] == i);
                } else {
                    assert(d[dp.len() as int] == i);
                }
            }
        }
    }
}

/// The text holds a CJK character.
pub open spec fn has_cjk(t: Seq<char>) -> bool {
    exists|k: int| 0 <= k < t.len() && is_cjk(#[trigger] t[k])
}

impl Workbench {
    /// Some open tab holds CJK text, so the window needs a CJK font.
    pub fn needs_cjk_font(&self) -> (r: bool)
        ensures
            r == exists|i: int| 0 <= i < self.buffers@.len() && has_cjk(#[trigger] self.buffers@[i].text@),
    {
        let mut i: usize = 0;
        while i < self.buffers.len()
            invariant
                i <= self.buffers@.len(),
                forall|j: int| 0 <= j < i ==> !has_cjk(#[trigger] self.buffers@[j].text@),
            decreases self.buffers@.len() - i,
        {
            if text_has_cjk(self.buffers[i].text.as_str()) {
                return true;
            }
            i = i + 1;
        }
        false
    }
}

} // verus!
