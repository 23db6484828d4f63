use rustdown_viewer::editor::editor_runs;
use rustdown_viewer::theme::Palette;
use rustdown_viewer::highlight::{tokenize, Tk};

fn kinds(s: &str) -> Vec<Tk> {
    tokenize(s).tokens.into_iter().map(|(_, k)| k).collect()
}

#[test]
fn heading_and_plain() {
    assert!(kinds("# Title").contains(&Tk::Heading));
    assert!(kinds("plain text").contains(&Tk::Plain));
}

#[test]
fn bold_italic_code() {
    assert!(kinds("a **b** c").contains(&Tk::Strong));
    assert!(kinds("a *b* c").contains(&Tk::Emphasis));
    assert!(kinds("a `b` c").contains(&Tk::Code));
}

#[test]
fn links_split() {
    let s = "[x](https://e.dev)";
    let toks = tokenize(s);
    let has_text = toks.tokens.iter().any(|(_, k)| *k == Tk::LinkText);
    let has_url = toks.tokens.iter().any(|(_, k)| *k == Tk::LinkUrl);
    assert!(has_text && has_url);
}

#[test]
fn fenced_code_blocks() {
    let s = "```rs\nfn main() {}\n```\n";
    let toks = tokenize(s);
    let has_fence = toks.tokens.iter().filter(|(_, k)| *k == Tk::Fence).count() >= 2;
    let has_code = toks.tokens.iter().any(|(_, k)| *k == Tk::CodeText);
    assert!(has_fence && has_code);
}

#[test]
fn list_and_task() {
    assert!(kinds("- item").contains(&Tk::ListMarker));
    assert!(kinds("- [x] done").contains(&Tk::Task));
    assert!(kinds("> quote").contains(&Tk::Quote));
}

#[test]
fn ranges_cover_text_without_overlap() {
    let s = "# Hi **bold** `code` [l](u)";
    let toks = tokenize(s);
    let mut last = 0usize;
    for (r, _) in &toks.tokens {
        assert!(r.start >= last, "overlap or disorder at {:?}", r);
        last = r.end;
    }
    let _ = s;
}

#[test]
fn multibyte_chars_do_not_panic() {
    let s = "computable in advance — and it is. Also émojis 🎉 here.";
    let toks = tokenize(s);
    assert!(!toks.tokens.is_empty());
    let s2 = "dash — then [link](https://x.dev)";
    let _ = tokenize(s2);
}

#[test]
fn code_scan_after_multibyte_does_not_panic() {
    let s = "| Title bar text | `«filename.md» — RustDownViewer`; `●` prefix";
    let toks = tokenize(s);
    assert!(!toks.tokens.is_empty());
    let s2 = "`——— unfinished";
    let _ = tokenize(s2);
}

#[test]
fn exact_tokens_of_an_inline_line() {
    let s = "a **b** `c` [d](e)";
    let toks: Vec<(usize, usize, Tk)> = tokenize(s).tokens.into_iter().map(|(r, k)| (r.start, r.end, k)).collect();
    assert_eq!(
        toks,
        vec![
            (0, 2, Tk::Plain),
            (2, 7, Tk::Strong),
            (7, 8, Tk::Plain),
            (8, 11, Tk::Code),
            (11, 12, Tk::Plain),
            (12, 15, Tk::LinkText),
            (15, 18, Tk::LinkUrl),
        ]
    );
}

#[test]
fn quoted_task_line_gives_quote_then_task() {
    let toks: Vec<(usize, usize, Tk)> = tokenize("> [ ] x").tokens.into_iter().map(|(r, k)| (r.start, r.end, k)).collect();
    assert_eq!(toks[0], (0, 2, Tk::Quote));
    assert_eq!(toks[1].2, Tk::Task);
    assert!(toks[0].1 <= toks[1].0);
}

#[test]
fn tokens_in_order_on_mixed_document() {
    let s = "# H\n> [x] q *e* <b>\n---\n```\ncode\n```\n1. item ~~s~~\n\\*x\n";
    let toks = tokenize(s).tokens;
    for (k, (r, kind)) in toks.iter().enumerate() {
        assert!(r.start <= r.end && r.end <= s.len());
        for (r2, kind2) in toks.iter().skip(k + 1) {
            let _ = (kind, kind2);
            assert!(r.end <= r2.start);
        }
    }
    assert!(toks.iter().any(|(_, k)| *k == Tk::Hr));
    assert!(toks.iter().any(|(_, k)| *k == Tk::Html));
    assert!(toks.iter().any(|(_, k)| *k == Tk::Strike));
    assert!(toks.iter().any(|(_, k)| *k == Tk::CodeText));
}

#[test]
fn empty_text_has_no_tokens() {
    let syn = tokenize("");
    assert!(syn.tokens.is_empty());
    assert_eq!(syn.text, "");
}

#[test]
fn editor_runs_cover_the_text_in_order() {
    let pal = Palette::dark();
    let text = "a **b** c";
    let runs = editor_runs(text, &pal, &[]);
    assert_eq!(runs.first().unwrap().start, 0);
    assert_eq!(runs.last().unwrap().end, text.len());
    for w in runs.windows(2) {
        assert_eq!(w[0].end, w[1].start);
    }
    assert!(runs.iter().any(|r| r.bold && r.color == pal.md_strong));
    assert!(runs.iter().all(|r| !r.italics));
    assert!(editor_runs("", &pal, &[]).is_empty());
}

#[test]
fn editor_runs_highlight_find_matches() {
    let pal = Palette::light();
    let runs = editor_runs("abc abc", &pal, &[4..7]);
    assert_eq!(runs.len(), 2);
    assert_eq!((runs[0].start, runs[0].end), (0, 4));
    assert_eq!(runs[0].background, None);
    assert_eq!(runs[0].color, pal.text);
    assert_eq!((runs[1].start, runs[1].end), (4, 7));
    assert_eq!(runs[1].background, Some(pal.match_bg));
}
