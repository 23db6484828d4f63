use rustdown_viewer::md::{parse, slugify, spans_plain, Block, QuoteKind, Span, Style};

#[test]
fn parses_heading_with_slug() {
    let doc = parse("# Hello World\n\nSome *text*.");
    assert_eq!(doc.toc.len(), 1);
    assert_eq!(doc.toc[0], (1, "Hello World".to_owned(), "hello-world".to_owned()));
    assert!(matches!(&doc.blocks[1], Block::Para(_)));
}

#[test]
fn parses_table() {
    let md = "| A | B |\n| --- | --- |\n| 1 | 2 |\n";
    let doc = parse(md);
    let Block::Table(t) = &doc.blocks[0] else { panic!("expected table") };
    assert_eq!(t.header.len(), 2);
    assert_eq!(t.rows.len(), 1);
    assert_eq!(spans_plain(&t.rows[0][0]), "1");
}

#[test]
fn parses_task_list() {
    let md = "- [x] done\n- [ ] todo\n";
    let doc = parse(md);
    let Block::List { ordered, items, .. } = &doc.blocks[0] else { panic!("expected list") };
    assert!(!ordered);
    assert_eq!(items.len(), 2);
    assert_eq!(items[0].checked, Some(true));
    assert_eq!(items[1].checked, Some(false));
}

#[test]
fn parses_bold_and_link() {
    let md = "**bold** and [a link](https://x.dev)";
    let doc = parse(md);
    let Block::Para(spans) = &doc.blocks[0] else { panic!("expected para") };
    let has_bold = spans.iter().any(|s| matches!(s, Span::Text { style, .. } if style.bold));
    assert!(has_bold, "expected a bold text run: {:?}", spans);
    assert!(spans.iter().any(|s| matches!(s, Span::Link { url, .. } if url == "https://x.dev")));
}

#[test]
fn slugify_works() {
    assert_eq!(slugify("Hello, World!"), "hello-world");
    assert_eq!(slugify("Über naïve"), "über-naïve");
}

#[test]
fn slugify_edge_cases() {
    assert_eq!(slugify("!!!"), "section");
    assert_eq!(slugify("  A -- B  "), "-a-b");
}

#[test]
fn parses_footnotes() {
    let md = "Text[^1].\n\n[^1]: footnote body";
    let doc = parse(md);
    assert_eq!(doc.footnotes.len(), 1);
    assert_eq!(doc.footnotes[0].0, "1");
}

#[test]
fn parses_plain_paragraph_after_list_marker_lookahead() {
    let md = "- first\n- second\n";
    let doc = parse(md);
    let Block::List { items, .. } = &doc.blocks[0] else { panic!("expected list") };
    assert_eq!(items.len(), 2);
    assert!(!items[0].blocks.is_empty());
}

#[test]
fn parses_blockquote_and_code() {
    let md = "> quoted\n\n```rust\nfn main() {}\n```\n";
    let doc = parse(md);
    assert!(matches!(&doc.blocks[0], Block::BlockQuote { .. }));
    assert!(matches!(&doc.blocks[1], Block::CodeBlock { lang, .. } if lang == "rust"));
}

#[test]
fn parses_images_various() {
    let md2 = "![alt](C:/Users/ismai/Desktop/image.png)";
    let doc2 = parse(md2);
    let Block::Para(spans2) = &doc2.blocks[0] else { panic!() };
    assert!(matches!(&spans2[0], Span::Image { url, .. } if url == "C:/Users/ismai/Desktop/image.png"));
    let md3 = "![](image.png)";
    let doc3 = parse(md3);
    let Block::Para(spans3) = &doc3.blocks[0] else { panic!() };
    assert!(matches!(&spans3[0], Span::Image { url, .. } if url == "image.png"));
    let md6 = "![alt](<C:\\Users\\ismai\\My Images\\pic.png>)";
    let doc6 = parse(md6);
    let Block::Para(spans6) = &doc6.blocks[0] else { panic!() };
    assert!(matches!(&spans6[0], Span::Image { .. }));
}

#[test]
fn repeated_headings_get_numbered_anchors() {
    let doc = parse("# Intro\n\n## Intro\n\n> # Intro\n\n- ## Other\n");
    let slugs: Vec<&str> = doc.toc.iter().map(|(_, _, s)| s.as_str()).collect();
    assert_eq!(slugs, vec!["intro", "intro-1", "intro-2", "other"]);
    assert_eq!(doc.toc[1].0, 2);
}

#[test]
fn footnote_definitions_leave_the_body() {
    let doc = parse("A[^n]\n\n[^n]: note\n\nB\n");
    assert_eq!(doc.blocks.len(), 2);
    assert!(doc.blocks.iter().all(|b| !matches!(b, Block::FootnoteDef { .. })));
    assert_eq!(doc.footnotes[0].0, "n");
}

#[test]
fn callouts_and_code_styles() {
    let doc = parse("> [!WARNING]\n> careful\n\nuse `x` here\n");
    let Block::BlockQuote { kind, .. } = &doc.blocks[0] else { panic!("expected quote") };
    assert!(*kind == QuoteKind::Warning);
    assert_eq!(kind.label(), Some("WARNING"));
    let Block::Para(spans) = &doc.blocks[1] else { panic!("expected para") };
    assert!(spans.iter().any(|s| matches!(s, Span::Code { text, style } if text == "x" && style.code)));
    assert_eq!(Style::default(), Style { bold: false, italic: false, strike: false, code: false });
}

#[test]
fn plain_text_of_spans() {
    let spans = vec![
        Span::Text { text: "a".into(), style: Style::default() },
        Span::LineBreak,
        Span::FootnoteRef { label: "1".into() },
        Span::Link { url: "u".into(), title: None, inner: vec![Span::Math { text: "x".into() }] },
    ];
    assert_eq!(spans_plain(&spans), "a [^1]x");
}

#[test]
fn slugs_are_their_own_slugs() {
    for t in ["Hello, World!", "Über naïve", "  A -- B  ", "!!!", "x", "Ω 42 -- ok?"] {
        let s = slugify(t);
        assert!(!s.is_empty() && !s.ends_with('-') && !s.contains("--"));
        assert!(s.chars().all(|c| c == '-' || c.is_alphanumeric()));
        assert_eq!(slugify(&s), s);
    }
}
