use rustdown_viewer::html::{
    decode_entities, extract_attrs, get_attr, is_center_align, parse_html_block_content, tokenize_html, HtmlBlockAction,
    HtmlToken,
};
use rustdown_viewer::md::{spans_plain, Block, Span};

/// A CSS length as a number of pixels (the application's reading of image
/// width and height attributes).
fn dimension(s: &str) -> Option<f32> {
    let t = s.trim();
    let t = t.trim_end_matches("px").trim();
    t.parse::<f32>().ok()
}

#[test]
fn test_decode_entities() {
    assert_eq!(decode_entities("&lt;div&gt; &amp; &quot;hi&quot; &#39;test&#39;"), "<div> & \"hi\" 'test'");
    assert_eq!(decode_entities("Hello&nbsp;World"), "Hello World");
}

#[test]
fn numeric_and_unknown_entities() {
    assert_eq!(decode_entities("&#65;&#x42;"), "AB");
    assert_eq!(decode_entities("&bogus; & x"), "&bogus; & x");
}

#[test]
fn test_extract_attrs() {
    let attrs = extract_attrs(r#"src="assets/Icon/RMD.png" alt="RapidMD Logo" width="96" height="96" style="border-radius: 18px;""#);
    assert_eq!(get_attr(&attrs, "src"), Some("assets/Icon/RMD.png"));
    assert_eq!(get_attr(&attrs, "alt"), Some("RapidMD Logo"));
    assert_eq!(get_attr(&attrs, "width"), Some("96"));
    assert_eq!(get_attr(&attrs, "height"), Some("96"));
}

#[test]
fn test_readme_header_html_block() {
    let html = r#"<div align="center">
  <img src="assets/Icon/RMD.png" alt="RapidMD Logo" width="96" height="96" style="border-radius: 18px;" />
  <h3>Sleek, Native Markdown Viewer & Editor in Rust</h3>
  <p>Minimalist monochrome interface and workspace aesthetics.</p>
</div>"#;
    let actions = parse_html_block_content(html);
    assert!(matches!(actions[0], HtmlBlockAction::OpenCenter));
    match &actions[1] {
        HtmlBlockAction::Block(Block::Para(spans)) => {
            match &spans[0] {
                Span::Image { url, width: Some(w), height: Some(h), .. } => {
                    assert_eq!(url, "assets/Icon/RMD.png");
                    assert_eq!(dimension(w), Some(96.0));
                    assert_eq!(dimension(h), Some(96.0));
                }
                other => panic!("expected image, got {:?}", other),
            }
        }
        _ => panic!("expected image para"),
    }
    match &actions[2] {
        HtmlBlockAction::Block(Block::Heading { level: 3, spans }) => {
            assert_eq!(spans_plain(spans), "Sleek, Native Markdown Viewer & Editor in Rust");
        }
        _ => panic!("expected h3 heading"),
    }
    match &actions[3] {
        HtmlBlockAction::Block(Block::Para(spans)) => {
            assert_eq!(spans_plain(spans), "Minimalist monochrome interface and workspace aesthetics.");
        }
        _ => panic!("expected paragraph"),
    }
    assert!(matches!(actions[4], HtmlBlockAction::CloseCenter));
}

#[test]
fn test_html_comments_are_ignored() {
    let html = "<!-- this is a comment --><p>visible</p>";
    let actions = parse_html_block_content(html);
    assert_eq!(actions.len(), 1);
    assert!(matches!(&actions[0], HtmlBlockAction::Block(Block::Para(_))));
}

#[test]
fn tokens_and_center_alignment() {
    let toks = tokenize_html("<P ALIGN=\"center\">hi</p>");
    assert_eq!(toks.len(), 3);
    match &toks[0] {
        HtmlToken::TagOpen { name, attrs, self_closing } => {
            assert_eq!(name, "p");
            assert!(!self_closing);
            assert!(is_center_align(name, attrs));
        }
        other => panic!("unexpected {:?}", other),
    }
    assert!(matches!(&toks[1], HtmlToken::Text(t) if t == "hi"));
    assert!(matches!(&toks[2], HtmlToken::TagClose { name } if name == "p"));
}
