use rustdown_viewer::config::push_recent;
use rustdown_viewer::dialogs::{Modal, TableDraft};
use rustdown_viewer::md::{Span, Style};
use rustdown_viewer::preview::{brace_fix, contains_image, decode_percent, media_path_text, Cmd};
use rustdown_viewer::theme::{Palette, Rgba, ThemeMode};

#[test]
fn recent_list_puts_newest_first_without_repeats() {
    let mut recent: Vec<String> = vec!["b".into(), "a".into(), "c".into()];
    push_recent(&mut recent, "a".into());
    assert_eq!(recent, vec!["a", "b", "c"]);
    let mut long: Vec<String> = (0..10).map(|i| format!("f{}", i)).collect();
    push_recent(&mut long, "new".into());
    assert_eq!(long.len(), 10);
    assert_eq!(long[0], "new");
    assert_eq!(long[9], "f8");
}

#[test]
fn theme_modes() {
    assert!(ThemeMode::Dark.is_dark(false));
    assert!(!ThemeMode::Light.is_dark(true));
    assert!(ThemeMode::System.is_dark(true));
    assert!(!ThemeMode::System.is_dark(false));
    assert_eq!(ThemeMode::default().label(), "System");
    assert_eq!(ThemeMode::Dark.label(), "Dark");
}

#[test]
fn guard_dialogs() {
    assert!(Modal::CloseDirty { idx: 0 }.is_guard());
    assert!(Modal::QuitDirty { idxs: vec![1, 2] }.is_guard());
    assert!(Modal::ExternalChanged { idx: 3 }.is_guard());
    assert!(!Modal::About.is_guard());
    assert!(!Modal::GoTo { idx: 0 }.is_guard());
    let d = TableDraft { rows: 2, cols: 3 };
    assert_eq!(d.rows * d.cols, 6);
}

#[test]
fn preview_helpers() {
    let with_img = vec![
        Span::Text { text: "x".into(), style: Style::default() },
        Span::Image { url: "a.png".into(), alt: String::new(), title: None, width: None, height: None },
    ];
    assert!(contains_image(&with_img));
    assert!(!contains_image(&with_img[..1]));
    assert_eq!(decode_percent("My%20Images/a%2Bb%zz%4"), "My Images/a+b%zz%4");
    assert_eq!(decode_percent("%+5"), "\u{5}");
    assert_eq!(media_path_text("  file:///C:/a%20b.png "), "C:/a b.png");
    assert_eq!(media_path_text("file://x"), "x");
    assert_eq!(brace_fix("dir{1}.png"), Some("dir/{1}.png".to_owned()));
    assert_eq!(brace_fix("dir/{1}.png"), None);
    assert_eq!(brace_fix("{1}.png"), None);
    let cmd = Cmd::Toast("hi".into());
    assert!(matches!(cmd, Cmd::Toast(t) if t == "hi"));
}

#[test]
fn test_monochrome_palette_dark_and_light() {
    let dark = Palette::dark();
    assert!(dark.dark);
    assert_eq!(dark.accent, Rgba::rgb(255, 255, 255));
    assert_eq!(dark.md_heading, Rgba::rgb(255, 255, 255));

    let light = Palette::light();
    assert!(!light.dark);
    assert_eq!(light.accent, Rgba::rgb(17, 17, 19));
    assert_eq!(light.md_heading, Rgba::rgb(17, 17, 19));
}

#[test]
fn palette_follows_the_chosen_theme() {
    assert_eq!(Palette::get(ThemeMode::Dark, false), Palette::dark());
    assert_eq!(Palette::get(ThemeMode::Light, true), Palette::light());
    assert_eq!(Palette::light().accent_soft, Rgba::rgba(0, 0, 0, 20));
    assert_eq!(Palette::get(ThemeMode::System, true), Palette::dark());
    assert_eq!(Palette::get(ThemeMode::System, false), Palette::light());
}
