//! Theme selection: light, dark, or following the operating system.

use vstd::prelude::*;

verus! {

/// The theme the user picked.
#[derive(Clone, Copy, PartialEq, Eq, Structural, Debug)]
pub enum ThemeMode {
    System,
    Light,
    Dark,
}

impl Default for ThemeMode {
    fn default() -> (m: ThemeMode)
        ensures
            m == ThemeMode::System,
    {
        ThemeMode::System
    }
}

/// Whether a theme is dark, given what the system reports.
pub open spec fn spec_is_dark(m: ThemeMode, os_dark: bool) -> bool {
    match m {
        ThemeMode::Dark => true,
        ThemeMode::Light => false,
        ThemeMode::System => os_dark,
    }
}

impl ThemeMode {
    /// Dark for `Dark`, light for `Light`, and for `System` whatever the
    /// system reports (`os_dark`, read by the caller from the desktop).
    pub fn is_dark(&self, os_dark: bool) -> (r: bool)
        ensures
            r == spec_is_dark(*self, os_dark),
    {
        match self {
            ThemeMode::Dark => true,
            ThemeMode::Light => false,
            ThemeMode::System => os_dark,
        }
    }

    /// The name shown in menus.
    pub fn label(&self) -> (r: &'static str)
        ensures
            r@ == match *self {
                ThemeMode::System => "System"@,
                ThemeMode::Light => "Light"@,
                ThemeMode::Dark => "Dark"@,
            },
    {
        match self {
            ThemeMode::System => "System",
            ThemeMode::Light => "Light",
            ThemeMode::Dark => "Dark",
        }
    }
}

/// A colour: red, green, blue and (not premultiplied) alpha.
#[derive(Clone, Copy, PartialEq, Eq, Structural, Debug)]
pub struct Rgba {
    pub r: u8,
    pub g: u8,
    pub b: u8,
    pub a: u8,
}

impl Rgba {
    /// An opaque colour.
    pub fn rgb(r: u8, g: u8, b: u8) -> (c: Rgba)
        ensures
            c == (Rgba { r, g, b, a: 255 }),
    {
        Rgba { r, g, b, a: 255 }
    }

    /// A colour with transparency.
    pub fn rgba(r: u8, g: u8, b: u8, a: u8) -> (c: Rgba)
        ensures
            c == (Rgba { r, g, b, a }),
    {
        Rgba { r, g, b, a }
    }
}

/// Colours used across the editor, the preview and the window chrome for a
/// coherent look; the `md_` ones colour the editor's Markdown tokens.
#[derive(Clone, Copy, PartialEq, Eq, Structural, Debug)]
pub struct Palette {
    pub dark: bool,
    pub window_bg: Rgba,
    pub panel_bg: Rgba,
    pub widget_bg: Rgba,
    pub text: Rgba,
    pub faint: Rgba,
    pub accent: Rgba,
    pub accent_soft: Rgba,
    pub link: Rgba,
    pub code_text: Rgba,
    pub code_bg: Rgba,
    pub code_fence_bg: Rgba,
    pub quote_bar: Rgba,
    pub quote_bg: Rgba,
    pub stripe: Rgba,
    pub hr: Rgba,
    pub check: Rgba,
    pub danger: Rgba,
    pub warning: Rgba,
    pub success: Rgba,
    pub md_heading: Rgba,
    pub md_marker: Rgba,
    pub md_em: Rgba,
    pub md_strong: Rgba,
    pub md_link: Rgba,
    pub md_url: Rgba,
    pub md_quote: Rgba,
    pub md_list: Rgba,
    pub md_hr: Rgba,
    pub md_html: Rgba,
    pub md_fence: Rgba,
    pub md_task: Rgba,
    pub match_bg: Rgba,
}

/// The dark palette: near-black surfaces, off-white text, white accents.
pub open spec fn dark_palette() -> Palette {
    Palette {
        dark: true,
        window_bg: Rgba { r: 12, g: 13, b: 15, a: 255 },
        panel_bg: Rgba { r: 18, g: 19, b: 22, a: 255 },
        widget_bg: Rgba { r: 26, g: 27, b: 32, a: 255 },
        text: Rgba { r: 240, g: 241, b: 244, a: 255 },
        faint: Rgba { r: 130, g: 133, b: 142, a: 255 },
        accent: Rgba { r: 255, g: 255, b: 255, a: 255 },
        accent_soft: Rgba { r: 255, g: 255, b: 255, a: 28 },
        link: Rgba { r: 148, g: 180, b: 219, a: 255 },
        code_text: Rgba { r: 240, g: 241, b: 244, a: 255 },
        code_bg: Rgba { r: 24, g: 25, b: 29, a: 255 },
        code_fence_bg: Rgba { r: 20, g: 21, b: 25, a: 255 },
        quote_bar: Rgba { r: 100, g: 102, b: 112, a: 255 },
        quote_bg: Rgba { r: 22, g: 23, b: 27, a: 255 },
        stripe: Rgba { r: 21, g: 22, b: 26, a: 255 },
        hr: Rgba { r: 37, g: 38, b: 44, a: 255 },
        check: Rgba { r: 255, g: 255, b: 255, a: 255 },
        danger: Rgba { r: 224, g: 108, b: 117, a: 255 },
        warning: Rgba { r: 212, g: 162, b: 89, a: 255 },
        success: Rgba { r: 110, g: 190, b: 127, a: 255 },
        md_heading: Rgba { r: 255, g: 255, b: 255, a: 255 },
        md_marker: Rgba { r: 94, g: 96, b: 106, a: 255 },
        md_em: Rgba { r: 196, g: 198, b: 206, a: 255 },
        md_strong: Rgba { r: 255, g: 255, b: 255, a: 255 },
        md_link: Rgba { r: 148, g: 180, b: 219, a: 255 },
        md_url: Rgba { r: 114, g: 116, b: 128, a: 255 },
        md_quote: Rgba { r: 142, g: 144, b: 154, a: 255 },
        md_list: Rgba { r: 142, g: 144, b: 154, a: 255 },
        md_hr: Rgba { r: 50, g: 52, b: 60, a: 255 },
        md_html: Rgba { r: 130, g: 133, b: 142, a: 255 },
        md_fence: Rgba { r: 94, g: 96, b: 106, a: 255 },
        md_task: Rgba { r: 142, g: 144, b: 154, a: 255 },
        match_bg: Rgba { r: 255, g: 255, b: 255, a: 55 },
    }
}

/// The light palette: near-white surfaces, near-black text and accents.
pub open spec fn light_palette() -> Palette {
    Palette {
        dark: false,
        window_bg: Rgba { r: 251, g: 251, b: 253, a: 255 },
        panel_bg: Rgba { r: 255, g: 255, b: 255, a: 255 },
        widget_bg: Rgba { r: 240, g: 241, b: 244, a: 255 },
        text: Rgba { r: 17, g: 17, b: 19, a: 255 },
        faint: Rgba { r: 115, g: 117, b: 127, a: 255 },
        accent: Rgba { r: 17, g: 17, b: 19, a: 255 },
        accent_soft: Rgba { r: 0, g: 0, b: 0, a: 20 },
        link: Rgba { r: 43, g: 88, b: 154, a: 255 },
        code_text: Rgba { r: 26, g: 26, b: 30, a: 255 },
        code_bg: Rgba { r: 238, g: 240, b: 243, a: 255 },
        code_fence_bg: Rgba { r: 244, g: 245, b: 248, a: 255 },
        quote_bar: Rgba { r: 160, g: 162, b: 170, a: 255 },
        quote_bg: Rgba { r: 246, g: 247, b: 250, a: 255 },
        stripe: Rgba { r: 247, g: 248, b: 250, a: 255 },
        hr: Rgba { r: 228, g: 229, b: 233, a: 255 },
        check: Rgba { r: 17, g: 17, b: 19, a: 255 },
        danger: Rgba { r: 220, g: 38, b: 38, a: 255 },
        warning: Rgba { r: 180, g: 83, b: 9, a: 255 },
        success: Rgba { r: 21, g: 128, b: 61, a: 255 },
        md_heading: Rgba { r: 17, g: 17, b: 19, a: 255 },
        md_marker: Rgba { r: 156, g: 158, b: 168, a: 255 },
        md_em: Rgba { r: 60, g: 62, b: 68, a: 255 },
        md_strong: Rgba { r: 17, g: 17, b: 19, a: 255 },
        md_link: Rgba { r: 43, g: 88, b: 154, a: 255 },
        md_url: Rgba { r: 130, g: 132, b: 142, a: 255 },
        md_quote: Rgba { r: 82, g: 84, b: 93, a: 255 },
        md_list: Rgba { r: 82, g: 84, b: 93, a: 255 },
        md_hr: Rgba { r: 208, g: 210, b: 215, a: 255 },
        md_html: Rgba { r: 115, g: 117, b: 127, a: 255 },
        md_fence: Rgba { r: 156, g: 158, b: 168, a: 255 },
        md_task: Rgba { r: 115, g: 117, b: 127, a: 255 },
        match_bg: Rgba { r: 0, g: 0, b: 0, a: 45 },
    }
}

impl Palette {
    /// The dark palette.
    pub fn dark() -> (p: Palette)
        ensures
            p == dark_palette(),
    {
        Palette {
            dark: true,
            window_bg: Rgba::rgb(12, 13, 15),
            panel_bg: Rgba::rgb(18, 19, 22),
            widget_bg: Rgba::rgb(26, 27, 32),
            text: Rgba::rgb(240, 241, 244),
            faint: Rgba::rgb(130, 133, 142),
            accent: Rgba::rgb(255, 255, 255),
            accent_soft: Rgba::rgba(255, 255, 255, 28),
            link: Rgba::rgb(148, 180, 219),
            code_text: Rgba::rgb(240, 241, 244),
            code_bg: Rgba::rgb(24, 25, 29),
            code_fence_bg: Rgba::rgb(20, 21, 25),
            quote_bar: Rgba::rgb(100, 102, 112),
            quote_bg: Rgba::rgb(22, 23, 27),
            stripe: Rgba::rgb(21, 22, 26),
            hr: Rgba::rgb(37, 38, 44),
            check: Rgba::rgb(255, 255, 255),
            danger: Rgba::rgb(224, 108, 117),
            warning: Rgba::rgb(212, 162, 89),
            success: Rgba::rgb(110, 190, 127),
            md_heading: Rgba::rgb(255, 255, 255),
            md_marker: Rgba::rgb(94, 96, 106),
            md_em: Rgba::rgb(196, 198, 206),
            md_strong: Rgba::rgb(255, 255, 255),
            md_link: Rgba::rgb(148, 180, 219),
            md_url: Rgba::rgb(114, 116, 128),
            md_quote: Rgba::rgb(142, 144, 154),
            md_list: Rgba::rgb(142, 144, 154),
            md_hr: Rgba::rgb(50, 52, 60),
            md_html: Rgba::rgb(130, 133, 142),
            md_fence: Rgba::rgb(94, 96, 106),
            md_task: Rgba::rgb(142, 144, 154),
            match_bg: Rgba::rgba(255, 255, 255, 55),
        }
    }

    /// The light palette.
    pub fn light() -> (p: Palette)
        ensures
            p == light_palette(),
    {
        Palette {
            dark: false,
            window_bg: Rgba::rgb(251, 251, 253),
            panel_bg: Rgba::rgb(255, 255, 255),
            widget_bg: Rgba::rgb(240, 241, 244),
            text: Rgba::rgb(17, 17, 19),
            faint: Rgba::rgb(115, 117, 127),
            accent: Rgba::rgb(17, 17, 19),
            accent_soft: Rgba::rgba(0, 0, 0, 20),
            link: Rgba::rgb(43, 88, 154),
            code_text: Rgba::rgb(26, 26, 30),
            code_bg: Rgba::rgb(238, 240, 243),
            code_fence_bg: Rgba::rgb(244, 245, 248),
            quote_bar: Rgba::rgb(160, 162, 170),
            quote_bg: Rgba::rgb(246, 247, 250),
            stripe: Rgba::rgb(247, 248, 250),
            hr: Rgba::rgb(228, 229, 233),
            check: Rgba::rgb(17, 17, 19),
            danger: Rgba::rgb(220, 38, 38),
            warning: Rgba::rgb(180, 83, 9),
            success: Rgba::rgb(21, 128, 61),
            md_heading: Rgba::rgb(17, 17, 19),
            md_marker: Rgba::rgb(156, 158, 168),
            md_em: Rgba::rgb(60, 62, 68),
            md_strong: Rgba::rgb(17, 17, 19),
            md_link: Rgba::rgb(43, 88, 154),
            md_url: Rgba::rgb(130, 132, 142),
            md_quote: Rgba::rgb(82, 84, 93),
            md_list: Rgba::rgb(82, 84, 93),
            md_hr: Rgba::rgb(208, 210, 215),
            md_html: Rgba::rgb(115, 117, 127),
            md_fence: Rgba::rgb(156, 158, 168),
            md_task: Rgba::rgb(115, 117, 127),
            match_bg: Rgba::rgba(0, 0, 0, 45),
        }
    }

    /// The palette of a theme: dark or light as [`ThemeMode::is_dark`] says,
    /// the system reporting `os_dark`.
    pub fn get(mode: ThemeMode, os_dark: bool) -> (p: Palette)
        ensures
            p == if spec_is_dark(mode, os_dark) { dark_palette() } else { light_palette() },
    {
        if mode.is_dark(os_dark) {
            Palette::dark()
        } else {
            Palette::light()
        }
    }
}

} // verus!
