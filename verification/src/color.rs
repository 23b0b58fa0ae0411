//! Colors, as four plain bytes.

use vstd::prelude::*;

verus! {

/// A color: red, green, blue and alpha, one byte each.
#[derive(Clone, Copy, Debug, PartialEq, Eq, Structural)]
pub struct Color {
    pub r: u8,
    pub g: u8,
    pub b: u8,
    pub a: u8,
}

impl Color {
    /// The opaque color with the given red, green and blue.
    pub fn from_rgb(r: u8, g: u8, b: u8) -> (c: Self)
        ensures
            c == (Color { r, g, b, a: 255 }),
    {
        Color { r, g, b, a: 255 }
    }

    /// Opaque yellow.
    pub fn yellow() -> (c: Self)
        ensures
            c == (Color { r: 255, g: 255, b: 0, a: 255 }),
    {
        Color { r: 255, g: 255, b: 0, a: 255 }
    }

    /// Opaque black.
    pub fn black() -> (c: Self)
        ensures
            c == (Color { r: 0, g: 0, b: 0, a: 255 }),
    {
        Color { r: 0, g: 0, b: 0, a: 255 }
    }
}

/// The colors of a page.
#[derive(Clone, Copy, Debug)]
pub struct DocumentColors {
    pub highlight_color: Color,
    pub text_color: Color,
    pub page_color: Color,
}

/// The colors a line can be highlighted with under `theme`: the reader's
/// own highlight color first, then four fixed ones.
pub open spec fn palette_of(theme: DocumentColors) -> Seq<Color> {
    seq![
        theme.highlight_color,
        Color { r: 255, g: 150, b: 138, a: 255 },
        Color { r: 255, g: 209, b: 138, a: 255 },
        Color { r: 138, g: 255, b: 150, a: 255 },
        Color { r: 150, g: 138, b: 255, a: 255 },
    ]
}

impl Default for DocumentColors {
    /// Yellow highlights and black text on a paper-colored page.
    fn default() -> (theme: Self)
        ensures
            theme.highlight_color == (Color { r: 255, g: 255, b: 0, a: 255 }),
            theme.text_color == (Color { r: 0, g: 0, b: 0, a: 255 }),
            theme.page_color == (Color { r: 239, g: 229, b: 213, a: 255 }),
    {
        DocumentColors {
            highlight_color: Color::yellow(),
            text_color: Color::black(),
            page_color: Color::from_rgb(239, 229, 213),
        }
    }
}

impl DocumentColors {
    /// The colors offered for highlighting a line.
    pub fn palette(&self) -> (colors: Vec<Color>)
        ensures
            colors@ == palette_of(*self),
    {
        let mut colors: Vec<Color> = Vec::new();
        colors.push(self.highlight_color);
        colors.push(Color::from_rgb(255, 150, 138));
        colors.push(Color::from_rgb(255, 209, 138));
        colors.push(Color::from_rgb(138, 255, 150));
        colors.push(Color::from_rgb(150, 138, 255));
        assert(colors@ =~= palette_of(*self));
        colors
    }
}

} // verus!
