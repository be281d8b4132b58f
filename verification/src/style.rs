use vstd::prelude::*;

verus! {

/// A terminal colour choice for a run of text.
#[derive(Debug, Clone, Copy, PartialEq, Eq)]
pub enum Color {
    Reset,
    Black,
    Red,
    Green,
    Yellow,
    Blue,
    Magenta,
    Cyan,
    Gray,
    White,
    Rgb(u8, u8, u8),
    Indexed(u8),
}

/// A style whose attributes are each independently optional. An attribute
/// that is `None` is unset: merging this style onto a base style leaves the
/// base's value for that attribute in place, while a set attribute replaces
/// the base's.
#[derive(Debug, Clone, Copy, PartialEq, Eq)]
pub struct Style {
    pub fg: Option<Color>,
    pub bg: Option<Color>,
    pub bold: Option<bool>,
    pub italic: Option<bool>,
    pub underlined: Option<bool>,
}

/// The style with every attribute unset.
pub open spec fn unset_style() -> Style {
    Style { fg: None, bg: None, bold: None, italic: None, underlined: None }
}

/// Attribute-wise merge: every attribute set in `over` replaces the base's,
/// every attribute unset in `over` is inherited from `base`.
pub open spec fn spec_patch(base: Style, over: Style) -> Style {
    Style {
        fg: if over.fg is Some { over.fg } else { base.fg },
        bg: if over.bg is Some { over.bg } else { base.bg },
        bold: if over.bold is Some { over.bold } else { base.bold },
        italic: if over.italic is Some { over.italic } else { base.italic },
        underlined: if over.underlined is Some { over.underlined } else { base.underlined },
    }
}

impl Style {
    /// Merge `other` onto `self`, attribute by attribute.
    pub fn patch(self, other: Style) -> (r: Style)
        ensures
            r == spec_patch(self, other),
    {
        Style {
            fg: if other.fg.is_some() { other.fg } else { self.fg },
            bg: if other.bg.is_some() { other.bg } else { self.bg },
            bold: if other.bold.is_some() { other.bold } else { self.bold },
            italic: if other.italic.is_some() { other.italic } else { self.italic },
            underlined: if other.underlined.is_some() {
                other.underlined
            } else {
                self.underlined
            },
        }
    }

    /// Set the foreground colour.
    pub fn fg(self, color: Color) -> (r: Style)
        ensures
            r == (Style { fg: Some(color), ..self }),
    {
        Style { fg: Some(color), ..self }
    }

    /// Set the background colour.
    pub fn bg(self, color: Color) -> (r: Style)
        ensures
            r == (Style { bg: Some(color), ..self }),
    {
        Style { bg: Some(color), ..self }
    }

    /// Set the bold attribute.
    pub fn bold(self, on: bool) -> (r: Style)
        ensures
            r == (Style { bold: Some(on), ..self }),
    {
        Style { bold: Some(on), ..self }
    }

    /// Set the italic attribute.
    pub fn italic(self, on: bool) -> (r: Style)
        ensures
            r == (Style { italic: Some(on), ..self }),
    {
        Style { italic: Some(on), ..self }
    }

    /// Set the underlined attribute.
    pub fn underlined(self, on: bool) -> (r: Style)
        ensures
            r == (Style { underlined: Some(on), ..self }),
    {
        Style { underlined: Some(on), ..self }
    }
}

impl Default for Style {
    /// The style with every attribute unset.
    fn default() -> (r: Style)
        ensures
            r == unset_style(),
    {
        Style { fg: None, bg: None, bold: None, italic: None, underlined: None }
    }
}

/// Merging the unset style onto a base changes nothing, and merging onto the
/// unset base yields the override itself.
pub proof fn lemma_patch_unset(s: Style)
    ensures
        spec_patch(s, unset_style()) == s,
        spec_patch(unset_style(), s) == s,
{
}

} // verus!
