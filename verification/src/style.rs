//! The style record: one entry of the style table, plus the constants that
//! fix the symbol alphabet used by the style-index buffer.

use vstd::prelude::*;

verus! {

/// Largest number of style records a document may hold. The style-index
/// buffer encodes a table index as one printable byte, starting at
/// [`STYLE_SYMBOL_BASE`], so the table is capped by the size of that
/// alphabet; growing past it is reported as [`TableOverflow`], never
/// silently truncated.
pub const MAX_STYLES: usize = 62;

/// First byte of the symbol alphabet (the letter `A`). Table index `i` is
/// written into the style-index buffer as the byte `STYLE_SYMBOL_BASE + i`.
pub const STYLE_SYMBOL_BASE: u8 = 65;

/// Host palette index of the default foreground color.
pub const DEFAULT_FOREGROUND: u32 = 0;

/// Host palette index of the default text-area background color.
pub const DEFAULT_BACKGROUND: u32 = 7;

/// Host font index of the plain Helvetica face.
pub const FONT_HELVETICA: i32 = 0;

/// Attribute flags meaning "no decoration".
pub const ATTR_NONE: u32 = 0;

/// Point size used by [`Style::default`] when no host font size is supplied.
pub const DEFAULT_FONT_SIZE: i32 = 14;

/// One style record: the visual attributes applied to a run of text.
///
/// Two records are equal exactly when all five fields are equal; the style
/// table deduplicates by this value equality. Colors and fonts are carried
/// as the host toolkit's plain palette and font indices, so the record stays
/// a pure value.
#[derive(Clone, Copy, Debug, PartialEq, Eq, Structural)]
pub struct Style {
    /// Foreground color, as a host palette index.
    pub color: u32,
    /// Font, as a host font index.
    pub font: i32,
    /// Point size.
    pub size: i32,
    /// Attribute flags (underline, strikeout, ...).
    pub attr: u32,
    /// Background color, as a host palette index.
    pub bgcolor: u32,
}

impl Style {
    /// The "normal text" record at a given point size.
    pub open spec fn normal_spec(size: i32) -> Style {
        Style {
            color: DEFAULT_FOREGROUND,
            font: FONT_HELVETICA,
            size: size,
            attr: ATTR_NONE,
            bgcolor: DEFAULT_BACKGROUND,
        }
    }

    /// Builds the "normal text" record at the given point size. The size is
    /// an explicit parameter so that a caller embedded in a host toolkit can
    /// pass the environment's current default font size.
    pub fn normal(size: i32) -> (r: Style)
        ensures
            r == Style::normal_spec(size),
    {
        Style {
            color: DEFAULT_FOREGROUND,
            font: FONT_HELVETICA,
            size: size,
            attr: ATTR_NONE,
            bgcolor: DEFAULT_BACKGROUND,
        }
    }
}

impl Default for Style {
    /// The "normal text" record at [`DEFAULT_FONT_SIZE`].
    fn default() -> (r: Style)
        ensures
            r == Style::normal_spec(DEFAULT_FONT_SIZE),
    {
        Style::normal(DEFAULT_FONT_SIZE)
    }
}

/// Returned when interning one more record would push the style table past
/// [`MAX_STYLES`], the largest size the symbol alphabet can address.
#[derive(Clone, Copy, Debug, PartialEq, Eq, Structural)]
pub struct TableOverflow;

} // verus!
