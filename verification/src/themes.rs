//! Border character sets that determine the look of a drawn table.
//!
//! A theme is pure configuration: one character for each of the distinct
//! border-drawing positions. The renderer consumes it and never interprets
//! the characters beyond placing them.

use vstd::prelude::*;

verus! {

/// The characters used to draw a table's borders: the three junction rows
/// (top, middle, bottom), the fill characters for horizontal and vertical
/// borders, and the fill characters for internal grid lines.
pub struct Theme {
    pub top_left_corner: char,
    pub top_center: char,
    pub top_right_corner: char,
    pub middle_left: char,
    pub middle_center: char,
    pub middle_right: char,
    pub bottom_left_corner: char,
    pub bottom_center: char,
    pub bottom_right_corner: char,
    pub horizontal_border: char,
    pub vertical_border: char,
    pub internal_horizontal: char,
    pub internal_vertical: char,
}

/// The heavy box-drawing character set.
pub open spec fn heavy_theme() -> Theme {
    Theme {
        top_left_corner: '┏',
        top_center: '┳',
        top_right_corner: '┓',
        middle_left: '┣',
        middle_center: '╋',
        middle_right: '┫',
        bottom_left_corner: '┗',
        bottom_center: '┻',
        bottom_right_corner: '┛',
        horizontal_border: '━',
        vertical_border: '┃',
        internal_horizontal: '━',
        internal_vertical: '┃',
    }
}

/// The borderless derivation of a theme: every frame and separator
/// character (corners, centers, horizontal and vertical borders) is
/// replaced by the null character, while the internal fill characters are
/// kept unchanged.
pub open spec fn borderless_of(t: Theme) -> Theme {
    Theme {
        top_left_corner: '\0',
        top_center: '\0',
        top_right_corner: '\0',
        middle_left: '\0',
        middle_center: '\0',
        middle_right: '\0',
        bottom_left_corner: '\0',
        bottom_center: '\0',
        bottom_right_corner: '\0',
        horizontal_border: '\0',
        vertical_border: '\0',
        internal_horizontal: t.internal_horizontal,
        internal_vertical: t.internal_vertical,
    }
}

impl Theme {
    /// The heavy box-drawing preset.
    pub fn heavy() -> (t: Theme)
        ensures
            t == heavy_theme(),
    {
        Theme {
            top_left_corner: '┏',
            top_center: '┳',
            top_right_corner: '┓',
            middle_left: '┣',
            middle_center: '╋',
            middle_right: '┫',
            bottom_left_corner: '┗',
            bottom_center: '┻',
            bottom_right_corner: '┛',
            horizontal_border: '━',
            vertical_border: '┃',
            internal_horizontal: '━',
            internal_vertical: '┃',
        }
    }

    /// A copy of this theme with the outer frame and separator characters
    /// nulled. The internal fill characters are kept, so internal grid
    /// lines may remain visible.
    pub fn borderless(&self) -> (t: Theme)
        ensures
            t == borderless_of(*self),
    {
        Theme {
            top_left_corner: '\0',
            top_center: '\0',
            top_right_corner: '\0',
            middle_left: '\0',
            middle_center: '\0',
            middle_right: '\0',
            bottom_left_corner: '\0',
            bottom_center: '\0',
            bottom_right_corner: '\0',
            horizontal_border: '\0',
            vertical_border: '\0',
            internal_horizontal: self.internal_horizontal,
            internal_vertical: self.internal_vertical,
        }
    }
}

/// Law: nulling a theme's frame is idempotent. Applying the borderless
/// transform to an already-borderless theme yields the same theme.
pub proof fn lemma_borderless_idempotent(t: Theme)
    ensures
        borderless_of(borderless_of(t)) == borderless_of(t),
{
}

} // verus!
