use vstd::prelude::*;

verus! {

/// Page geometry, in layout units of a quarter of a millimeter.
///
/// The quarter-millimeter grid keeps every quantity of the layout model an
/// integer: the width estimate charges `font size / 4` per byte, which at the
/// body font size of 11 mm (44 units) comes to exactly 11 units per byte.
/// A page is A4: 210 mm by 297 mm.
pub const PAGE_WIDTH: i64 = 840;

pub const PAGE_HEIGHT: i64 = 1188;

/// Margin on all four sides: 10 mm.
pub const MARGIN: i64 = 40;

/// Vertical advance per rendered text line: 6 mm.
pub const LINE_HEIGHT: i64 = 24;

/// Vertical gap after a paragraph and for each blank line: 8 mm.
pub const PARAGRAPH_SPACING: i64 = 32;

/// Body font size: 11 mm.
pub const FONT_SIZE: i64 = 44;

/// Extra left offset for bullet lines: 2 mm.
pub const BULLET_INDENT: i64 = 8;

/// Horizontal padding of cell text inside its table column: 13 mm.
pub const CELL_TEXT_X_OFFSET: i64 = 52;

/// Cell text sits this far above the row's bottom border: 2 mm.
pub const CELL_TEXT_Y_OFFSET: i64 = 8;

/// Low-water mark above the margin checked once per content block: 20 mm.
pub const LOW_WATER: i64 = 80;

/// The cursor starts here on every fresh page.
pub const PAGE_TOP: i64 = PAGE_HEIGHT - MARGIN;

/// Width available to content between the two side margins.
pub const USABLE_WIDTH: i64 = PAGE_WIDTH - 2 * MARGIN;

} // verus!
