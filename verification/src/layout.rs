//! Where the lyric view puts things on the terminal: which lyric lines fill
//! the rows, how bright each row is, and where text is centred.

use vstd::prelude::*;
use vstd::string::StrSliceExecFns;

verus! {

/// The smallest terminal, in columns, that the view draws into.
pub const MIN_WIDTH: u16 = 30;

/// The smallest terminal, in rows, that the view draws into.
pub const MIN_HEIGHT: u16 = 9;

/// The most lyric rows the view shows at once.
pub const MAX_LYRIC_ROWS: u16 = 9;

/// Column of the left edge of the lyric area.
pub const LYRICS_COLUMN: u16 = 6;

/// Row of the top of the lyric area.
pub const LYRICS_ROW: u16 = 5;

/// Columns that the frame takes from the width of the lyric area.
pub const FRAME_COLUMNS: u16 = 12;

/// Rows that the frame takes from the height of the lyric area.
pub const FRAME_ROWS: u16 = 8;

/// ANSI colours from dim to bright; the current line gets the last one.
pub open spec fn fade_palette() -> Seq<u8> {
    seq![237u8, 239u8, 242u8, 245u8, 15u8]
}

/// Whether a terminal of this size is large enough to draw the view.
pub fn fits(width: u16, height: u16) -> (r: bool)
    ensures
        r == (width >= MIN_WIDTH && height >= MIN_HEIGHT),
{
    width >= MIN_WIDTH && height >= MIN_HEIGHT
}

/// Rows available for lyrics in a terminal of `height` rows (none when the
/// terminal is smaller than the frame).
pub fn visible_lines_for(height: u16) -> (r: u16)
    ensures
        r == (if height >= FRAME_ROWS { height - FRAME_ROWS } else { 0 }),
{
    if height >= FRAME_ROWS {
        height - FRAME_ROWS
    } else {
        0
    }
}

/// Width of the lyric area in a terminal `term_width` columns wide.
pub fn lyric_width(term_width: u16) -> (r: u16)
    requires
        term_width >= FRAME_COLUMNS,
    ensures
        r == term_width - FRAME_COLUMNS,
{
    term_width - FRAME_COLUMNS
}

/// How many lyric rows are drawn, and how far down the lyric area they start,
/// when `visible_lines` rows are available: at most nine rows, centred.
pub fn lyric_rows(visible_lines: u16) -> (r: (u16, u16))
    ensures
        r.0 == (if visible_lines < MAX_LYRIC_ROWS { visible_lines } else { MAX_LYRIC_ROWS }),
        r.1 == (visible_lines - r.0) / 2,
{
    let draw_lines = if visible_lines < MAX_LYRIC_ROWS {
        visible_lines
    } else {
        MAX_LYRIC_ROWS
    };
    (draw_lines, (visible_lines - draw_lines) / 2)
}

/// The row, below the top of the lyric area, on which the title stands.
pub fn title_row(visible_lines: u16) -> (r: u16)
    ensures
        r == (visible_lines - (if visible_lines < MAX_LYRIC_ROWS { visible_lines } else { MAX_LYRIC_ROWS })) / 4,
{
    let (draw_lines, _) = lyric_rows(visible_lines);
    (visible_lines - draw_lines) / 4
}

/// The number of the lyric line shown on `row` of `draw_lines` rows, when
/// line `current_line` is current: the current line sits on the middle row,
/// earlier lines above it, later lines below; rows above line 1 show line 0,
/// which has no text.
pub fn line_for_row(current_line: usize, row: u16, draw_lines: u16) -> (r: usize)
    requires
        current_line + row <= usize::MAX,
    ensures
        r == (if current_line + row >= draw_lines / 2 {
            current_line + row - draw_lines / 2
        } else {
            0
        }),
{
    let shown = current_line + row as usize;
    let half = (draw_lines / 2) as usize;
    if shown >= half {
        shown - half
    } else {
        0
    }
}

/// The colour of `row` of `draw_lines` lyric rows: brightest on the middle
/// row, one step dimmer for each row away from it.
pub fn fade_color(row: u16, draw_lines: u16) -> (r: u8)
    requires
        row < draw_lines <= MAX_LYRIC_ROWS,
    ensures
        r == fade_palette()[4 - (if row >= draw_lines / 2 {
            row - draw_lines / 2
        } else {
            draw_lines / 2 - row
        })],
{
    let half = draw_lines / 2;
    let distance = if row >= half {
        row - half
    } else {
        half - row
    };
    let palette: [u8; 5] = [237, 239, 242, 245, 15];
    assert(palette@ =~= fade_palette());
    palette[4 - distance as usize]
}

/// The column, within an area `width` columns wide, at which text of `len`
/// characters starts when centred.  The length is taken modulo 2^16, as a
/// `u16` holds it; text wider than the area starts at column 0.
pub fn centered_x(width: u16, len: usize) -> (r: u16)
    ensures
        r == (if width >= (len as u16) { width - (len as u16) } else { 0 }) / 2,
{
    let len16 = len as u16;
    let free = if width >= len16 {
        width - len16
    } else {
        0
    };
    free / 2
}

/// The column, within an area `width` columns wide, at which the title line
/// `artist - title` starts when centred.
pub fn title_column(width: u16, artist: &str, title: &str) -> (r: u16)
    requires
        artist@.len() + 3 + title@.len() <= usize::MAX,
    ensures
        r == (if width >= ((artist@.len() + 3 + title@.len()) as u16) {
            width - ((artist@.len() + 3 + title@.len()) as u16)
        } else {
            0
        }) / 2,
{
    let len = artist.unicode_len() + 3 + title.unicode_len();
    centered_x(width, len)
}

} // verus!
