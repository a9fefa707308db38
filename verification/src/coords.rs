//! Coordinates: points, ranges, and the capture offset adjustment.

use vstd::prelude::*;

verus! {

/// A position in the document. `row` counts lines; `column` is carried in
/// doubled units, like every byte coordinate in this crate.
#[derive(Clone, Copy, Debug, PartialEq, Eq, Structural)]
pub struct Point {
    pub row: usize,
    pub column: usize,
}

impl Point {
    pub fn zero() -> (r: Point)
        ensures
            r == (Point { row: 0, column: 0 }),
    {
        Point { row: 0, column: 0 }
    }
}

/// A span of text: byte range plus the corresponding points, all doubled.
#[derive(Clone, Copy, Debug, PartialEq, Eq, Structural)]
pub struct TextRange {
    pub start_byte: usize,
    pub end_byte: usize,
    pub start_point: Point,
    pub end_point: Point,
}

/// Point subtraction used to translate a range into a subtree's local
/// coordinate space. Columns only change on the first row of the span.
pub open spec fn spec_sub_point(point1: Point, point2: Point) -> Point {
    if point1.row == point2.row {
        Point {
            row: 0,
            column: if point1.column >= point2.column {
                (point1.column - point2.column) as usize
            } else {
                0
            },
        }
    } else {
        Point {
            row: if point1.row >= point2.row {
                (point1.row - point2.row) as usize
            } else {
                0
            },
            column: point1.column,
        }
    }
}

pub fn sub_point(point1: &Point, point2: &Point) -> (r: Point)
    ensures
        r == spec_sub_point(*point1, *point2),
{
    if point1.row == point2.row {
        Point {
            row: 0,
            column: if point1.column >= point2.column {
                point1.column - point2.column
            } else {
                0
            },
        }
    } else {
        Point {
            row: if point1.row >= point2.row {
                point1.row - point2.row
            } else {
                0
            },
            column: point1.column,
        }
    }
}

/// The inverse translation: a local point lifted by an entry's point offset.
/// A local position on the first row is shifted by the offset's column;
/// positions on later rows keep their own column.
pub open spec fn spec_add_point(offset: Point, local: Point) -> Point
    recommends
        offset.row + local.row <= usize::MAX,
        offset.column + local.column <= usize::MAX,
{
    if local.row == 0 {
        Point { row: offset.row, column: (offset.column + local.column) as usize }
    } else {
        Point { row: (offset.row + local.row) as usize, column: local.column }
    }
}

pub fn add_point(offset: &Point, local: &Point) -> (r: Point)
    requires
        offset.row + local.row <= usize::MAX,
        offset.column + local.column <= usize::MAX,
    ensures
        r == spec_add_point(*offset, *local),
{
    if local.row == 0 {
        Point { row: offset.row, column: offset.column + local.column }
    } else {
        Point { row: offset.row + local.row, column: local.column }
    }
}

/// A fixed start/end shift parsed from an `offset!` predicate, used to
/// exclude delimiter characters from an injected span. Offsets are stored in
/// doubled units.
#[derive(Clone, Copy, Debug, PartialEq, Eq, Structural)]
pub struct CaptureOffset {
    pub start_offset: i32,
    pub end_offset: i32,
}

/// Whether shifting `range` by `off` keeps every coordinate within machine
/// bounds; `apply_to_range` is only meaningful under this condition.
pub open spec fn offset_applies(off: CaptureOffset, range: TextRange) -> bool {
    &&& 0 <= range.start_byte + off.start_offset <= usize::MAX
    &&& 0 <= range.end_byte + off.end_offset <= usize::MAX
    &&& 0 <= range.start_point.column + off.start_offset <= usize::MAX
    &&& 0 <= range.end_point.column + off.end_offset <= usize::MAX
}

pub open spec fn spec_apply_offset(off: CaptureOffset, range: TextRange) -> TextRange
    recommends
        offset_applies(off, range),
{
    TextRange {
        start_byte: (range.start_byte + off.start_offset) as usize,
        end_byte: (range.end_byte + off.end_offset) as usize,
        start_point: Point {
            row: range.start_point.row,
            column: (range.start_point.column + off.start_offset) as usize,
        },
        end_point: Point {
            row: range.end_point.row,
            column: (range.end_point.column + off.end_offset) as usize,
        },
    }
}

fn shift_coord(value: usize, off: i32) -> (r: usize)
    requires
        0 <= value + off <= usize::MAX,
    ensures
        r == value + off,
{
    if off >= 0 {
        value + (off as usize)
    } else {
        let magnitude: i64 = -(off as i64);
        value - (magnitude as usize)
    }
}

impl CaptureOffset {
    pub fn new(start_offset: i32, end_offset: i32) -> (r: CaptureOffset)
        ensures
            r == (CaptureOffset { start_offset, end_offset }),
    {
        CaptureOffset { start_offset, end_offset }
    }

    /// Shift a captured range's start and end coordinates by the stored
    /// deltas; rows are unaffected.
    pub fn apply_to_range(&self, range: &TextRange) -> (r: TextRange)
        requires
            offset_applies(*self, *range),
        ensures
            r == spec_apply_offset(*self, *range),
    {
        TextRange {
            start_byte: shift_coord(range.start_byte, self.start_offset),
            end_byte: shift_coord(range.end_byte, self.end_offset),
            start_point: Point {
                row: range.start_point.row,
                column: shift_coord(range.start_point.column, self.start_offset),
            },
            end_point: Point {
                row: range.end_point.row,
                column: shift_coord(range.end_point.column, self.end_offset),
            },
        }
    }
}

} // verus!
