use vstd::prelude::*;

use crate::position::{Position, Range};

verus! {

/// Where a parse or analysis failure was reported: a single point, or an
/// area between two (line, column) points.
#[derive(Clone, Copy, PartialEq, Eq, Structural, Debug)]
pub enum ErrorLoc {
    Point(usize, usize),
    Area(Position, Position),
}

/// A parse/analysis failure with its location and message, produced in
/// place of a document when indexing fails.
#[derive(Clone, Debug)]
pub struct DiagnosticError {
    pub loc: ErrorLoc,
    pub message: String,
}

/// A positioned diagnostic as published to the editor.
#[derive(Clone, Debug)]
pub struct Diagnostic {
    pub range: Range,
    pub message: String,
}

/// The range a failure location maps to: a point becomes the one-column
/// range starting at it; an area keeps its two end points.
pub open spec fn range_of_loc(loc: ErrorLoc) -> Range {
    match loc {
        ErrorLoc::Point(line, col) => Range {
            start: Position { line, col },
            end: Position { line, col: (col + 1) as usize },
        },
        ErrorLoc::Area(lo, hi) => Range { start: lo, end: hi },
    }
}

/// Builds the single positioned diagnostic a failed parse publishes.
pub fn diagnostic_of(err: DiagnosticError) -> (d: Diagnostic)
    requires
        err.loc matches ErrorLoc::Point(line, col) ==> col < usize::MAX,
    ensures
        d.range == range_of_loc(err.loc),
        d.message@ == err.message@,
{
    let range = match err.loc {
        ErrorLoc::Point(line, col) => Range {
            start: Position { line, col },
            end: Position { line, col: col + 1 },
        },
        ErrorLoc::Area(lo, hi) => Range { start: lo, end: hi },
    };
    Diagnostic { range, message: err.message }
}

} // verus!
