use vstd::prelude::*;
use crate::lexer::{LineWord, WordSpan};
use crate::position::Position;

verus! {

/// A span in a file, 0-based (protocol convention), half-open.
#[derive(Debug, Clone)]
pub struct Location {
    pub file: String,
    pub start_line: u64,
    pub start_col: u64,
    pub end_line: u64,
    pub end_col: u64,
}

/// A location as a mathematical value.
pub struct LocView {
    pub file: Seq<char>,
    pub start_line: int,
    pub start_col: int,
    pub end_line: int,
    pub end_col: int,
}

impl View for Location {
    type V = LocView;

    open spec fn view(&self) -> LocView {
        LocView {
            file: self.file@,
            start_line: self.start_line as int,
            start_col: self.start_col as int,
            end_line: self.end_line as int,
            end_col: self.end_col as int,
        }
    }
}

impl PartialEq for Location {
    fn eq(&self, o: &Location) -> (r: bool) {
        self.file == o.file && self.start_line == o.start_line && self.start_col == o.start_col
            && self.end_line == o.end_line && self.end_col == o.end_col
    }
}

impl vstd::std_specs::cmp::PartialEqSpecImpl for Location {
    open spec fn obeys_eq_spec() -> bool {
        true
    }

    open spec fn eq_spec(&self, o: &Location) -> bool {
        self@ == o@
    }
}

impl Eq for Location {
}

impl Location {
    /// A copy of this location.
    pub fn copied(&self) -> (r: Location)
        ensures
            r@ == self@,
    {
        Location {
            file: self.file.clone(),
            start_line: self.start_line,
            start_col: self.start_col,
            end_line: self.end_line,
            end_col: self.end_col,
        }
    }
}

/// The location of a word on line `line` of file `file`.
pub open spec fn word_location(file: Seq<char>, line: int, w: WordSpan) -> LocView {
    LocView { file, start_line: line, start_col: w.start, end_line: line, end_col: w.end }
}

/// The location of a word found on line `line` of `filename`.
pub fn lineword_to_location(filename: String, line: u64, word: LineWord) -> (r: Location)
    ensures
        r@ == word_location(filename@, line as int, word@),
{
    Location {
        file: filename,
        start_line: line,
        start_col: word.startpos,
        end_line: line,
        end_col: word.endpos,
    }
}

/// The empty span at a position that has a column.
pub fn position_to_location(pos: Position) -> (r: Location)
    requires
        pos.column is Some,
    ensures
        r@ == (LocView {
            file: pos.filename@,
            start_line: pos.line as int,
            start_col: pos.column->0 as int,
            end_line: pos.line as int,
            end_col: pos.column->0 as int,
        }),
{
    let col = match pos.column {
        Some(c) => c,
        None => 0,
    };
    Location { file: pos.filename, start_line: pos.line, start_col: col, end_line: pos.line, end_col: col }
}

/// The position at which a location starts.
pub fn location_to_position(loc: Location) -> (r: Position)
    ensures
        r.filename@ == loc.file@,
        r.line == loc.start_line,
        r.column == Some(loc.start_col),
{
    Position { filename: loc.file, line: loc.start_line, column: Some(loc.start_col) }
}

} // verus!
