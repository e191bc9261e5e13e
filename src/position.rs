use vstd::prelude::*;

verus! {

/// A point in a source file. Depending on where it comes from, `line` is
/// 0-based (protocol side) or 1-based (resolver side).
#[derive(Debug, PartialEq, Eq, Clone)]
pub struct Position {
    pub filename: String,
    pub line: u64,
    pub column: Option<u64>,
}

/// The protocol (0-based) form of a resolver (1-based) position.
pub open spec fn protocol_of(p: Position) -> Position
    recommends
        p.line >= 1,
{
    Position { filename: p.filename, line: (p.line - 1) as u64, column: p.column }
}

/// The resolver (1-based) form of a protocol (0-based) position.
pub open spec fn internal_of(p: Position) -> Position
    recommends
        p.line < u64::MAX,
{
    Position { filename: p.filename, line: (p.line + 1) as u64, column: p.column }
}

/// Converts a resolver position to the protocol convention.
pub fn kcl_pos_to_lsp_pos(pos: Position) -> (r: Position)
    requires
        pos.line >= 1,
    ensures
        r == protocol_of(pos),
        r.line == pos.line - 1,
{
    Position { filename: pos.filename, line: pos.line - 1, column: pos.column }
}

/// Converts a protocol position to the resolver convention.
pub fn lsp_pos_to_kcl_pos(pos: Position) -> (r: Position)
    requires
        pos.line < u64::MAX,
    ensures
        r == internal_of(pos),
        r.line == pos.line + 1,
{
    Position { filename: pos.filename, line: pos.line + 1, column: pos.column }
}

/// Converting a protocol position to the resolver convention and back
/// gives the position that was started from.
pub proof fn lemma_position_round_trip(p: Position)
    requires
        p.line < u64::MAX,
    ensures
        protocol_of(internal_of(p)) == p,
{
}

/// Converting a resolver position to the protocol convention and back
/// gives the position that was started from.
pub proof fn lemma_position_round_trip_internal(p: Position)
    requires
        p.line >= 1,
    ensures
        internal_of(protocol_of(p)) == p,
{
}

} // verus!
