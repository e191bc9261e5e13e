use vstd::prelude::*;
use crate::lexer::{WordSpan, words_disjoint, line_to_words, lines_of, text_lines, words_of, words_view};
use crate::location::{LocView, Location};
use crate::position::{Position, kcl_pos_to_lsp_pos};
use crate::word_map::{SourceFile, locs_view, match_word, scan_entries, select};

verus! {

/// The text of the word of `ws` that covers column `col`, if one does.
pub open spec fn word_covering(ws: Seq<WordSpan>, col: int) -> Option<Seq<char>> {
    if exists|k: int| 0 <= k < ws.len() && ws[k].start <= col < (#[trigger] ws[k]).end {
        let k = choose|k: int| 0 <= k < ws.len() && ws[k].start <= col < (#[trigger] ws[k]).end;
        Some(ws[k].text)
    } else {
        None
    }
}

/// The word at line `line`, column `column` of a file with the given lines.
pub open spec fn word_at(lines: Seq<Seq<char>>, line: int, column: Option<u64>) -> Option<Seq<char>> {
    if 0 <= line < lines.len() && column is Some {
        word_covering(words_of(lines[line]), column->0 as int)
    } else {
        None
    }
}

pub open spec fn opt_string_view(o: Option<String>) -> Option<Seq<char>> {
    match o {
        Some(s) => Some(s@),
        None => None,
    }
}

pub open spec fn opt_loc_view(o: Option<Location>) -> Option<LocView> {
    match o {
        Some(l) => Some(l@),
        None => None,
    }
}

/// The word of a line that covers column `col`.
fn word_in_line(line: &String, col: u64) -> (r: Option<String>)
    ensures
        opt_string_view(r) == word_covering(words_of(line@), col as int),
{
    let ghost n = line@.len() as int;
    let ghost lv = line@;
    let words = line_to_words(line.clone());
    let ghost ws = words_view(words@);
    let mut i: usize = 0;
    while i < words.len()
        invariant
            i <= words@.len(),
            ws == words_view(words@),
            words_disjoint(ws, 0, n),
            lv == line@,
            ws == words_of(lv),
            forall|k: int| 0 <= k < i ==> !(ws[k].start <= col < (#[trigger] ws[k]).end),
        decreases words.len() - i,
    {
        if words[i].startpos <= col && col < words[i].endpos {
            proof {
                assert(ws[i as int].start <= col < ws[i as int].end);
                let k = choose|k: int| 0 <= k < ws.len() && ws[k].start <= col < (#[trigger] ws[k]).end;
                if k != i {
                    if k < i {
                        assert(ws[k].end <= ws[i as int].start);
                    } else {
                        assert(ws[i as int].end <= ws[k].start);
                    }
                }
                assert(k == i);
                assert(word_covering(ws, col as int) == Some(ws[i as int].text));
            }
            let w = words[i].word.clone();
            assert(ws[i as int].text == words@[i as int].word@);
            return Some(w);
        }
        i = i + 1;
    }
    None
}

/// The word at line `line`, column `column` of a file split into lines.
pub fn word_in_lines(lines: &Vec<String>, line: u64, column: Option<u64>) -> (r: Option<String>)
    ensures
        opt_string_view(r) == word_at(lines@.map_values(|l: String| l@), line as int, column),
{
    let ghost ls = lines@.map_values(|l: String| l@);
    if line >= lines.len() as u64 {
        return None;
    }
    let col = match column {
        Some(c) => c,
        None => {
            return None;
        },
    };
    assert(ls[line as int] == lines@[line as int]@);
    word_in_line(&lines[line as usize], col)
}

/// The word at a position of a file with contents `text`: the word of the
/// position's line that covers its column.
pub fn word_at_pos(pos: Position, text: &String) -> (r: Option<String>)
    ensures
        opt_string_view(r) == word_at(lines_of(text@), pos.line as int, pos.column),
{
    let lines = text_lines(text.as_str());
    word_in_lines(&lines, pos.line, pos.column)
}

/// A declaration found by the resolver, in resolver (1-based) lines.
#[derive(Debug, Clone)]
pub struct Declaration {
    pub start: Position,
    pub end: Position,
}

/// The protocol location of a declaration; a missing column counts as 0.
pub open spec fn declaration_location(d: Declaration) -> LocView {
    LocView {
        file: d.start.filename@,
        start_line: d.start.line - 1,
        start_col: match d.start.column { Some(c) => c as int, None => 0 },
        end_line: d.end.line - 1,
        end_col: match d.end.column { Some(c) => c as int, None => 0 },
    }
}

/// The definition of an identifier, from what the resolver found for it.
pub fn go_to_def(found: Option<Declaration>) -> (r: Option<Location>)
    requires
        found matches Some(d) ==> d.start.line >= 1 && d.end.line >= 1,
    ensures
        opt_loc_view(r) == match found {
            Some(d) => Some(declaration_location(d)),
            None => None,
        },
{
    match found {
        Some(d) => {
            let start = kcl_pos_to_lsp_pos(d.start);
            let end = kcl_pos_to_lsp_pos(d.end);
            let start_col = match start.column {
                Some(c) => c,
                None => 0,
            };
            let end_col = match end.column {
                Some(c) => c,
                None => 0,
            };
            Some(
                Location {
                    file: start.filename,
                    start_line: start.line,
                    start_col,
                    end_line: end.line,
                    end_col,
                },
            )
        },
        None => None,
    }
}

/// The candidates whose own declaration is `decl`, in order.
pub open spec fn refs_of(decl: LocView, cands: Seq<LocView>, resolved: Seq<Option<LocView>>) -> Seq<LocView>
    decreases cands.len(),
{
    if cands.len() == 0 || resolved.len() != cands.len() {
        Seq::empty()
    } else {
        refs_of(decl, cands.drop_last(), resolved.drop_last()) + if resolved.last() == Some(decl) {
            seq![cands.last()]
        } else {
            Seq::empty()
        }
    }
}

/// The references of a declaration: of the textual candidates, those whose
/// own declaration (`resolved`, one for each candidate) is `declaration`.
/// Without a declaration there are none.
pub fn find_refs(
    declaration: Option<Location>,
    candidates: &Vec<Location>,
    resolved: &Vec<Option<Location>>,
) -> (r: Vec<Location>)
    requires
        resolved@.len() == candidates@.len(),
    ensures
        locs_view(r@) == match declaration {
            Some(d) => refs_of(
                d@,
                locs_view(candidates@),
                resolved@.map_values(|o: Option<Location>| opt_loc_view(o)),
            ),
            None => Seq::empty(),
        },
{
    let decl = match declaration {
        Some(d) => d,
        None => {
            return Vec::new();
        },
    };
    let ghost cs = locs_view(candidates@);
    let ghost rs = resolved@.map_values(|o: Option<Location>| opt_loc_view(o));
    let mut r: Vec<Location> = Vec::new();
    let mut i: usize = 0;
    while i < candidates.len()
        invariant
            i <= candidates@.len(),
            resolved@.len() == candidates@.len(),
            cs == locs_view(candidates@),
            rs == resolved@.map_values(|o: Option<Location>| opt_loc_view(o)),
            locs_view(r@) == refs_of(decl@, cs.subrange(0, i as int), rs.subrange(0, i as int)),
        decreases candidates.len() - i,
    {
        let ghost pre = r@;
        proof {
            assert(cs.subrange(0, i + 1).drop_last() == cs.subrange(0, i as int));
            assert(rs.subrange(0, i + 1).drop_last() == rs.subrange(0, i as int));
            assert(rs[i as int] == opt_loc_view(resolved@[i as int]));
        }
        let keep = match &resolved[i] {
            Some(d) => *d == decl,
            None => false,
        };
        if keep {
            r.push(candidates[i].copied());
        }
        proof {
            assert(locs_view(r@) =~= refs_of(decl@, cs.subrange(0, i + 1), rs.subrange(0, i + 1)));
        }
        i = i + 1;
    }
    proof {
        assert(cs.subrange(0, cs.len() as int) == cs);
        assert(rs.subrange(0, rs.len() as int) == rs);
    }
    r
}

/// The textual candidates for the references of the identifier at `pos`
/// (whose file holds `text`): every occurrence of its spelling in `files`.
/// There are none when the position has no declaration or is not on a word.
pub fn reference_candidates(
    declaration: &Option<Location>,
    pos: Position,
    text: &String,
    files: &Vec<SourceFile>,
) -> (r: Vec<Location>)
    ensures
        locs_view(r@) == match (declaration, word_at(lines_of(text@), pos.line as int, pos.column)) {
            (Some(_), Some(name)) => select(scan_entries(files@), name),
            _ => Seq::empty(),
        },
{
    if declaration.is_none() {
        return Vec::new();
    }
    match word_at_pos(pos, text) {
        Some(name) => match_word(files, &name),
        None => Vec::new(),
    }
}

} // verus!
