use kcl_langserver::lexer::{line_to_words, LineWord};
use kcl_langserver::location::Location;
use kcl_langserver::position::{kcl_pos_to_lsp_pos, lsp_pos_to_kcl_pos, Position};
use kcl_langserver::refs::{
    find_refs, go_to_def, reference_candidates, word_at_pos, word_in_lines, Declaration,
};
use kcl_langserver::word_map::{match_word, SourceFile, WorkSpaceWordMap};

const INHERIT_K: &str = "schema Parent:\n    name: str\n\nschema Son(Parent):\n    age: int\n    son_name: str = name\n\nschema GrandSon(Son):\n    grand_son_name: str = name\n";
const INHERIT_PKG_K: &str = "import pkg\n\nschema Son(pkg.Parent):\n    son_name: str = name\n";
const SIMPLE_K: &str = "a = 1\nb = a\n";

fn unordered_eq(a: &Vec<Location>, b: &Vec<Location>) -> bool {
    if a.len() != b.len() {
        return false;
    }
    let mut rest: Vec<Location> = b.clone();
    for item in a {
        match rest.iter().position(|e| e == item) {
            Some(i) => {
                rest.remove(i);
            }
            None => return false,
        }
    }
    true
}

fn loc(file: &str, line: u64, start: u64, end: u64) -> Location {
    Location {
        file: file.to_string(),
        start_line: line,
        start_col: start,
        end_line: line,
        end_col: end,
    }
}

fn word(startpos: u64, endpos: u64, word: &str) -> LineWord {
    LineWord { startpos, endpos, word: word.to_string() }
}

fn source(path: &str, text: &str) -> SourceFile {
    SourceFile { path: path.to_string(), text: text.to_string() }
}

fn pos(filename: &str, line: u64, column: Option<u64>) -> Position {
    Position { filename: filename.to_string(), line, column }
}

fn check_line_to_words(code: &str, expect: Vec<LineWord>) {
    assert_eq!(line_to_words(code.to_string()), expect);
}

#[test]
fn test_line_to_words() {
    let datas = vec![
        "alice_first_name = \"alice\"",
        "0lice_first_name = \"alic0\"",
        "alice = p.Parent { name: \"alice\" }",
    ];
    let expect = vec![
        vec![word(0, 16, "alice_first_name"), word(20, 25, "alice")],
        vec![word(20, 25, "alic0")],
        vec![
            word(0, 5, "alice"),
            word(8, 9, "p"),
            word(10, 16, "Parent"),
            word(19, 23, "name"),
            word(26, 31, "alice"),
        ],
    ];
    for i in 0..datas.len() {
        check_line_to_words(datas[i], expect[i].clone());
    }
}

#[test]
fn test_word_at_pos() {
    let path_prefix = "./src/langserver/".to_string();
    let file = path_prefix + "test_data/inherit.k";
    let datas = vec![
        pos(&file, 0, Some(0)),
        pos(&file, 1, Some(5)),
        pos(&file, 3, Some(7)),
        pos(&file, 3, Some(10)),
        pos(&file, 4, Some(8)),
        pos(&file, 4, Some(100)),
    ];
    let expect = vec![
        Some("schema".to_string()),
        Some("name".to_string()),
        Some("Son".to_string()),
        None,
        None,
        None,
    ];
    let text = INHERIT_K.to_string();
    for i in 0..datas.len() {
        assert_eq!(word_at_pos(datas[i].clone(), &text), expect[i]);
    }
}

#[test]
fn test_match_word() {
    let path = "/work/src/langserver/test_data/test_word_workspace".to_string();
    let files = vec![
        source(&(path.clone() + "/inherit_pkg.k"), INHERIT_PKG_K),
        source(&(path.clone() + "/inherit.k"), INHERIT_K),
    ];
    let datas = vec![String::from("Son")];
    let except = vec![vec![
        loc(&(path.clone() + "/inherit_pkg.k"), 2, 7, 10),
        loc(&(path.clone() + "/inherit.k"), 3, 7, 10),
        loc(&(path.clone() + "/inherit.k"), 7, 16, 19),
    ]];
    for i in 0..datas.len() {
        assert!(unordered_eq(&match_word(&files, &datas[i]), &except[i]));
    }
}

#[test]
fn test_word_map() {
    let path = "/work/src/langserver/test_data/test_word_workspace_map".to_string();
    let files = vec![
        source(&(path.clone() + "/inherit_pkg.k"), INHERIT_PKG_K),
        source(&(path.clone() + "/inherit.k"), INHERIT_K),
    ];
    let mut mp = WorkSpaceWordMap::new(path.clone());
    mp.build(&files);
    mp.rename_file(path.clone() + "/inherit_pkg.k", path.clone() + "/inherit_bak.k");
    mp.delete_file(path.clone() + "/inherit.k");
    let except = vec![loc(&(path.clone() + "/inherit_bak.k"), 2, 7, 10)];
    assert_eq!(mp.get(&String::from("Son")), Some(except));
}

#[test]
fn test_go_to_def() {
    let path_prefix = "/work/src/langserver/".to_string();
    let file = path_prefix + "test_data/simple.k";
    // The resolver reports the declaration of `a` in 1-based lines.
    let found = Some(Declaration { start: pos(&file, 1, Some(0)), end: pos(&file, 1, Some(1)) });
    let expect = Some(loc(&file, 0, 0, 1));
    assert_eq!(go_to_def(found), expect);
}

#[test]
fn test_find_refs() {
    let path_prefix = "/work/src/langserver/".to_string();
    let file = path_prefix + "test_data/simple.k";
    let text = SIMPLE_K.to_string();
    let at = pos(&file, 0, Some(0));
    let name = word_at_pos(at, &text).unwrap();
    let files = vec![source(&file, SIMPLE_K)];
    let candidates = match_word(&files, &name);
    let decl = go_to_def(Some(Declaration { start: pos(&file, 1, Some(0)), end: pos(&file, 1, Some(1)) }));
    let resolved: Vec<Option<Location>> = candidates.iter().map(|_| decl.clone()).collect();
    let expect = vec![loc(&file, 0, 0, 1), loc(&file, 1, 4, 5)];
    assert!(unordered_eq(&find_refs(decl, &candidates, &resolved), &expect));
}

#[test]
fn empty_line_has_no_words() {
    assert_eq!(line_to_words(String::new()), vec![]);
    assert_eq!(line_to_words("  = \"\" 123 ".to_string()), vec![]);
}

#[test]
fn trailing_word_is_kept() {
    assert_eq!(line_to_words("x = _y2".to_string()), vec![word(0, 1, "x"), word(4, 7, "_y2")]);
}

#[test]
fn non_ascii_words_count_characters() {
    assert_eq!(line_to_words("é = ab".to_string()), vec![word(0, 1, "é"), word(4, 6, "ab")]);
}

#[test]
fn words_never_overlap() {
    let line = "a.b(c1, 2d, _e_)  f".to_string();
    let ws = line_to_words(line);
    for w in &ws {
        assert!(w.startpos < w.endpos);
    }
    for i in 1..ws.len() {
        assert!(ws[i - 1].endpos <= ws[i].startpos);
    }
    assert_eq!(ws.len(), 5);
}

#[test]
fn position_round_trip() {
    let p = pos("/a.k", 0, Some(3));
    assert_eq!(kcl_pos_to_lsp_pos(lsp_pos_to_kcl_pos(p.clone())), p);
    let q = lsp_pos_to_kcl_pos(pos("/a.k", 7, None));
    assert_eq!(q, pos("/a.k", 8, None));
    assert_eq!(kcl_pos_to_lsp_pos(q), pos("/a.k", 7, None));
}

#[test]
fn word_at_pos_edges() {
    let text = "ab cd\n\nef\r\n".to_string();
    assert_eq!(word_at_pos(pos("/f.k", 0, Some(4)), &text), Some("cd".to_string()));
    assert_eq!(word_at_pos(pos("/f.k", 0, Some(2)), &text), None);
    assert_eq!(word_at_pos(pos("/f.k", 1, Some(0)), &text), None);
    assert_eq!(word_at_pos(pos("/f.k", 2, Some(1)), &text), Some("ef".to_string()));
    assert_eq!(word_at_pos(pos("/f.k", 3, Some(0)), &text), None);
    assert_eq!(word_at_pos(pos("/f.k", 0, None), &text), None);
    let lines = vec!["x y".to_string()];
    assert_eq!(word_in_lines(&lines, 0, Some(2)), Some("y".to_string()));
}

#[test]
fn build_twice_gives_same_index() {
    let files = vec![source("/w/a.k", "a = b\nb = 1\n"), source("/w/c.k", "c = a\n")];
    let mut mp = WorkSpaceWordMap::new("/w".to_string());
    mp.build(&files);
    let first = (mp.get(&"a".to_string()), mp.get(&"b".to_string()), mp.get(&"c".to_string()));
    mp.build(&files);
    let second = (mp.get(&"a".to_string()), mp.get(&"b".to_string()), mp.get(&"c".to_string()));
    assert_eq!(first, second);
    assert_eq!(second.0, Some(vec![loc("/w/a.k", 0, 0, 1), loc("/w/c.k", 0, 4, 5)]));
    assert_eq!(mp.path(), &"/w".to_string());
}

#[test]
fn rename_moves_entries_keeping_ranges() {
    let files = vec![source("/w/a.k", "a = b\n"), source("/w/c.k", "c = a\n")];
    let mut mp = WorkSpaceWordMap::new("/w".to_string());
    mp.build(&files);
    mp.rename_file("/w/a.k".to_string(), "/w/z.k".to_string());
    assert_eq!(mp.get(&"a".to_string()), Some(vec![loc("/w/z.k", 0, 0, 1), loc("/w/c.k", 0, 4, 5)]));
    mp.rename_file("/w/none.k".to_string(), "/w/c.k".to_string());
    assert_eq!(mp.get(&"c".to_string()), Some(vec![loc("/w/c.k", 0, 0, 1)]));
}

#[test]
fn delete_removes_names_of_that_file() {
    let files = vec![source("/w/a.k", "only = 1\n"), source("/w/c.k", "c = 2\n")];
    let mut mp = WorkSpaceWordMap::new("/w".to_string());
    mp.build(&files);
    assert!(mp.get(&"only".to_string()).is_some());
    mp.delete_file("/w/a.k".to_string());
    assert_eq!(mp.get(&"only".to_string()), None);
    assert_eq!(mp.get(&"c".to_string()), Some(vec![loc("/w/c.k", 0, 0, 1)]));
    mp.delete_file("/w/absent.k".to_string());
    assert_eq!(mp.get(&"c".to_string()), Some(vec![loc("/w/c.k", 0, 0, 1)]));
}

#[test]
fn update_replaces_file_entries() {
    let mut mp = WorkSpaceWordMap::new("/w".to_string());
    mp.add_or_update_file(&"/w/a.k".to_string(), &"x = 1\nx\n".to_string());
    mp.add_or_update_file(&"/w/a.k".to_string(), &"y = x\n".to_string());
    assert_eq!(mp.get(&"x".to_string()), Some(vec![loc("/w/a.k", 0, 4, 5)]));
}

#[test]
fn find_refs_across_two_files() {
    let ws = "/w".to_string();
    let inherit = ws.clone() + "/inherit.k";
    let pkg = ws.clone() + "/inherit_pkg.k";
    let files = vec![source(&inherit, "schema Parent:\n\n\nschema Son(Parent):\n"), source(&pkg, "import inherit\n\nx = Son {}\n")];
    let decl = Some(loc(&inherit, 3, 7, 10));
    let candidates = reference_candidates(&decl, pos(&pkg, 2, Some(5)), &files[1].text, &files);
    assert_eq!(candidates.len(), 2);
    let resolved = vec![decl.clone(), decl.clone()];
    let refs = find_refs(decl, &candidates, &resolved);
    assert!(unordered_eq(&refs, &vec![loc(&inherit, 3, 7, 10), loc(&pkg, 2, 4, 7)]));
}

#[test]
fn find_refs_drops_other_bindings() {
    let candidates = vec![loc("/a.k", 0, 0, 1), loc("/a.k", 3, 2, 3), loc("/a.k", 5, 0, 1)];
    let decl = loc("/a.k", 0, 0, 1);
    let resolved = vec![Some(decl.clone()), Some(loc("/a.k", 3, 2, 3)), None];
    assert_eq!(find_refs(Some(decl), &candidates, &resolved), vec![loc("/a.k", 0, 0, 1)]);
    assert_eq!(find_refs(None, &candidates, &resolved), vec![]);
}

#[test]
fn go_to_def_without_column_uses_zero() {
    let found = Some(Declaration { start: pos("/a.k", 3, None), end: pos("/a.k", 4, Some(2)) });
    assert_eq!(
        go_to_def(found),
        Some(Location { file: "/a.k".to_string(), start_line: 2, start_col: 0, end_line: 3, end_col: 2 })
    );
    assert_eq!(go_to_def(None), None);
}

#[test]
fn no_candidates_without_declaration_or_word() {
    let files = vec![source("/a.k", "a = a\n")];
    let decl = Some(loc("/a.k", 0, 0, 1));
    assert_eq!(reference_candidates(&None, pos("/a.k", 0, Some(0)), &files[0].text, &files), vec![]);
    assert_eq!(reference_candidates(&decl, pos("/a.k", 0, Some(2)), &files[0].text, &files), vec![]);
    assert_eq!(
        reference_candidates(&decl, pos("/a.k", 0, Some(4)), &files[0].text, &files),
        vec![loc("/a.k", 0, 0, 1), loc("/a.k", 0, 4, 5)]
    );
}
