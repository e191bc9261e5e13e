use vstd::prelude::*;
use crate::lexer::{WordSpan, line_to_words, lines_of, text_lines, words_of, words_view};
use crate::location::{LocView, Location, word_location};

verus! {

/// One occurrence of a word in the workspace.
pub struct WordEntry {
    pub name: String,
    pub loc: Location,
}

/// An occurrence as a mathematical value.
pub struct EntryView {
    pub name: Seq<char>,
    pub loc: LocView,
}

impl WordEntry {
    /// A copy of this occurrence.
    pub fn copied(&self) -> (r: WordEntry)
        ensures
            r@ == self@,
    {
        WordEntry { name: self.name.clone(), loc: self.loc.copied() }
    }
}

impl View for WordEntry {
    type V = EntryView;

    open spec fn view(&self) -> EntryView {
        EntryView { name: self.name@, loc: self.loc@ }
    }
}

pub open spec fn entries_view(es: Seq<WordEntry>) -> Seq<EntryView> {
    es.map_values(|e: WordEntry| e@)
}

pub open spec fn locs_view(ls: Seq<Location>) -> Seq<LocView> {
    ls.map_values(|l: Location| l@)
}

/// A source file of the workspace: its path and its contents.
pub struct SourceFile {
    pub path: String,
    pub text: String,
}

/// The occurrences of the words of one line.
pub open spec fn line_entries(file: Seq<char>, line: int, ws: Seq<WordSpan>) -> Seq<EntryView> {
    ws.map_values(|w: WordSpan| EntryView { name: w.text, loc: word_location(file, line, w) })
}

/// The occurrences of the words of the given lines of a file.
pub open spec fn lines_entries(file: Seq<char>, lines: Seq<Seq<char>>) -> Seq<EntryView>
    decreases lines.len(),
{
    if lines.len() == 0 {
        Seq::empty()
    } else {
        lines_entries(file, lines.drop_last()) + line_entries(
            file,
            lines.len() - 1,
            words_of(lines.last()),
        )
    }
}

/// The occurrences of the words of a file, line by line.
pub open spec fn file_entries(file: Seq<char>, text: Seq<char>) -> Seq<EntryView> {
    lines_entries(file, lines_of(text))
}

/// The occurrences of the words of all given files, file by file.
pub open spec fn scan_entries(files: Seq<SourceFile>) -> Seq<EntryView>
    decreases files.len(),
{
    if files.len() == 0 {
        Seq::empty()
    } else {
        scan_entries(files.drop_last()) + file_entries(files.last().path@, files.last().text@)
    }
}

/// The locations of the occurrences of `name`, in order.
pub open spec fn select(es: Seq<EntryView>, name: Seq<char>) -> Seq<LocView>
    decreases es.len(),
{
    if es.len() == 0 {
        Seq::empty()
    } else {
        select(es.drop_last(), name) + if es.last().name == name {
            seq![es.last().loc]
        } else {
            Seq::empty()
        }
    }
}

/// The occurrences that do not lie in file `p`.
pub open spec fn drop_file(es: Seq<EntryView>, p: Seq<char>) -> Seq<EntryView>
    decreases es.len(),
{
    if es.len() == 0 {
        Seq::empty()
    } else {
        drop_file(es.drop_last(), p) + if es.last().loc.file == p {
            Seq::empty()
        } else {
            seq![es.last()]
        }
    }
}

/// A location with file `old` moved to file `new`; others are kept.
pub open spec fn relabel_loc(l: LocView, old: Seq<char>, new: Seq<char>) -> LocView {
    if l.file == old {
        LocView { file: new, ..l }
    } else {
        l
    }
}

/// The occurrences with file `old` moved to file `new`.
pub open spec fn relabel(es: Seq<EntryView>, old: Seq<char>, new: Seq<char>) -> Seq<EntryView>
    decreases es.len(),
{
    if es.len() == 0 {
        Seq::empty()
    } else {
        relabel(es.drop_last(), old, new).push(
            EntryView { name: es.last().name, loc: relabel_loc(es.last().loc, old, new) },
        )
    }
}

/// Whether some occurrence lies in file `p`.
pub open spec fn has_file(es: Seq<EntryView>, p: Seq<char>) -> bool {
    exists|k: int| 0 <= k < es.len() && (#[trigger] es[k]).loc.file == p
}

/// The index after renaming file `old` to `new`: the entries of `old` move
/// to `new`, whose own entries are replaced; nothing changes when `old`
/// holds no entry.
pub open spec fn renamed(es: Seq<EntryView>, old: Seq<char>, new: Seq<char>) -> Seq<EntryView> {
    if old != new && has_file(es, old) {
        relabel(drop_file(es, new), old, new)
    } else {
        es
    }
}

/// The index after (re)reading file `p` with contents `text`.
pub open spec fn updated(es: Seq<EntryView>, p: Seq<char>, text: Seq<char>) -> Seq<EntryView> {
    drop_file(es, p) + file_entries(p, text)
}

/// The index built from the given files, read in order.
pub open spec fn built(files: Seq<SourceFile>) -> Seq<EntryView>
    decreases files.len(),
{
    if files.len() == 0 {
        Seq::empty()
    } else {
        updated(built(files.drop_last()), files.last().path@, files.last().text@)
    }
}

/// Appends the occurrences of the words of a file to `out`.
fn push_file_entries(path: &String, text: &String, out: &mut Vec<WordEntry>)
    ensures
        entries_view(final(out)@) == entries_view(old(out)@) + file_entries(path@, text@),
{
    let lines = text_lines(text.as_str());
    let ghost ls = lines@.map_values(|l: String| l@);
    let ghost base = entries_view(out@);
    let mut li: usize = 0;
    while li < lines.len()
        invariant
            li <= lines@.len(),
            ls == lines@.map_values(|l: String| l@),
            ls == lines_of(text@),
            entries_view(out@) == base + lines_entries(path@, ls.subrange(0, li as int)),
        decreases lines.len() - li,
    {
        let words = line_to_words(lines[li].clone());
        let ghost ws = words_view(words@);
        let ghost mid = entries_view(out@);
        let mut wi: usize = 0;
        while wi < words.len()
            invariant
                wi <= words@.len(),
                ws == words_view(words@),
                entries_view(out@) == mid + line_entries(path@, li as int, ws.subrange(0, wi as int)),
            decreases words.len() - wi,
        {
            let w = &words[wi];
            let e = WordEntry {
                name: w.word.clone(),
                loc: Location {
                    file: path.clone(),
                    start_line: li as u64,
                    start_col: w.startpos,
                    end_line: li as u64,
                    end_col: w.endpos,
                },
            };
            let ghost pre = out@;
            let ghost ev = e@;
            out.push(e);
            proof {
                assert(ws.subrange(0, wi + 1) == ws.subrange(0, wi as int).push(ws[wi as int]));
                assert(line_entries(path@, li as int, ws.subrange(0, wi + 1)) =~= line_entries(
                    path@,
                    li as int,
                    ws.subrange(0, wi as int),
                ).push(ev));
                assert(entries_view(out@) =~= entries_view(pre).push(ev));
            }
            wi = wi + 1;
        }
        proof {
            assert(ws.subrange(0, ws.len() as int) == ws);
            let sub = ls.subrange(0, li + 1);
            assert(sub.drop_last() == ls.subrange(0, li as int));
            assert(sub.last() == lines@[li as int]@);
        }
        li = li + 1;
    }
    proof {
        assert(ls.subrange(0, ls.len() as int) == ls);
    }
}

/// The locations of the occurrences of `name`, in order.
fn select_entries(es: &Vec<WordEntry>, name: &String) -> (r: Vec<Location>)
    ensures
        locs_view(r@) == select(entries_view(es@), name@),
{
    let ghost ev = entries_view(es@);
    let mut r: Vec<Location> = Vec::new();
    let mut i: usize = 0;
    while i < es.len()
        invariant
            i <= es@.len(),
            ev == entries_view(es@),
            locs_view(r@) == select(ev.subrange(0, i as int), name@),
        decreases es.len() - i,
    {
        let ghost pre = r@;
        if es[i].name == *name {
            r.push(es[i].loc.copied());
        }
        proof {
            let sub = ev.subrange(0, i + 1);
            assert(sub.drop_last() == ev.subrange(0, i as int));
            assert(sub.last() == es@[i as int]@);
            assert(locs_view(r@) =~= select(sub, name@));
        }
        i = i + 1;
    }
    proof {
        assert(ev.subrange(0, ev.len() as int) == ev);
    }
    r
}

/// The occurrences that do not lie in file `p`.
fn drop_file_entries(es: &Vec<WordEntry>, p: &String) -> (r: Vec<WordEntry>)
    ensures
        entries_view(r@) == drop_file(entries_view(es@), p@),
{
    let ghost ev = entries_view(es@);
    let mut r: Vec<WordEntry> = Vec::new();
    let mut i: usize = 0;
    while i < es.len()
        invariant
            i <= es@.len(),
            ev == entries_view(es@),
            entries_view(r@) == drop_file(ev.subrange(0, i as int), p@),
        decreases es.len() - i,
    {
        let ghost pre = r@;
        proof {
            let sub = ev.subrange(0, i + 1);
            assert(sub.drop_last() == ev.subrange(0, i as int));
            assert(sub.last() == es@[i as int]@);
        }
        if es[i].loc.file != *p {
            let e = es[i].copied();
            r.push(e);
            assert(entries_view(r@) =~= entries_view(pre).push(es@[i as int]@));
        }
        proof {
            let sub = ev.subrange(0, i + 1);
            assert(entries_view(r@) =~= drop_file(sub, p@));
        }
        i = i + 1;
    }
    proof {
        assert(ev.subrange(0, ev.len() as int) == ev);
    }
    r
}

/// The occurrences with file `old` moved to file `new`.
fn relabel_entries(es: &Vec<WordEntry>, old: &String, new: &String) -> (r: Vec<WordEntry>)
    ensures
        entries_view(r@) == relabel(entries_view(es@), old@, new@),
{
    let ghost ev = entries_view(es@);
    let mut r: Vec<WordEntry> = Vec::new();
    let mut i: usize = 0;
    while i < es.len()
        invariant
            i <= es@.len(),
            ev == entries_view(es@),
            entries_view(r@) == relabel(ev.subrange(0, i as int), old@, new@),
        decreases es.len() - i,
    {
        proof {
            let sub = ev.subrange(0, i + 1);
            assert(sub.drop_last() == ev.subrange(0, i as int));
            assert(sub.last() == es@[i as int]@);
        }
        let mut e = es[i].copied();
        if e.loc.file == *old {
            e.loc.file = new.clone();
        }
        let ghost pre = r@;
        let ghost ev_e = e@;
        r.push(e);
        proof {
            let sub = ev.subrange(0, i + 1);
            assert(entries_view(r@) =~= entries_view(pre).push(ev_e));
            assert(entries_view(r@) =~= relabel(sub, old@, new@));
        }
        i = i + 1;
    }
    proof {
        assert(ev.subrange(0, ev.len() as int) == ev);
    }
    r
}

/// Whether some occurrence lies in file `p`.
fn has_file_entries(es: &Vec<WordEntry>, p: &String) -> (r: bool)
    ensures
        r == has_file(entries_view(es@), p@),
{
    let ghost ev = entries_view(es@);
    let mut i: usize = 0;
    while i < es.len()
        invariant
            i <= es@.len(),
            ev == entries_view(es@),
            forall|k: int| 0 <= k < i ==> (#[trigger] ev[k]).loc.file != p@,
        decreases es.len() - i,
    {
        if es[i].loc.file == *p {
            assert(ev[i as int].loc.file == p@);
            return true;
        }
        i = i + 1;
    }
    false
}

/// Every occurrence of `name` in the given files: each line of each file is
/// split into words, and the words spelled `name` are returned, file by
/// file and line by line.
pub fn match_word(files: &Vec<SourceFile>, name: &String) -> (r: Vec<Location>)
    ensures
        locs_view(r@) == select(scan_entries(files@), name@),
{
    let mut es: Vec<WordEntry> = Vec::new();
    let mut i: usize = 0;
    while i < files.len()
        invariant
            i <= files@.len(),
            entries_view(es@) == scan_entries(files@.subrange(0, i as int)),
        decreases files.len() - i,
    {
        push_file_entries(&files[i].path, &files[i].text, &mut es);
        proof {
            let sub = files@.subrange(0, i + 1);
            assert(sub.drop_last() == files@.subrange(0, i as int));
        }
        i = i + 1;
    }
    proof {
        assert(files@.subrange(0, files@.len() as int) == files@);
    }
    select_entries(&es, name)
}

/// The word index of a workspace: every occurrence of every word in the
/// files it was told about, kept up to date as files are added, renamed and
/// deleted.
pub struct WorkSpaceWordMap {
    path: String,
    entries: Vec<WordEntry>,
}

impl View for WorkSpaceWordMap {
    type V = Seq<EntryView>;

    closed spec fn view(&self) -> Seq<EntryView> {
        entries_view(self.entries@)
    }
}

impl WorkSpaceWordMap {
    /// The root directory of the workspace.
    pub closed spec fn root(&self) -> Seq<char> {
        self.path@
    }

    /// The root directory of the workspace.
    pub fn path(&self) -> (r: &String)
        ensures
            r@ == self.root(),
    {
        &self.path
    }

    /// No two occurrences of the index share a location.
    pub open spec fn well_formed(&self) -> bool {
        locs_distinct(self@)
    }

    /// An empty index for the workspace rooted at `path`.
    pub fn new(path: String) -> (r: WorkSpaceWordMap)
        ensures
            r@.len() == 0,
            r.well_formed(),
            r.root() == path@,
    {
        WorkSpaceWordMap { path, entries: Vec::new() }
    }

    /// Replaces the contents by the occurrences of the given files. The
    /// result depends on the files alone, so building twice from the same
    /// files gives the same index.
    pub fn build(&mut self, files: &Vec<SourceFile>)
        ensures
            final(self)@ == built(files@),
            final(self).well_formed(),
            final(self).root() == old(self).root(),
    {
        self.entries = Vec::new();
        let mut i: usize = 0;
        while i < files.len()
            invariant
                i <= files@.len(),
                self@ == built(files@.subrange(0, i as int)),
                self.well_formed(),
                self.root() == old(self).root(),
            decreases files.len() - i,
        {
            self.add_or_update_file(&files[i].path, &files[i].text);
            proof {
                let sub = files@.subrange(0, i + 1);
                assert(sub.drop_last() == files@.subrange(0, i as int));
            }
            i = i + 1;
        }
        proof {
            assert(files@.subrange(0, files@.len() as int) == files@);
        }
    }

    /// Reads file `path` anew: its earlier occurrences are replaced by those
    /// of `text`.
    pub fn add_or_update_file(&mut self, path: &String, text: &String)
        requires
            old(self).well_formed(),
        ensures
            final(self)@ == updated(old(self)@, path@, text@),
            final(self).well_formed(),
            final(self).root() == old(self).root(),
    {
        proof {
            lemma_updated_distinct(self@, path@, text@);
        }
        let mut kept = drop_file_entries(&self.entries, path);
        push_file_entries(path, text, &mut kept);
        self.entries = kept;
    }

    /// Moves the occurrences of file `old_path` to `new_path`, ranges
    /// unchanged; earlier occurrences in `new_path` go. Nothing changes when
    /// `old_path` holds no occurrence.
    pub fn rename_file(&mut self, old_path: String, new_path: String)
        requires
            old(self).well_formed(),
        ensures
            final(self)@ == renamed(old(self)@, old_path@, new_path@),
            final(self).well_formed(),
            final(self).root() == old(self).root(),
    {
        if old_path == new_path || !has_file_entries(&self.entries, &old_path) {
            return;
        }
        proof {
            lemma_drop_file_distinct(self@, new_path@);
            lemma_relabel_distinct(drop_file(self@, new_path@), old_path@, new_path@);
        }
        let kept = drop_file_entries(&self.entries, &new_path);
        self.entries = relabel_entries(&kept, &old_path, &new_path);
    }

    /// Removes every occurrence in file `path`.
    pub fn delete_file(&mut self, path: String)
        requires
            old(self).well_formed(),
        ensures
            final(self)@ == drop_file(old(self)@, path@),
            final(self).well_formed(),
            final(self).root() == old(self).root(),
    {
        proof {
            lemma_drop_file_distinct(self@, path@);
        }
        self.entries = drop_file_entries(&self.entries, &path);
    }

    /// The locations of the occurrences of `name`, in order; `None` when
    /// there is none.
    pub fn get(&self, name: &String) -> (r: Option<Vec<Location>>)
        ensures
            match r {
                Some(v) => locs_view(v@) == select(self@, name@) && v@.len() > 0,
                None => select(self@, name@).len() == 0,
            },
    {
        let v = select_entries(&self.entries, name);
        if v.len() == 0 {
            None
        } else {
            Some(v)
        }
    }
}

/// The locations that do not lie in file `p`.
pub open spec fn drop_locs(ls: Seq<LocView>, p: Seq<char>) -> Seq<LocView>
    decreases ls.len(),
{
    if ls.len() == 0 {
        Seq::empty()
    } else {
        drop_locs(ls.drop_last(), p) + if ls.last().file == p {
            Seq::empty()
        } else {
            seq![ls.last()]
        }
    }
}

proof fn lemma_select_push(es: Seq<EntryView>, e: EntryView, name: Seq<char>)
    ensures
        select(es.push(e), name) == select(es, name) + if e.name == name {
            seq![e.loc]
        } else {
            Seq::empty()
        },
{
    assert(es.push(e).drop_last() == es);
}

proof fn lemma_select_relabel(es: Seq<EntryView>, old: Seq<char>, new: Seq<char>, name: Seq<char>)
    ensures
        select(relabel(es, old, new), name) == select(es, name).map_values(
            |l: LocView| relabel_loc(l, old, new),
        ),
    decreases es.len(),
{
    if es.len() > 0 {
        lemma_select_relabel(es.drop_last(), old, new, name);
        let e = es.last();
        lemma_select_push(
            relabel(es.drop_last(), old, new),
            EntryView { name: e.name, loc: relabel_loc(e.loc, old, new) },
            name,
        );
        assert(select(relabel(es, old, new), name) =~= select(es, name).map_values(
            |l: LocView| relabel_loc(l, old, new),
        ));
    } else {
        assert(select(es, name).map_values(|l: LocView| relabel_loc(l, old, new)) =~= Seq::empty());
    }
}

proof fn lemma_select_drop(es: Seq<EntryView>, p: Seq<char>, name: Seq<char>)
    ensures
        select(drop_file(es, p), name) == drop_locs(select(es, name), p),
    decreases es.len(),
{
    if es.len() > 0 {
        lemma_select_drop(es.drop_last(), p, name);
        let e = es.last();
        let d = drop_file(es.drop_last(), p);
        if e.loc.file != p {
            assert(drop_file(es, p) == d.push(e));
            lemma_select_push(d, e, name);
        } else {
            assert(drop_file(es, p) == d);
        }
        let sl = select(es, name);
        if e.name == name {
            assert(sl.drop_last() == select(es.drop_last(), name));
            assert(sl.last() == e.loc);
        } else {
            assert(sl == select(es.drop_last(), name));
        }
    }
}

proof fn lemma_drop_locs_keeps(ls: Seq<LocView>, p: Seq<char>, k: int)
    requires
        0 <= k < ls.len(),
        ls[k].file != p,
    ensures
        drop_locs(ls, p).contains(ls[k]),
    decreases ls.len(),
{
    let d = drop_locs(ls.drop_last(), p);
    if k == ls.len() - 1 {
        assert(drop_locs(ls, p)[d.len() as int] == ls[k]);
    } else {
        lemma_drop_locs_keeps(ls.drop_last(), p, k);
        let m = choose|m: int| 0 <= m < d.len() && d[m] == ls[k];
        assert(drop_locs(ls, p)[m] == ls[k]);
    }
}

proof fn lemma_drop_locs_all(ls: Seq<LocView>, p: Seq<char>)
    requires
        forall|k: int| 0 <= k < ls.len() ==> (#[trigger] ls[k]).file == p,
    ensures
        drop_locs(ls, p).len() == 0,
    decreases ls.len(),
{
    if ls.len() > 0 {
        lemma_drop_locs_all(ls.drop_last(), p);
    }
}

proof fn lemma_select_from(es: Seq<EntryView>, name: Seq<char>, k: int)
    requires
        0 <= k < select(es, name).len(),
    ensures
        exists|j: int| 0 <= j < es.len() && (#[trigger] es[j]).loc == select(es, name)[k],
    decreases es.len(),
{
    let d = select(es.drop_last(), name);
    if k < d.len() {
        lemma_select_from(es.drop_last(), name, k);
        let j = choose|j: int| 0 <= j < es.drop_last().len() && (#[trigger] es.drop_last()[j]).loc == d[k];
        assert(es[j] == es.drop_last()[j]);
    } else {
        assert(es[es.len() - 1].loc == select(es, name)[k]);
    }
}

/// After renaming file `old` to `new`, every occurrence of `name` that lay
/// in `old` is found in `new`, with the same range.
pub proof fn lemma_rename_moves_occurrences(
    es: Seq<EntryView>,
    old: Seq<char>,
    new: Seq<char>,
    name: Seq<char>,
    k: int,
)
    requires
        0 <= k < select(es, name).len(),
        select(es, name)[k].file == old,
    ensures
        select(renamed(es, old, new), name).contains(
            LocView { file: new, ..select(es, name)[k] },
        ),
{
    let l = select(es, name)[k];
    lemma_select_from(es, name, k);
    if old == new {
        assert(LocView { file: new, ..l } == l);
        assert(select(renamed(es, old, new), name)[k] == l);
    } else {
        let j = choose|j: int| 0 <= j < es.len() && (#[trigger] es[j]).loc == l;
        assert(has_file(es, old));
        lemma_select_relabel(drop_file(es, new), old, new, name);
        lemma_select_drop(es, new, name);
        lemma_drop_locs_keeps(select(es, name), new, k);
        let d = drop_locs(select(es, name), new);
        let m = choose|m: int| 0 <= m < d.len() && d[m] == l;
        assert(select(renamed(es, old, new), name)[m] == relabel_loc(l, old, new));
    }
}

/// After deleting file `p`, a name whose occurrences all lay in `p` has no
/// occurrence left.
pub proof fn lemma_delete_removes_name(es: Seq<EntryView>, p: Seq<char>, name: Seq<char>)
    requires
        forall|k: int| 0 <= k < select(es, name).len() ==> (#[trigger] select(es, name)[k]).file == p,
    ensures
        select(drop_file(es, p), name).len() == 0,
{
    lemma_select_drop(es, p, name);
    lemma_drop_locs_all(select(es, name), p);
}

/// No two occurrences share a location.
pub open spec fn locs_distinct(es: Seq<EntryView>) -> bool {
    forall|i: int, j: int| 0 <= i < j < es.len() ==> (#[trigger] es[i]).loc != (#[trigger] es[j]).loc
}

proof fn lemma_drop_file_distinct(es: Seq<EntryView>, p: Seq<char>)
    requires
        locs_distinct(es),
    ensures
        locs_distinct(drop_file(es, p)),
        forall|k: int| 0 <= k < drop_file(es, p).len() ==> (#[trigger] drop_file(es, p)[k]).loc.file != p,
        forall|k: int| 0 <= k < drop_file(es, p).len() ==> exists|j: int| 0 <= j < es.len() && es[j] == #[trigger] drop_file(es, p)[k],
    decreases es.len(),
{
    if es.len() > 0 {
        let dl = es.drop_last();
        assert(locs_distinct(dl)) by {
            assert forall|i: int, j: int| 0 <= i < j < dl.len() implies (#[trigger] dl[i]).loc != (#[trigger] dl[j]).loc by {
                assert(dl[i] == es[i] && dl[j] == es[j]);
            }
        }
        lemma_drop_file_distinct(dl, p);
        let d0 = drop_file(dl, p);
        let d = drop_file(es, p);
        let e = es.last();
        if e.loc.file != p {
            assert(d == d0.push(e));
            assert forall|i: int, j: int| 0 <= i < j < d.len() implies (#[trigger] d[i]).loc != (#[trigger] d[j]).loc by {
                if j == d.len() - 1 {
                    assert(d[i] == d0[i]);
                    let m = choose|m: int| 0 <= m < dl.len() && dl[m] == d0[i];
                    assert(es[m] == dl[m]);
                    assert(es[m].loc != es[es.len() - 1].loc);
                } else {
                    assert(d[i] == d0[i] && d[j] == d0[j]);
                }
            }
            assert forall|k: int| 0 <= k < d.len() implies exists|j: int| 0 <= j < es.len() && es[j] == #[trigger] d[k] by {
                if k == d.len() - 1 {
                    assert(es[es.len() - 1] == d[k]);
                } else {
                    assert(d[k] == d0[k]);
                    let m = choose|m: int| 0 <= m < dl.len() && dl[m] == d0[k];
                    assert(es[m] == dl[m]);
                }
            }
        } else {
            assert(d == d0);
            assert forall|k: int| 0 <= k < d.len() implies exists|j: int| 0 <= j < es.len() && es[j] == #[trigger] d[k] by {
                let m = choose|m: int| 0 <= m < dl.len() && dl[m] == d0[k];
                assert(es[m] == dl[m]);
            }
        }
    }
}

proof fn lemma_relabel_index(es: Seq<EntryView>, old: Seq<char>, new: Seq<char>)
    ensures
        relabel(es, old, new).len() == es.len(),
        forall|k: int| 0 <= k < es.len() ==> (#[trigger] relabel(es, old, new)[k]).loc == relabel_loc(es[k].loc, old, new),
    decreases es.len(),
{
    if es.len() > 0 {
        lemma_relabel_index(es.drop_last(), old, new);
        let r0 = relabel(es.drop_last(), old, new);
        assert forall|k: int| 0 <= k < es.len() implies (#[trigger] relabel(es, old, new)[k]).loc == relabel_loc(es[k].loc, old, new) by {
            if k < es.len() - 1 {
                assert(relabel(es, old, new)[k] == r0[k]);
                assert(es.drop_last()[k] == es[k]);
            }
        }
    }
}

proof fn lemma_relabel_distinct(es: Seq<EntryView>, old: Seq<char>, new: Seq<char>)
    requires
        locs_distinct(es),
        forall|k: int| 0 <= k < es.len() ==> (#[trigger] es[k]).loc.file != new,
    ensures
        locs_distinct(relabel(es, old, new)),
{
    lemma_relabel_index(es, old, new);
    let r = relabel(es, old, new);
    assert forall|i: int, j: int| 0 <= i < j < r.len() implies (#[trigger] r[i]).loc != (#[trigger] r[j]).loc by {
        assert(es[i].loc != es[j].loc);
        assert(es[i].loc.file != new && es[j].loc.file != new);
        if es[i].loc.file == old && es[j].loc.file == old {
            assert(es[i].loc.start_line != es[j].loc.start_line || es[i].loc.start_col != es[j].loc.start_col
                || es[i].loc.end_line != es[j].loc.end_line || es[i].loc.end_col != es[j].loc.end_col);
        }
    }
}

proof fn lemma_lines_entries(p: Seq<char>, lines: Seq<Seq<char>>)
    ensures
        locs_distinct(lines_entries(p, lines)),
        forall|k: int| 0 <= k < lines_entries(p, lines).len() ==> (#[trigger] lines_entries(p, lines)[k]).loc.file == p
            && 0 <= lines_entries(p, lines)[k].loc.start_line < lines.len(),
    decreases lines.len(),
{
    if lines.len() > 0 {
        let dl = lines.drop_last();
        lemma_lines_entries(p, dl);
        let a = lines_entries(p, dl);
        let ws = words_of(lines.last());
        crate::lexer::lemma_words_disjoint(lines.last());
        let b = line_entries(p, lines.len() - 1, ws);
        let e = lines_entries(p, lines);
        assert(e == a + b);
        assert forall|k: int| 0 <= k < e.len() implies (#[trigger] e[k]).loc.file == p && 0 <= e[k].loc.start_line < lines.len() by {
            if k >= a.len() {
                assert(e[k] == b[k - a.len()]);
            } else {
                assert(e[k] == a[k]);
            }
        }
        assert forall|i: int, j: int| 0 <= i < j < e.len() implies (#[trigger] e[i]).loc != (#[trigger] e[j]).loc by {
            if j < a.len() {
                assert(e[i] == a[i] && e[j] == a[j]);
            } else if i < a.len() {
                assert(e[i] == a[i] && e[j] == b[j - a.len()]);
            } else {
                assert(e[i] == b[i - a.len()] && e[j] == b[j - a.len()]);
                assert(ws[i - a.len()].end <= ws[j - a.len()].start);
            }
        }
    }
}

proof fn lemma_updated_distinct(es: Seq<EntryView>, p: Seq<char>, text: Seq<char>)
    requires
        locs_distinct(es),
    ensures
        locs_distinct(updated(es, p, text)),
{
    lemma_drop_file_distinct(es, p);
    lemma_lines_entries(p, lines_of(text));
    let a = drop_file(es, p);
    let b = file_entries(p, text);
    let u = updated(es, p, text);
    assert forall|i: int, j: int| 0 <= i < j < u.len() implies (#[trigger] u[i]).loc != (#[trigger] u[j]).loc by {
        if j < a.len() {
            assert(u[i] == a[i] && u[j] == a[j]);
        } else if i < a.len() {
            assert(u[i] == a[i] && u[j] == b[j - a.len()]);
        } else {
            assert(u[i] == b[i - a.len()] && u[j] == b[j - a.len()]);
        }
    }
}

} // verus!
