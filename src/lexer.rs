use vstd::prelude::*;

verus! {

/// What `rustc_lexer::is_id_start` answers for a character.
pub uninterp spec fn id_start_of(c: char) -> bool;

/// What `rustc_lexer::is_id_continue` answers for a character.
pub uninterp spec fn id_continue_of(c: char) -> bool;

/// The lines that `str::lines` splits a text into.
pub uninterp spec fn lines_of(text: Seq<char>) -> Seq<Seq<char>>;

pub open spec fn is_ascii_letter(c: char) -> bool {
    ('a' as u32 <= c as u32 && c as u32 <= 'z' as u32) || ('A' as u32 <= c as u32 && c as u32
        <= 'Z' as u32)
}

pub open spec fn is_ascii_digit(c: char) -> bool {
    '0' as u32 <= c as u32 && c as u32 <= '9' as u32
}

/// Relies on `rustc_lexer::is_id_start`: XID_Start or `_`; on ASCII, a
/// letter or `_`.
#[verifier::external_body]
fn is_id_start(c: char) -> (r: bool)
    ensures
        r == id_start_of(c),
        c as u32 <= 0x7f ==> (r <==> (is_ascii_letter(c) || c == '_')),
{
    rustc_lexer::is_id_start(c)
}

/// Relies on `rustc_lexer::is_id_continue`: XID_Continue; on ASCII, a
/// letter, a digit or `_`.
#[verifier::external_body]
fn is_id_continue(c: char) -> (r: bool)
    ensures
        r == id_continue_of(c),
        c as u32 <= 0x7f ==> (r <==> (is_ascii_letter(c) || is_ascii_digit(c) || c == '_')),
{
    rustc_lexer::is_id_continue(c)
}

/// Relies on `str::chars`: the characters of the text, in order.
#[verifier::external_body]
fn text_chars(text: &str) -> (r: Vec<char>)
    ensures
        r@ == text@,
{
    text.chars().collect()
}

/// Relies on `String: FromIterator<char>`: a string of the given characters.
#[verifier::external_body]
fn string_of_chars(cs: &Vec<char>, from: usize, to: usize) -> (r: String)
    requires
        from <= to <= cs@.len(),
    ensures
        r@ == cs@.subrange(from as int, to as int),
{
    cs[from..to].iter().collect()
}

/// Relies on `str::lines`: the text split at line endings; an empty text
/// has no lines.
#[verifier::external_body]
pub(crate) fn text_lines(text: &str) -> (r: Vec<String>)
    ensures
        r@.map_values(|l: String| l@) == lines_of(text@),
        text@.len() == 0 ==> r@.len() == 0,
{
    text.lines().map(String::from).collect()
}

/// A word of a line: `word` spans the characters `startpos..endpos`.
#[derive(Debug, PartialEq, Eq, Clone)]
pub struct LineWord {
    pub startpos: u64,
    pub endpos: u64,
    pub word: String,
}

/// A word of a line as a mathematical value.
pub struct WordSpan {
    pub start: int,
    pub end: int,
    pub text: Seq<char>,
}

impl View for LineWord {
    type V = WordSpan;

    open spec fn view(&self) -> WordSpan {
        WordSpan { start: self.startpos as int, end: self.endpos as int, text: self.word@ }
    }
}

pub open spec fn words_view(ws: Seq<LineWord>) -> Seq<WordSpan> {
    ws.map_values(|w: LineWord| w@)
}

/// The end of the run of identifier-continue characters that starts at `i`.
pub open spec fn run_end(s: Seq<char>, i: int) -> int
    decreases s.len() - i,
{
    if 0 <= i < s.len() && id_continue_of(s[i]) {
        run_end(s, i + 1)
    } else {
        i
    }
}

pub proof fn lemma_run_end(s: Seq<char>, i: int)
    requires
        0 <= i <= s.len(),
    ensures
        i <= run_end(s, i) <= s.len(),
        i < s.len() && id_continue_of(s[i]) ==> i < run_end(s, i),
        run_end(s, i) < s.len() ==> !id_continue_of(s[run_end(s, i)]),
        forall|k: int| i <= k < run_end(s, i) ==> id_continue_of(#[trigger] s[k]),
    decreases s.len() - i,
{
    if i < s.len() && id_continue_of(s[i]) {
        lemma_run_end(s, i + 1);
    }
}

#[via_fn]
proof fn words_from_decreases(s: Seq<char>, i: int) {
    if 0 <= i < s.len() {
        lemma_run_end(s, i);
    }
}

/// The words of `s` from index `i` on, where `i` is not inside a run of
/// identifier-continue characters: each maximal such run is a word when
/// its first character can start an identifier.
pub open spec fn words_from(s: Seq<char>, i: int) -> Seq<WordSpan>
    decreases s.len() - i,
    via words_from_decreases
{
    if i < 0 || i >= s.len() {
        Seq::empty()
    } else if !id_continue_of(s[i]) {
        words_from(s, i + 1)
    } else {
        let e = run_end(s, i);
        if id_start_of(s[i]) {
            seq![WordSpan { start: i, end: e, text: s.subrange(i, e) }] + words_from(s, e)
        } else {
            words_from(s, e)
        }
    }
}

/// The words of a line, in order.
pub open spec fn words_of(s: Seq<char>) -> Seq<WordSpan> {
    words_from(s, 0)
}

/// Words are non-empty, lie within the line, and come in order without
/// overlapping.
pub open spec fn words_disjoint(ws: Seq<WordSpan>, lo: int, hi: int) -> bool {
    &&& forall|k: int| 0 <= k < ws.len() ==> lo <= #[trigger] ws[k].start < ws[k].end <= hi
    &&& forall|k: int, l: int| 0 <= k < l < ws.len() ==> #[trigger] ws[k].end <= #[trigger] ws[l].start
}

proof fn lemma_words_from_disjoint(s: Seq<char>, i: int)
    requires
        0 <= i <= s.len(),
    ensures
        words_disjoint(words_from(s, i), i, s.len() as int),
    decreases s.len() - i,
{
    if i < s.len() {
        if !id_continue_of(s[i]) {
            lemma_words_from_disjoint(s, i + 1);
        } else {
            let e = run_end(s, i);
            lemma_run_end(s, i);
            lemma_words_from_disjoint(s, e);
            let rest = words_from(s, e);
            if id_start_of(s[i]) {
                let ws = words_from(s, i);
                assert forall|k: int| 0 <= k < ws.len() implies i <= #[trigger] ws[k].start
                    < ws[k].end <= s.len() by {
                    if k > 0 {
                        assert(ws[k] == rest[k - 1]);
                    }
                }
                assert forall|k: int, l: int| 0 <= k < l < ws.len() implies #[trigger] ws[k].end
                    <= #[trigger] ws[l].start by {
                    assert(ws[l] == rest[l - 1]);
                    if k > 0 {
                        assert(ws[k] == rest[k - 1]);
                    }
                }
            }
        }
    }
}

/// Tokenizing a line never yields overlapping words.
pub proof fn lemma_words_disjoint(s: Seq<char>)
    ensures
        words_disjoint(words_of(s), 0, s.len() as int),
{
    lemma_words_from_disjoint(s, 0);
}

/// Splits a line into its identifier words, in order.
pub fn line_to_words(text: String) -> (r: Vec<LineWord>)
    ensures
        words_view(r@) == words_of(text@),
        words_disjoint(words_view(r@), 0, text@.len() as int),
{
    let chars = text_chars(text.as_str());
    let n = chars.len();
    let mut words: Vec<LineWord> = Vec::new();
    let mut i: usize = 0;
    while i < n
        invariant
            chars@ == text@,
            n == chars@.len(),
            i <= n,
            words_view(words@) + words_from(text@, i as int) == words_of(text@),
        decreases n - i,
    {
        let s = Ghost(text@);
        if !is_id_continue(chars[i]) {
            i = i + 1;
        } else {
            let a = i;
            proof {
                lemma_run_end(s@, a as int);
            }
            loop
                invariant
                    chars@ == s@,
                    n == chars@.len(),
                    a <= i <= n,
                    run_end(s@, i as int) == run_end(s@, a as int),
                ensures
                    i == run_end(s@, a as int),
                decreases n - i,
            {
                if i >= n || !is_id_continue(chars[i]) {
                    break;
                }
                i = i + 1;
            }
            assert(a < i);
            assert(words_from(s@, a as int) == if id_start_of(s@[a as int]) {
                seq![WordSpan { start: a as int, end: i as int, text: s@.subrange(a as int, i as int) }]
                    + words_from(s@, i as int)
            } else {
                words_from(s@, i as int)
            });
            let ghost old_words = words_view(words@);
            if is_id_start(chars[a]) {
                let w = string_of_chars(&chars, a, i);
                words.push(LineWord { startpos: a as u64, endpos: i as u64, word: w });
                assert(words_view(words@) == old_words.push(
                    WordSpan { start: a as int, end: i as int, text: s@.subrange(a as int, i as int) },
                ));
            }
            assert(words_view(words@) + words_from(s@, i as int) == words_of(s@));
        }
    }
    proof {
        lemma_words_disjoint(text@);
    }
    words
}

} // verus!
