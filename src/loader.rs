//! Reading a table from text: one word per line, followed by the decimal
//! literals of its vector.
use crate::number::{float_literal, is_float_literal};
use crate::table::VectorTable;
use crate::text::{split_tokens, tokens, views};
use rayon::str::ParallelString;
use rayon::iter::ParallelIterator;
use vstd::prelude::*;

verus! {

/// What a line of the file says.
pub enum LineKind {
    Blank,
    Entry(Seq<char>, Seq<Seq<char>>),
    Malformed(Seq<char>),
}

/// The index of the first token after the word that is no float literal.
pub open spec fn first_bad_token(t: Seq<Seq<char>>) -> int {
    choose|i: int|
        1 <= i < t.len() && !float_literal(t[i]) && forall|j: int|
            1 <= j < i ==> float_literal(#[trigger] t[j])
}

pub open spec fn line_kind(line: Seq<char>) -> LineKind {
    let t = tokens(line);
    if t.len() == 0 {
        LineKind::Blank
    } else if exists|i: int| 1 <= i < t.len() && !float_literal(#[trigger] t[i]) {
        LineKind::Malformed(t[first_bad_token(t)])
    } else {
        LineKind::Entry(t[0], t.skip(1))
    }
}

/// A parsed line.
#[derive(Debug, PartialEq, Eq)]
pub enum LineParse {
    Blank,
    Entry { word: String, values: Vec<String> },
    Malformed { token: String },
}

pub open spec fn strings_view(v: Seq<String>) -> Seq<Seq<char>> {
    v.map_values(|s: String| s@)
}

impl View for LineParse {
    type V = LineKind;

    open spec fn view(&self) -> LineKind {
        match self {
            LineParse::Blank => LineKind::Blank,
            LineParse::Entry { word, values } => LineKind::Entry(word@, strings_view(values@)),
            LineParse::Malformed { token } => LineKind::Malformed(token@),
        }
    }
}

/// Relies on std's `FromIterator<&char>` for `String`: the characters in order.
#[verifier::external_body]
fn string_of(cs: &Vec<char>) -> (r: String)
    ensures
        r@ == cs@,
{
    cs.iter().collect()
}

/// Parses one line: blank, a word with its literals, or the first token
/// after the word that is no float literal.
pub fn parse_line(line: &str) -> (r: LineParse)
    ensures
        r@ == line_kind(line@),
{
    let toks = split_tokens(line);
    let ghost t = tokens(line@);
    if toks.len() == 0 {
        return LineParse::Blank;
    }
    let mut i: usize = 1;
    while i < toks.len()
        invariant
            1 <= i <= toks.len(),
            views(toks@) == t,
            t == tokens(line@),
            forall|j: int| 1 <= j < i ==> float_literal(#[trigger] t[j]),
        decreases toks.len() - i,
    {
        assert(t[i as int] == toks[i as int]@);
        if !is_float_literal(&toks[i]) {
            let token = string_of(&toks[i]);
            proof {
                let ii = i as int;
                assert(1 <= ii < t.len() && !float_literal(t[ii]) && forall|j: int|
                    1 <= j < ii ==> float_literal(#[trigger] t[j]));
                let b = first_bad_token(t);
                assert(1 <= b < t.len() && !float_literal(t[b]));
                if b > ii {
                    assert(float_literal(t[ii]));
                }
                assert(b == ii);
                assert(exists|j: int| 1 <= j < t.len() && !float_literal(#[trigger] t[j]));
                assert(token@ == t[b]);
                assert(line_kind(line@) == LineKind::Malformed(token@));
            }
            return LineParse::Malformed { token };
        }
        i += 1;
    }
    let word = string_of(&toks[0]);
    let mut values: Vec<String> = Vec::new();
    let mut k: usize = 1;
    while k < toks.len()
        invariant
            1 <= k <= toks.len(),
            views(toks@) == t,
            t == tokens(line@),
            word@ == t[0],
            forall|j: int| 1 <= j < t.len() ==> float_literal(#[trigger] t[j]),
            values.len() == k - 1,
            forall|j: int| 0 <= j < values.len() ==> #[trigger] values[j]@ == t[j + 1],
        decreases toks.len() - k,
    {
        let s = string_of(&toks[k]);
        values.push(s);
        k += 1;
    }
    assert(strings_view(values@) =~= t.skip(1));
    LineParse::Entry { word, values }
}

/// `s` split at each newline.
pub open spec fn pieces(s: Seq<char>) -> Seq<Seq<char>>
    decreases s.len(),
{
    if s.len() == 0 {
        seq![seq![]]
    } else {
        let p = pieces(s.drop_last());
        if s.last() == '\n' {
            p.push(seq![])
        } else {
            p.drop_last().push(p.last().push(s.last()))
        }
    }
}

pub open spec fn strip_cr(l: Seq<char>) -> Seq<char> {
    if l.len() > 0 && l.last() == '\r' {
        l.drop_last()
    } else {
        l
    }
}

/// The lines of `s`: newline-terminated, the last terminator optional, a
/// carriage return before a newline dropped.
pub open spec fn lines(s: Seq<char>) -> Seq<Seq<char>> {
    let p = pieces(s);
    let q = if p.last().len() == 0 {
        p.drop_last()
    } else {
        p
    };
    q.map_values(|l: Seq<char>| strip_cr(l))
}

/// Relies on rayon's `ParallelString::par_lines`, which yields the lines of
/// `text` with `split_terminator('\n')` and then strips one trailing `'\r'`,
/// and on rayon's `collect` into a `Vec`, which keeps the order of the items.
#[verifier::external_body]
fn parse_lines(text: &str) -> (r: Vec<LineParse>)
    ensures
        r@.len() == lines(text@).len(),
        forall|i: int| 0 <= i < r@.len() ==> #[trigger] r@[i]@ == line_kind(lines(text@)[i]),
{
    text.par_lines().map(|line| parse_line(line)).collect()
}

/// Why a table could not be read.
#[derive(Debug, PartialEq, Eq)]
pub enum LoadError {
    /// The file could not be read.
    Io { message: String },
    /// A token after the word is no float literal; lines count from 1.
    MalformedVector { line_number: usize, token: String },
}

pub open spec fn kinds(ps: Seq<LineParse>) -> Seq<LineKind> {
    ps.map_values(|p: LineParse| p@)
}

pub open spec fn has_malformed(ks: Seq<LineKind>) -> bool {
    exists|i: int| 0 <= i < ks.len() && #[trigger] ks[i] is Malformed
}

/// The index of the first malformed line.
pub open spec fn first_malformed(ks: Seq<LineKind>) -> int {
    choose|i: int|
        0 <= i < ks.len() && ks[i] is Malformed && forall|j: int|
            0 <= j < i ==> !(#[trigger] ks[j] is Malformed)
}

/// The entries of the lines, each word with the literals of its last line.
pub open spec fn entries(ks: Seq<LineKind>) -> Map<Seq<char>, Seq<Seq<char>>>
    decreases ks.len(),
{
    if ks.len() == 0 {
        Map::empty()
    } else {
        let m = entries(ks.drop_last());
        match ks.last() {
            LineKind::Entry(w, v) => m.insert(w, v),
            _ => m,
        }
    }
}

/// The literals of each word of `t`.
pub open spec fn literals(t: VectorTable<Vec<String>>) -> Map<Seq<char>, Seq<Seq<char>>> {
    t@.map_values(|v: Vec<String>| strings_view(v@))
}

/// `r` is what reading lines of kinds `ks` gives: the first malformed line
/// as an error, else the table of the entries.
pub open spec fn read_from(ks: Seq<LineKind>, r: Result<VectorTable<Vec<String>>, LoadError>) -> bool {
    match r {
        Ok(t) => !has_malformed(ks) && t.wf() && literals(t) == entries(ks),
        Err(LoadError::MalformedVector { line_number, token }) => {
            &&& has_malformed(ks)
            &&& line_number == first_malformed(ks) + 1
            &&& ks[first_malformed(ks)] == LineKind::Malformed(token@)
        },
        Err(LoadError::Io { .. }) => false,
    }
}

/// The table of parsed lines: an error for the first malformed line, else
/// each word with the literals of the last line that names it.
pub fn build_table(parsed: Vec<LineParse>) -> (r: Result<VectorTable<Vec<String>>, LoadError>)
    ensures
        read_from(kinds(parsed@), r),
{
    let ghost ks = kinds(parsed@);
    let mut i: usize = 0;
    while i < parsed.len()
        invariant
            i <= parsed.len(),
            ks == kinds(parsed@),
            forall|j: int| 0 <= j < i ==> !(#[trigger] ks[j] is Malformed),
        decreases parsed.len() - i,
    {
        assert(ks[i as int] == parsed[i as int]@);
        if let LineParse::Malformed { token } = &parsed[i] {
            let token = token.clone();
            proof {
                let ii = i as int;
                assert(0 <= ii < ks.len() && ks[ii] is Malformed && forall|j: int|
                    0 <= j < ii ==> !(#[trigger] ks[j] is Malformed));
                let b = first_malformed(ks);
                if b > ii {
                    assert(!(ks[ii] is Malformed));
                }
                assert(b == ii);
            }
            return Err(LoadError::MalformedVector { line_number: i + 1, token });
        }
        i += 1;
    }
    let built = build_table_skipping(parsed);
    assert(!has_malformed(ks));
    Ok(built.0)
}

/// The number of malformed lines.
pub open spec fn malformed_count(ks: Seq<LineKind>) -> nat
    decreases ks.len(),
{
    if ks.len() == 0 {
        0
    } else {
        malformed_count(ks.drop_last()) + if ks.last() is Malformed {
            1nat
        } else {
            0nat
        }
    }
}

/// The table of parsed lines with the malformed ones left out, and how many
/// were left out.
pub fn build_table_skipping(parsed: Vec<LineParse>) -> (r: (VectorTable<Vec<String>>, usize))
    ensures
        r.0.wf(),
        literals(r.0) == entries(kinds(parsed@)),
        r.1 == malformed_count(kinds(parsed@)),
{
    let ghost ks = kinds(parsed@);
    let mut table: VectorTable<Vec<String>> = VectorTable::new();
    let mut skipped: usize = 0;
    let n = parsed.len();
    assert(literals(table) =~= entries(ks.take(0)));
    for p in it: parsed.into_iter()
        invariant
            it.seq() == parsed@,
            ks == kinds(parsed@),
            table.wf(),
            literals(table) == entries(ks.take(it.index() as int)),
            skipped == malformed_count(ks.take(it.index() as int)),
            skipped <= it.index() <= parsed@.len() == n,
    {
        let ghost k = it.index() as int;
        assert(ks.take(k + 1).drop_last() == ks.take(k));
        assert(ks.take(k + 1).last() == p@);
        match p {
            LineParse::Entry { word, values } => {
                let ghost before = table;
                let ghost w = word@;
                let ghost v = strings_view(values@);
                table.insert(word, values);
                assert(literals(table) =~= literals(before).insert(w, v));
            },
            LineParse::Malformed { .. } => {
                skipped += 1;
            },
            LineParse::Blank => {},
        }
    }
    assert(ks.take(ks.len() as int) == ks);
    (table, skipped)
}

/// The kinds of the lines of `text`.
pub open spec fn line_kinds(text: Seq<char>) -> Seq<LineKind> {
    lines(text).map_values(|l: Seq<char>| line_kind(l))
}

/// Reads a table from the text of a file, parsing its lines in parallel.
pub fn load_text(text: &str) -> (r: Result<VectorTable<Vec<String>>, LoadError>)
    ensures
        read_from(line_kinds(text@), r),
        text@.len() == 0 ==> (r matches Ok(t) && t@ == Map::<Seq<char>, Vec<String>>::empty()),
{
    let parsed = parse_lines(text);
    assert(kinds(parsed@) =~= line_kinds(text@));
    let r = build_table(parsed);
    proof {
        if text@.len() == 0 {
            assert(lines(text@) =~= Seq::<Seq<char>>::empty());
            assert(line_kinds(text@) =~= Seq::<LineKind>::empty());
            let t = r->Ok_0;
            assert(literals(t).dom() == t@.dom());
            assert(t@ =~= Map::<Seq<char>, Vec<String>>::empty());
        }
    }
    r
}

/// Reads a table from the text of a file, leaving out malformed lines, and
/// counts them.
pub fn load_text_skipping(text: &str) -> (r: (VectorTable<Vec<String>>, usize))
    ensures
        r.0.wf(),
        literals(r.0) == entries(line_kinds(text@)),
        r.1 == malformed_count(line_kinds(text@)),
{
    let parsed = parse_lines(text);
    assert(kinds(parsed@) =~= line_kinds(text@));
    build_table_skipping(parsed)
}

/// Line `i` of `text` is a non-blank line whose first token is `w`.
pub open spec fn names(text: Seq<char>, i: int, w: Seq<char>) -> bool {
    0 <= i < lines(text).len() && tokens(lines(text)[i]).len() > 0 && tokens(lines(text)[i])[0]
        == w
}

proof fn lemma_entries(ks: Seq<LineKind>)
    ensures
        forall|w: Seq<char>| #[trigger]
            entries(ks).contains_key(w) <==> exists|i: int|
                0 <= i < ks.len() && #[trigger] ks[i] is Entry && ks[i]->Entry_0 == w,
        forall|i: int|
            0 <= i < ks.len() && #[trigger] ks[i] is Entry && (forall|j: int|
                i < j < ks.len() && #[trigger] ks[j] is Entry ==> ks[j]->Entry_0
                    != ks[i]->Entry_0) ==> entries(ks)[ks[i]->Entry_0] == ks[i]->Entry_1,
    decreases ks.len(),
{
    if ks.len() > 0 {
        let p = ks.drop_last();
        lemma_entries(p);
        let n = ks.len() - 1;
        assert forall|w: Seq<char>| #[trigger]
            entries(ks).contains_key(w) <==> exists|i: int|
                0 <= i < ks.len() && #[trigger] ks[i] is Entry && ks[i]->Entry_0 == w by {
            if entries(p).contains_key(w) {
                let i = choose|i: int| 0 <= i < p.len() && #[trigger] p[i] is Entry && p[i]->Entry_0 == w;
                assert(ks[i] == p[i]);
            }
            if exists|i: int| 0 <= i < ks.len() && #[trigger] ks[i] is Entry && ks[i]->Entry_0 == w {
                let i = choose|i: int| 0 <= i < ks.len() && #[trigger] ks[i] is Entry && ks[i]->Entry_0 == w;
                if i < n {
                    assert(p[i] == ks[i]);
                }
            }
        }
        assert forall|i: int|
            0 <= i < ks.len() && #[trigger] ks[i] is Entry && (forall|j: int|
                i < j < ks.len() && #[trigger] ks[j] is Entry ==> ks[j]->Entry_0
                    != ks[i]->Entry_0) implies entries(ks)[ks[i]->Entry_0] == ks[i]->Entry_1 by {
            if i < n {
                assert(p[i] == ks[i]);
                assert forall|j: int|
                    i < j < p.len() && #[trigger] p[j] is Entry implies p[j]->Entry_0
                        != p[i]->Entry_0 by {
                    assert(p[j] == ks[j]);
                }
                if ks[n] is Entry {
                    assert(ks[n]->Entry_0 != ks[i]->Entry_0);
                }
            }
        }
    }
}

/// Reading a file without malformed lines gives a table with one entry for
/// each word that begins a line, and no other; the literals of a word are
/// those of the last line that it begins.
pub proof fn last_line_wins(text: Seq<char>, r: Result<VectorTable<Vec<String>>, LoadError>)
    requires
        read_from(line_kinds(text), r),
        forall|i: int| 0 <= i < lines(text).len() ==> #[trigger] line_kind(lines(text)[i]) is Entry
            || line_kind(lines(text)[i]) is Blank,
    ensures
        r is Ok,
        forall|w: Seq<char>| #[trigger]
            literals(r->Ok_0).contains_key(w) <==> exists|i: int| #[trigger] names(text, i, w),
        forall|i: int, w: Seq<char>|
            #[trigger] names(text, i, w) && (forall|j: int| i < j ==> !#[trigger] names(text, j, w))
                ==> literals(r->Ok_0)[w] == tokens(lines(text)[i]).skip(1),
{
    let ks = line_kinds(text);
    let ls = lines(text);
    assert forall|i: int| 0 <= i < ks.len() implies !(#[trigger] ks[i] is Malformed) by {
        assert(ks[i] == line_kind(ls[i]));
    }
    lemma_entries(ks);
    assert forall|i: int, w: Seq<char>| 0 <= i < ks.len() implies (ks[i] is Entry
        && ks[i]->Entry_0 == w) == #[trigger] names(text, i, w) by {
        assert(ks[i] == line_kind(ls[i]));
    }
    let t = r->Ok_0;
    assert forall|w: Seq<char>| #[trigger]
        literals(t).contains_key(w) <==> exists|i: int| #[trigger] names(text, i, w) by {
        if exists|i: int| #[trigger] names(text, i, w) {
            let i = choose|i: int| #[trigger] names(text, i, w);
            assert(ks[i] is Entry && ks[i]->Entry_0 == w);
        }
        if entries(ks).contains_key(w) {
            let i = choose|i: int| 0 <= i < ks.len() && #[trigger] ks[i] is Entry && ks[i]->Entry_0 == w;
            assert(names(text, i, w));
        }
    }
    assert forall|i: int, w: Seq<char>|
        #[trigger] names(text, i, w) && (forall|j: int| i < j ==> !#[trigger] names(text, j, w))
            implies literals(t)[w] == tokens(ls[i]).skip(1) by {
        assert(ks[i] == line_kind(ls[i]));
        assert forall|j: int| i < j < ks.len() && #[trigger] ks[j] is Entry implies ks[j]->Entry_0
            != ks[i]->Entry_0 by {
            assert(!names(text, j, w));
        }
    }
}

/// Reading the same text twice gives tables with the same entries, or the
/// same error.
pub proof fn reading_is_repeatable(
    text: Seq<char>,
    a: Result<VectorTable<Vec<String>>, LoadError>,
    b: Result<VectorTable<Vec<String>>, LoadError>,
)
    requires
        read_from(line_kinds(text), a),
        read_from(line_kinds(text), b),
    ensures
        match (a, b) {
            (Ok(x), Ok(y)) => literals(x) == literals(y),
            (
                Err(LoadError::MalformedVector { line_number: la, token: ta }),
                Err(LoadError::MalformedVector { line_number: lb, token: tb }),
            ) => la == lb && ta@ == tb@,
            _ => false,
        },
{
}

} // verus!
