//! Classification of single lines.

use vstd::prelude::*;
use crate::text::{
    lemma_join_no_newline, lemma_one_line, lemma_trim_line, no_newline, chars_of, is_word, join_words, join_words_from, lemma_join_front, lemma_trim_idempotent,
    lemma_words_are_words, lemma_words_of_join, lemma_words_trim, lines, lines_of, string_of, trim,
    trim_bounds, words, words_of,
};

verus! {

/// What one line of the body is.
#[derive(Clone, Debug, PartialEq, Eq)]
pub enum LineKind {
    Empty,
    Header(usize, String),
    Plain(String),
    Unordered(usize, String),
    Ordered(usize, String),
    Quote(String),
    Horizontal,
}

/// The mathematical value of a `LineKind`.
pub enum LineKindModel {
    Empty,
    Header(nat, Seq<char>),
    Plain(Seq<char>),
    Unordered(nat, Seq<char>),
    Ordered(nat, Seq<char>),
    Quote(Seq<char>),
    Horizontal,
}

impl View for LineKind {
    type V = LineKindModel;

    open spec fn view(&self) -> LineKindModel {
        match self {
            LineKind::Empty => LineKindModel::Empty,
            LineKind::Header(l, t) => LineKindModel::Header(*l as nat, t@),
            LineKind::Plain(t) => LineKindModel::Plain(t@),
            LineKind::Unordered(l, t) => LineKindModel::Unordered(*l as nat, t@),
            LineKind::Ordered(l, t) => LineKindModel::Ordered(*l as nat, t@),
            LineKind::Quote(t) => LineKindModel::Quote(t@),
            LineKind::Horizontal => LineKindModel::Horizontal,
        }
    }
}

/// The values of a sequence of line kinds.
pub open spec fn kinds_view(v: Seq<LineKind>) -> Seq<LineKindModel> {
    v.map_values(|k: LineKind| k@)
}

pub open spec fn is_rule_mark(w: Seq<char>) -> bool {
    w == seq!['-', '-', '-']
}

pub open spec fn is_hash_mark(w: Seq<char>) -> bool {
    forall|i: int| 0 <= i < w.len() ==> w[i] == '#'
}

pub open spec fn is_bullet(w: Seq<char>) -> bool {
    w == seq!['-'] || w == seq!['+'] || w == seq!['*']
}

pub open spec fn is_quote_mark(w: Seq<char>) -> bool {
    w == seq!['>']
}

pub open spec fn is_digit(c: char) -> bool {
    '0' <= c && c <= '9'
}

/// One or more ASCII digits followed by a dot, and nothing else.
pub open spec fn is_ordered_marker(w: Seq<char>) -> bool {
    w.len() >= 2 && w.last() == '.' && forall|i: int| 0 <= i < w.len() - 1 ==> is_digit(w[i])
}

/// The number of space characters that begin `s`.
pub open spec fn leading_spaces(s: Seq<char>) -> nat
    decreases s.len(),
{
    if s.len() > 0 && s[0] == ' ' {
        1 + leading_spaces(s.drop_first())
    } else {
        0
    }
}

/// The nesting level of a list item: one level for every four leading spaces.
pub open spec fn list_level(s: Seq<char>) -> nat {
    leading_spaces(s) / 4
}

/// The kind of one line.
pub open spec fn classify(line: Seq<char>) -> LineKindModel {
    let ws = words(line);
    if ws.len() == 0 {
        LineKindModel::Empty
    } else if is_rule_mark(ws[0]) {
        LineKindModel::Horizontal
    } else if is_hash_mark(ws[0]) {
        LineKindModel::Header(ws[0].len(), join_words(ws.drop_first()))
    } else if is_bullet(ws[0]) {
        LineKindModel::Unordered(list_level(line), join_words(ws.drop_first()))
    } else if is_ordered_marker(ws[0]) {
        LineKindModel::Ordered(list_level(line), join_words(ws.drop_first()))
    } else if is_quote_mark(ws[0]) {
        LineKindModel::Quote(join_words(ws.drop_first()))
    } else {
        LineKindModel::Plain(trim(line))
    }
}

/// The kinds of all lines of `text`, in order.
pub open spec fn classify_all(text: Seq<char>) -> Seq<LineKindModel> {
    lines(text).map_values(|l: Seq<char>| classify(l))
}

fn ordered_marker(w: &Vec<char>) -> (r: bool)
    ensures
        r == is_ordered_marker(w@),
{
    let n = w.len();
    if n < 2 || w[n - 1] != '.' {
        return false;
    }
    let mut i: usize = 0;
    while i < n - 1
        invariant
            n == w.len(),
            2 <= n,
            i <= n - 1,
            forall|j: int| 0 <= j < i ==> is_digit(w@[j]),
        decreases n - 1 - i,
    {
        if !('0' <= w[i] && w[i] <= '9') {
            return false;
        }
        i += 1;
    }
    true
}

/// Whether `word` is the marker of an ordered list item (`12.`).
pub fn is_ordered_ident(word: &str) -> (r: bool)
    ensures
        r == is_ordered_marker(word@),
{
    let w = chars_of(word);
    ordered_marker(&w)
}

fn leading_spaces_of(v: &Vec<char>) -> (r: usize)
    ensures
        r == leading_spaces(v@),
{
    let mut i: usize = 0;
    assert(v@.skip(0) =~= v@);
    while i < v.len() && v[i] == ' '
        invariant
            i <= v.len(),
            leading_spaces(v@) == i + leading_spaces(v@.skip(i as int)),
        decreases v.len() - i,
    {
        assert(v@.skip(i as int).drop_first() =~= v@.skip(i + 1));
        i += 1;
    }
    i
}

/// The nesting level of a list item line.
pub fn get_list_level(line: &str) -> (r: usize)
    ensures
        r == list_level(line@),
{
    let v = chars_of(line);
    leading_spaces_of(&v) / 4
}

fn is_single(w: &Vec<char>, c: char) -> (r: bool)
    ensures
        r == (w@ == seq![c]),
{
    if w.len() == 1 && w[0] == c {
        assert(w@ =~= seq![c]);
        true
    } else {
        false
    }
}

fn is_rule_word(w: &Vec<char>) -> (r: bool)
    ensures
        r == is_rule_mark(w@),
{
    if w.len() == 3 && w[0] == '-' && w[1] == '-' && w[2] == '-' {
        assert(w@ =~= seq!['-', '-', '-']);
        true
    } else {
        false
    }
}

fn is_hash_word(w: &Vec<char>) -> (r: bool)
    ensures
        r == is_hash_mark(w@),
{
    let mut i: usize = 0;
    while i < w.len()
        invariant
            i <= w.len(),
            forall|j: int| 0 <= j < i ==> w@[j] == '#',
        decreases w.len() - i,
    {
        if w[i] != '#' {
            return false;
        }
        i += 1;
    }
    true
}

/// The kind of the line `v`.
pub fn classify_line(v: &Vec<char>) -> (r: LineKind)
    ensures
        r@ == classify(v@),
{
    let ws = words_of(v, 0, v.len());
    assert(v@.subrange(0, v.len() as int) =~= v@);
    let ghost wv = ws@.map_values(|w: Vec<char>| w@);
    if ws.len() == 0 {
        return LineKind::Empty;
    }
    assert(wv[0] == ws[0]@);
    assert(wv.skip(1) =~= wv.drop_first());
    let first = &ws[0];
    if is_rule_word(first) {
        LineKind::Horizontal
    } else if is_hash_word(first) {
        LineKind::Header(first.len(), join_words_from(&ws, 1))
    } else if is_single(first, '-') || is_single(first, '+') || is_single(first, '*') {
        LineKind::Unordered(leading_spaces_of(v) / 4, join_words_from(&ws, 1))
    } else if ordered_marker(first) {
        LineKind::Ordered(leading_spaces_of(v) / 4, join_words_from(&ws, 1))
    } else if is_single(first, '>') {
        LineKind::Quote(join_words_from(&ws, 1))
    } else {
        let (a, b) = trim_bounds(v, 0, v.len());
        LineKind::Plain(string_of(v, a, b))
    }
}

/// The kind of every line of `file`, in order. Classification never fails.
pub fn lex(file: &str) -> (r: Result<Vec<LineKind>, ()>)
    ensures
        r is Ok,
        r matches Ok(ks) && kinds_view(ks@) == classify_all(file@),
{
    let v = chars_of(file);
    let ls = lines_of(&v);
    let ghost lv = ls@.map_values(|l: Vec<char>| l@);
    let mut out: Vec<LineKind> = Vec::new();
    let mut i: usize = 0;
    while i < ls.len()
        invariant
            i <= ls.len(),
            lv == ls@.map_values(|l: Vec<char>| l@),
            lv == lines(file@),
            kinds_view(out@) =~= lv.take(i as int).map_values(|l: Seq<char>| classify(l)),
        decreases ls.len() - i,
    {
        let k = classify_line(&ls[i]);
        let ghost prev = out@;
        assert(lv[i as int] == ls@[i as int]@);
        out.push(k);
        assert(out@ =~= prev.push(k));
        assert(kinds_view(out@) =~= kinds_view(prev).push(k@));
        assert(kinds_view(out@) =~= lv.take(i + 1).map_values(|l: Seq<char>| classify(l)));
        i += 1;
    }
    assert(lv.take(i as int) =~= lv);
    Ok(out)
}

/// A run of `n` hash characters.
pub open spec fn hashes(n: nat) -> Seq<char> {
    Seq::new(n, |i: int| '#')
}

/// The line that a kind is written as: a header as its hashes, a space and its
/// text; a quote as `>`, a space and its text; plain text as itself.
pub open spec fn rebuild(k: LineKindModel) -> Seq<char> {
    match k {
        LineKindModel::Header(l, t) => if t.len() == 0 {
            hashes(l)
        } else {
            hashes(l) + seq![' '] + t
        },
        LineKindModel::Quote(t) => if t.len() == 0 {
            seq!['>']
        } else {
            seq!['>'] + seq![' '] + t
        },
        LineKindModel::Plain(t) => t,
        _ => seq![],
    }
}

/// A header or quote line is written back as its words joined by spaces.
proof fn lemma_rebuild_joins(line: Seq<char>)
    requires
        classify(line) is Header || classify(line) is Quote,
    ensures
        rebuild(classify(line)) == join_words(words(line)),
{
    let ws = words(line);
    let k = classify(line);
    lemma_words_are_words(line);
    let rest = ws.drop_first();
    assert forall|i: int| 0 <= i < rest.len() implies is_word(#[trigger] rest[i]) by {
        assert(rest[i] == ws[i + 1]);
    }
    lemma_words_of_join(rest);
    if k is Header {
        assert(hashes(ws[0].len()) =~= ws[0]);
    } else {
        assert(seq!['>'] =~= ws[0]);
    }
    if ws.len() >= 2 {
        lemma_join_front(ws);
    } else {
        assert(rest =~= Seq::<Seq<char>>::empty());
        assert(ws =~= seq![ws[0]]);
    }
    assert(rebuild(k) == join_words(ws));
}

/// A header, quote or plain line, written back as text and classified again,
/// gives the same kind.
pub proof fn lemma_rebuild_fixed_point(line: Seq<char>)
    requires
        classify(line) is Header || classify(line) is Quote || classify(line) is Plain,
    ensures
        classify(rebuild(classify(line))) == classify(line),
{
    let ws = words(line);
    let k = classify(line);
    lemma_words_are_words(line);
    if k is Plain {
        lemma_words_trim(line);
        lemma_trim_idempotent(line);
    } else {
        lemma_rebuild_joins(line);
        lemma_words_of_join(ws);
    }
}

/// A line whose first word is no marker is plain text: the line trimmed. Inner
/// whitespace is kept.
pub proof fn lemma_other_is_plain(line: Seq<char>)
    requires
        no_newline(line),
        words(line).len() > 0,
        !is_rule_mark(words(line)[0]),
        !is_hash_mark(words(line)[0]),
        !is_bullet(words(line)[0]),
        !is_ordered_marker(words(line)[0]),
        !is_quote_mark(words(line)[0]),
    ensures
        classify_all(line) == seq![LineKindModel::Plain(trim(line))],
{
    assert(line.len() > 0) by {
        if line.len() == 0 {
            assert(words(line) =~= Seq::<Seq<char>>::empty());
        }
    }
    lemma_one_line(line);
    assert(classify_all(line) =~= seq![LineKindModel::Plain(trim(line))]);
}

/// A header, quote or plain line, written back as text and lexed again, gives
/// that one line of the same kind.
pub proof fn lemma_relex_fixed_point(line: Seq<char>)
    requires
        no_newline(line),
        classify(line) is Header || classify(line) is Quote || classify(line) is Plain,
    ensures
        classify_all(rebuild(classify(line))) == seq![classify(line)],
{
    let k = classify(line);
    let r = rebuild(k);
    let ws = words(line);
    lemma_rebuild_fixed_point(line);
    lemma_words_are_words(line);
    if k is Plain {
        lemma_trim_line(line);
    } else {
        lemma_rebuild_joins(line);
        lemma_words_of_join(ws);
        lemma_join_no_newline(ws);
    }
    lemma_one_line(r);
    assert(classify_all(r) =~= seq![classify(r)]);
}

} // verus!
