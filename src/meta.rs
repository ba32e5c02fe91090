//! The optional front-matter block between two `---` lines.

use vstd::prelude::*;
use crate::text::{
    breaks, chars_of, is_blank, is_text_line, lemma_breaks, lemma_lines_after, line_breaks, lines,
    lines_of, push_char, string_of, terminated, trim, trim_bounds,
    trim_end, trim_start,
};

verus! {

/// Metadata entries as plain values: each key once, in order of first appearance.
pub type MetaModel = Seq<(Seq<char>, Seq<char>)>;

/// The metadata of a document: key/value pairs, each key at most once.
pub type Meta = Vec<(String, String)>;

pub open spec fn meta_view(m: Seq<(String, String)>) -> MetaModel {
    m.map_values(|e: (String, String)| (e.0@, e.1@))
}

/// The line that opens and closes the metadata block.
pub open spec fn is_delim(l: Seq<char>) -> bool {
    l == seq!['-', '-', '-']
}

/// The first index from `i` on whose line is not blank, or the number of lines.
pub open spec fn first_content(ls: Seq<Seq<char>>, i: int) -> int
    decreases ls.len() - i,
{
    if 0 <= i < ls.len() && is_blank(ls[i]) {
        first_content(ls, i + 1)
    } else {
        i
    }
}

/// The first index from `i` on whose line is a delimiter, or the number of lines.
pub open spec fn next_delim(ls: Seq<Seq<char>>, i: int) -> int
    decreases ls.len() - i,
{
    if 0 <= i < ls.len() && !is_delim(ls[i]) {
        next_delim(ls, i + 1)
    } else {
        i
    }
}

/// The first index from `i` on that holds `:`, or the length.
pub open spec fn colon_from(l: Seq<char>, i: int) -> int
    decreases l.len() - i,
{
    if 0 <= i < l.len() && l[i] != ':' {
        colon_from(l, i + 1)
    } else {
        i
    }
}

/// A metadata line as key and value: split at the first `:`, both sides trimmed;
/// without `:` the whole line is the key and the value is empty.
pub open spec fn meta_entry(l: Seq<char>) -> (Seq<char>, Seq<char>) {
    let j = colon_from(l, 0);
    if j < l.len() {
        (trim(l.take(j)), trim(l.skip(j + 1)))
    } else {
        (l, seq![])
    }
}

/// The first index from `i` on whose entry has key `k`, or the number of entries.
pub open spec fn key_from(es: MetaModel, k: Seq<char>, i: int) -> int
    decreases es.len() - i,
{
    if 0 <= i < es.len() && es[i].0 != k {
        key_from(es, k, i + 1)
    } else {
        i
    }
}

/// Records `e`: it replaces the entry with the same key, or is added at the end.
pub open spec fn put_entry(es: MetaModel, e: (Seq<char>, Seq<char>)) -> MetaModel {
    let j = key_from(es, e.0, 0);
    if 0 <= j < es.len() {
        es.update(j, e)
    } else {
        es.push(e)
    }
}

/// The entries of the metadata lines `ls`, later keys overwriting earlier ones;
/// blank lines are skipped.
pub open spec fn entries_of(ls: Seq<Seq<char>>) -> MetaModel
    decreases ls.len(),
{
    if ls.len() == 0 {
        seq![]
    } else if is_blank(ls.last()) {
        entries_of(ls.drop_last())
    } else {
        put_entry(entries_of(ls.drop_last()), meta_entry(ls.last()))
    }
}

/// Metadata and body of `text`. Leading blank lines are skipped; if the next line
/// is `---`, the lines up to the next `---` are metadata and the body is the text
/// that follows the line ending of that closing `---`, unchanged; with no closing
/// `---`, or none followed by a line ending, all lines after the opening one are
/// metadata and the body is empty. Otherwise there is no metadata and the body is
/// `text` itself.
pub open spec fn split_front(text: Seq<char>) -> (MetaModel, Seq<char>) {
    let ls = lines(text);
    let k = first_content(ls, 0);
    if k < ls.len() && is_delim(ls[k]) {
        let m = next_delim(ls, k + 1);
        (
            entries_of(ls.subrange(k + 1, m)),
            if m < breaks(text).len() {
                text.skip(breaks(text)[m])
            } else {
                seq![]
            },
        )
    } else {
        (seq![], text)
    }
}

proof fn lemma_first_content_bounds(ls: Seq<Seq<char>>, i: int)
    requires
        0 <= i <= ls.len(),
    ensures
        i <= first_content(ls, i) <= ls.len(),
        forall|j: int| i <= j < first_content(ls, i) ==> is_blank(#[trigger] ls[j]),
    decreases ls.len() - i,
{
    if i < ls.len() && is_blank(ls[i]) {
        lemma_first_content_bounds(ls, i + 1);
    }
}

proof fn lemma_next_delim_bounds(ls: Seq<Seq<char>>, i: int)
    requires
        0 <= i <= ls.len(),
    ensures
        i <= next_delim(ls, i) <= ls.len(),
        forall|j: int| i <= j < next_delim(ls, i) ==> !is_delim(#[trigger] ls[j]),
    decreases ls.len() - i,
{
    if i < ls.len() && !is_delim(ls[i]) {
        lemma_next_delim_bounds(ls, i + 1);
    }
}

fn is_delim_line(l: &Vec<char>) -> (r: bool)
    ensures
        r == is_delim(l@),
{
    if l.len() == 3 && l[0] == '-' && l[1] == '-' && l[2] == '-' {
        assert(l@ =~= seq!['-', '-', '-']);
        true
    } else {
        false
    }
}

fn blank_line(l: &Vec<char>) -> (r: bool)
    ensures
        r == is_blank(l@),
{
    let (a, b) = trim_bounds(l, 0, l.len());
    assert(l@.subrange(0, l.len() as int) =~= l@);
    a == b
}

fn entry_of(l: &Vec<char>) -> (r: (String, String))
    ensures
        (r.0@, r.1@) == meta_entry(l@),
{
    let mut j: usize = 0;
    while j < l.len() && l[j] != ':'
        invariant
            j <= l.len(),
            colon_from(l@, 0) == colon_from(l@, j as int),
        decreases l.len() - j,
    {
        j += 1;
    }
    if j < l.len() {
        let (a, b) = trim_bounds(l, 0, j);
        let (c, d) = trim_bounds(l, j + 1, l.len());
        assert(l@.subrange(0, j as int) =~= l@.take(j as int));
        assert(l@.subrange(j + 1, l.len() as int) =~= l@.skip(j + 1));
        (string_of(l, a, b), string_of(l, c, d))
    } else {
        assert(l@.subrange(0, l.len() as int) =~= l@);
        (string_of(l, 0, l.len()), String::new())
    }
}

fn put(es: &mut Meta, e: (String, String))
    ensures
        meta_view(final(es)@) == put_entry(meta_view(old(es)@), (e.0@, e.1@)),
{
    let ghost ev = meta_view(es@);
    let mut j: usize = 0;
    while j < es.len() && es[j].0 != e.0
        invariant
            j <= es.len(),
            ev == meta_view(es@),
            key_from(ev, e.0@, 0) == key_from(ev, e.0@, j as int),
        decreases es.len() - j,
    {
        j += 1;
    }
    let ghost ev2 = (e.0@, e.1@);
    if j < es.len() {
        es.set(j, e);
        assert(meta_view(es@) =~= ev.update(j as int, ev2));
    } else {
        es.push(e);
        assert(meta_view(es@) =~= ev.push(ev2));
    }
}

/// Splits `file` into its metadata and its body, as `split_front` says.
pub fn split_meta(file: &str) -> (r: (Meta, String))
    ensures
        meta_view(r.0@) == split_front(file@).0,
        keys_unique(meta_view(r.0@)),
        r.1@ == split_front(file@).1,
{
    let v = chars_of(file);
    let ls = lines_of(&v);
    let ghost lv = ls@.map_values(|l: Vec<char>| l@);
    proof {
        lemma_first_content_bounds(lv, 0);
    }
    let mut k: usize = 0;
    while k < ls.len() && blank_line(&ls[k])
        invariant
            k <= ls.len(),
            lv == ls@.map_values(|l: Vec<char>| l@),
            first_content(lv, 0) == first_content(lv, k as int),
        decreases ls.len() - k,
    {
        k += 1;
    }
    if k == ls.len() || !is_delim_line(&ls[k]) {
        let mut body = String::new();
        let mut i: usize = 0;
        while i < v.len()
            invariant
                i <= v.len(),
                v@ == file@,
                body@ == v@.take(i as int),
            decreases v.len() - i,
        {
            push_char(&mut body, v[i]);
            assert(v@.take(i + 1) =~= v@.take(i as int).push(v[i as int]));
            i += 1;
        }
        assert(v@.take(i as int) =~= v@);
        return (Vec::new(), body);
    }
    proof {
        lemma_next_delim_bounds(lv, k + 1);
    }
    let mut es: Meta = Vec::new();
    let mut m: usize = k + 1;
    while m < ls.len() && !is_delim_line(&ls[m])
        invariant
            k + 1 <= m <= ls.len(),
            lv == ls@.map_values(|l: Vec<char>| l@),
            next_delim(lv, k + 1) == next_delim(lv, m as int),
            meta_view(es@) == entries_of(lv.subrange(k + 1, m as int)),
        decreases ls.len() - m,
    {
        assert(lv.subrange(k + 1, m + 1).drop_last() =~= lv.subrange(k + 1, m as int));
        if !blank_line(&ls[m]) {
            let e = entry_of(&ls[m]);
            put(&mut es, e);
        }
        m += 1;
    }
    let br = line_breaks(&v);
    proof {
        lemma_breaks(v@);
        if m < br.len() {
            assert(br@.map_values(|b: usize| b as int)[m as int] == br@[m as int] as int);
        }
    }
    let body = if m < br.len() {
        let from = br[m];
        assert(v@.subrange(from as int, v.len() as int) =~= v@.skip(from as int));
        string_of(&v, from, v.len())
    } else {
        String::new()
    };
    proof {
        lemma_entries_of(lv.subrange(k + 1, m as int));
    }
    (es, body)
}

/// The entries as a map: a later entry for a key overrides an earlier one.
pub open spec fn entries_map(es: MetaModel) -> Map<Seq<char>, Seq<char>>
    decreases es.len(),
{
    if es.len() == 0 {
        Map::empty()
    } else {
        entries_map(es.drop_last()).insert(es.last().0, es.last().1)
    }
}

/// The key/value pairs that the non-blank lines `ls` give, the last one for a key winning.
pub open spec fn pairs_map(ls: Seq<Seq<char>>) -> Map<Seq<char>, Seq<char>>
    decreases ls.len(),
{
    if ls.len() == 0 {
        Map::empty()
    } else if is_blank(ls.last()) {
        pairs_map(ls.drop_last())
    } else {
        pairs_map(ls.drop_last()).insert(meta_entry(ls.last()).0, meta_entry(ls.last()).1)
    }
}

/// No key appears twice.
pub open spec fn keys_unique(es: MetaModel) -> bool {
    forall|i: int, j: int| 0 <= i < j < es.len() ==> es[i].0 != es[j].0
}

proof fn lemma_key_from(es: MetaModel, k: Seq<char>, i: int)
    requires
        0 <= i <= es.len(),
    ensures
        i <= key_from(es, k, i) <= es.len(),
        key_from(es, k, i) < es.len() ==> es[key_from(es, k, i)].0 == k,
        forall|m: int| i <= m < key_from(es, k, i) ==> (#[trigger] es[m]).0 != k,
    decreases es.len() - i,
{
    if i < es.len() && es[i].0 != k {
        lemma_key_from(es, k, i + 1);
    }
}

proof fn lemma_update_map(es: MetaModel, j: int, e: (Seq<char>, Seq<char>))
    requires
        keys_unique(es),
        0 <= j < es.len(),
        es[j].0 == e.0,
    ensures
        entries_map(es.update(j, e)) == entries_map(es).insert(e.0, e.1),
    decreases es.len(),
{
    let u = es.update(j, e);
    if j == es.len() - 1 {
        assert(u.drop_last() =~= es.drop_last());
        assert(entries_map(u) =~= entries_map(es).insert(e.0, e.1));
    } else {
        let d = es.drop_last();
        assert(u.drop_last() =~= d.update(j, e));
        lemma_update_map(d, j, e);
        assert(es.last().0 != e.0);
        assert(entries_map(u) =~= entries_map(es).insert(e.0, e.1));
    }
}

proof fn lemma_put_entry(es: MetaModel, e: (Seq<char>, Seq<char>))
    requires
        keys_unique(es),
    ensures
        keys_unique(put_entry(es, e)),
        entries_map(put_entry(es, e)) == entries_map(es).insert(e.0, e.1),
{
    lemma_key_from(es, e.0, 0);
    let j = key_from(es, e.0, 0);
    if j < es.len() {
        lemma_update_map(es, j, e);
    } else {
        assert(es.push(e).drop_last() =~= es);
    }
}

/// The entries of metadata lines hold each key once, with the last value given
/// for it.
pub proof fn lemma_entries_of(ls: Seq<Seq<char>>)
    ensures
        keys_unique(entries_of(ls)),
        entries_map(entries_of(ls)) == pairs_map(ls),
    decreases ls.len(),
{
    if ls.len() > 0 {
        lemma_entries_of(ls.drop_last());
        if !is_blank(ls.last()) {
            lemma_put_entry(entries_of(ls.drop_last()), meta_entry(ls.last()));
        }
    } else {
        assert(entries_map(seq![]) =~= pairs_map(ls));
    }
}

proof fn lemma_next_delim_at(ls: Seq<Seq<char>>, i: int, n: int)
    requires
        0 <= i <= n < ls.len(),
        forall|m: int| i <= m < n ==> !is_delim(#[trigger] ls[m]),
        is_delim(ls[n]),
    ensures
        next_delim(ls, i) == n,
    decreases n - i,
{
    if i < n {
        lemma_next_delim_at(ls, i + 1, n);
    }
}

/// The text `---`, the metadata lines `ms` (none of them `---`), `---`, each
/// followed by `\n`, and then any text `rest`: its metadata are the entries of
/// `ms`, each key once with the last value given for it, and its body is `rest`,
/// unchanged.
pub proof fn lemma_front_matter(ms: Seq<Seq<char>>, rest: Seq<char>)
    requires
        forall|i: int| 0 <= i < ms.len() ==> is_text_line(#[trigger] ms[i]) && !is_delim(ms[i]),
    ensures
        ({
            let text = terminated(seq![seq!['-', '-', '-']] + ms + seq![seq!['-', '-', '-']]) + rest;
            &&& split_front(text).0 == entries_of(ms)
            &&& keys_unique(split_front(text).0)
            &&& entries_map(split_front(text).0) == pairs_map(ms)
            &&& split_front(text).1 == rest
        }),
{
    let d = seq!['-', '-', '-'];
    let all = seq![d] + ms + seq![d];
    let p = terminated(all);
    let text = p + rest;
    let n: int = 1 + ms.len() as int;
    assert forall|i: int| 0 <= i < all.len() implies is_text_line(#[trigger] all[i]) by {
        if 1 <= i < n {
            assert(all[i] == ms[i - 1]);
        }
    }
    lemma_lines_after(all, rest);
    let ls = lines(text);
    assert(ls[0] == d);
    assert(trim_start(d) == d);
    assert(trim_end(d) == d);
    assert(!is_blank(ls[0]));
    assert(ls[n] == d);
    assert forall|m: int| 1 <= m < n implies !is_delim(#[trigger] ls[m]) by {
        assert(ls[m] == ms[m - 1]);
    }
    lemma_next_delim_at(ls, 1, n);
    assert(ls.subrange(1, n) =~= ms);
    assert(text.skip(p.len() as int) =~= rest);
    lemma_entries_of(ms);
}

/// A text none of whose lines is `---` has no metadata, and its body is the text.
pub proof fn lemma_no_front_matter(text: Seq<char>)
    requires
        forall|i: int| 0 <= i < lines(text).len() ==> !is_delim(#[trigger] lines(text)[i]),
    ensures
        split_front(text).0 == Seq::<(Seq<char>, Seq<char>)>::empty(),
        split_front(text).1 == text,
{
    lemma_first_content_bounds(lines(text), 0);
}

} // verus!
