//! Folding classified lines into content blocks, nested lists and sections.

use vstd::prelude::*;
use crate::doc::{
    contents_view, lists_view, parts_view, strings_view, Content, ContentModel, ListModel,
    NestedList, Part, PartModel, Section,
};
use crate::lexer::{kinds_view, LineKind, LineKindModel};

verus! {

/// The items of one list as plain values: indentation level and text.
pub type ItemsModel = Seq<(nat, Seq<char>)>;

/// The number of leading items of `xs` deeper than level `d`.
pub open spec fn deeper_prefix(xs: ItemsModel, d: nat) -> nat
    decreases xs.len(),
{
    if xs.len() > 0 && xs[0].0 > d {
        1 + deeper_prefix(xs.drop_first(), d)
    } else {
        0
    }
}

proof fn lemma_deeper_prefix(xs: ItemsModel, d: nat, n: int)
    requires
        0 <= n <= xs.len(),
        forall|m: int| 0 <= m < n ==> (#[trigger] xs[m]).0 > d,
        n == xs.len() || xs[n].0 <= d,
    ensures
        deeper_prefix(xs, d) == n,
    decreases n,
{
    if n > 0 {
        lemma_deeper_prefix(xs.drop_first(), d, n - 1);
    }
}

proof fn lemma_deeper_prefix_bound(xs: ItemsModel, d: nat)
    ensures
        deeper_prefix(xs, d) <= xs.len(),
    decreases xs.len(),
{
    if xs.len() > 0 && xs[0].0 > d {
        lemma_deeper_prefix_bound(xs.drop_first(), d);
    }
}

/// A list at depth `d`: an item at level `d` or less is a line; a maximal run of
/// deeper items is one nested group, read at the depth of its first item.
pub open spec fn nest(xs: ItemsModel, d: nat) -> Seq<ListModel>
    decreases xs.len(), (if xs.len() > 0 && xs[0].0 > d { 1nat } else { 0nat }),
    via nest_decreases
{
    if xs.len() == 0 {
        seq![]
    } else if xs[0].0 <= d {
        seq![ListModel::Line(xs[0].1)] + nest(xs.drop_first(), d)
    } else {
        let k = deeper_prefix(xs, d);
        seq![ListModel::More(nest(xs.take(k as int), xs[0].0))] + nest(xs.skip(k as int), d)
    }
}

#[via_fn]
proof fn nest_decreases(xs: ItemsModel, d: nat) {
    if xs.len() > 0 && xs[0].0 > d {
        lemma_deeper_prefix_bound(xs, d);
        assert(deeper_prefix(xs, d) >= 1) by {
            reveal_with_fuel(deeper_prefix, 2);
        }
    }
}

/// A whole list, read at the depth of its first item.
pub open spec fn list_of(xs: ItemsModel) -> Seq<ListModel> {
    if xs.len() == 0 {
        seq![]
    } else {
        nest(xs, xs[0].0)
    }
}

/// The run of lines that is being merged into one block.
#[verifier::ext_equal]
pub enum RunModel {
    Idle,
    Para(Seq<Seq<char>>),
    Quote(Seq<Seq<char>>),
    List(bool, ItemsModel),
}

/// The blocks `done`, followed by the block that `run` makes.
pub open spec fn flush(done: Seq<ContentModel>, run: RunModel) -> Seq<ContentModel> {
    match run {
        RunModel::Idle => done,
        RunModel::Para(ls) => done.push(ContentModel::Paragraph(ls)),
        RunModel::Quote(ls) => done.push(ContentModel::Quote(ls)),
        RunModel::List(ordered, xs) => done.push(
            if ordered {
                ContentModel::Ordered(list_of(xs))
            } else {
                ContentModel::Unordered(list_of(xs))
            },
        ),
    }
}

/// One line read into the blocks made so far and the open run.
pub open spec fn step(st: (Seq<ContentModel>, RunModel), k: LineKindModel) -> (
    Seq<ContentModel>,
    RunModel,
) {
    let (done, run) = st;
    match k {
        LineKindModel::Plain(t) => match run {
            RunModel::Para(ls) => (done, RunModel::Para(ls.push(t))),
            _ => (flush(done, run), RunModel::Para(seq![t])),
        },
        LineKindModel::Quote(t) => match run {
            RunModel::Quote(ls) => (done, RunModel::Quote(ls.push(t))),
            _ => (flush(done, run), RunModel::Quote(seq![t])),
        },
        LineKindModel::Unordered(l, t) => match run {
            RunModel::List(false, xs) => (done, RunModel::List(false, xs.push((l, t)))),
            _ => (flush(done, run), RunModel::List(false, seq![(l, t)])),
        },
        LineKindModel::Ordered(l, t) => match run {
            RunModel::List(true, xs) => (done, RunModel::List(true, xs.push((l, t)))),
            _ => (flush(done, run), RunModel::List(true, seq![(l, t)])),
        },
        LineKindModel::Horizontal => (flush(done, run).push(ContentModel::Horizontal), RunModel::Idle),
        _ => (flush(done, run), RunModel::Idle),
    }
}

pub open spec fn scan_blocks(ks: Seq<LineKindModel>) -> (Seq<ContentModel>, RunModel)
    decreases ks.len(),
{
    if ks.len() == 0 {
        (seq![], RunModel::Idle)
    } else {
        step(scan_blocks(ks.drop_last()), ks.last())
    }
}

/// The content blocks of lines that hold no header: consecutive plain lines make
/// one paragraph, consecutive quote lines one quote, consecutive items of one kind
/// one list; an empty line ends a run, a rule stands alone.
pub open spec fn blocks(ks: Seq<LineKindModel>) -> Seq<ContentModel> {
    let (done, run) = scan_blocks(ks);
    flush(done, run)
}

/// Whether `k` is a header of level `l` or less.
pub open spec fn closes(k: LineKindModel, l: nat) -> bool {
    match k {
        LineKindModel::Header(m, _) => m <= l,
        _ => false,
    }
}

/// The number of leading lines that are no header.
pub open spec fn plain_prefix(ks: Seq<LineKindModel>) -> nat
    decreases ks.len(),
{
    if ks.len() > 0 && !(ks[0] is Header) {
        1 + plain_prefix(ks.drop_first())
    } else {
        0
    }
}

/// The number of leading lines that stand under a header of level `l`.
pub open spec fn body_prefix(ks: Seq<LineKindModel>, l: nat) -> nat
    decreases ks.len(),
{
    if ks.len() > 0 && !closes(ks[0], l) {
        1 + body_prefix(ks.drop_first(), l)
    } else {
        0
    }
}

proof fn lemma_plain_prefix(ks: Seq<LineKindModel>, n: int)
    requires
        0 <= n <= ks.len(),
        forall|m: int| 0 <= m < n ==> !(#[trigger] ks[m] is Header),
        n == ks.len() || ks[n] is Header,
    ensures
        plain_prefix(ks) == n,
    decreases n,
{
    if n > 0 {
        lemma_plain_prefix(ks.drop_first(), n - 1);
    }
}

proof fn lemma_body_prefix(ks: Seq<LineKindModel>, l: nat, n: int)
    requires
        0 <= n <= ks.len(),
        forall|m: int| 0 <= m < n ==> !closes(#[trigger] ks[m], l),
        n == ks.len() || closes(ks[n], l),
    ensures
        body_prefix(ks, l) == n,
    decreases n,
{
    if n > 0 {
        lemma_body_prefix(ks.drop_first(), l, n - 1);
    }
}

proof fn lemma_prefix_bounds(ks: Seq<LineKindModel>, l: nat)
    ensures
        plain_prefix(ks) <= ks.len(),
        body_prefix(ks, l) <= ks.len(),
    decreases ks.len(),
{
    if ks.len() > 0 {
        lemma_prefix_bounds(ks.drop_first(), l);
    }
}

/// The parts of a sequence of lines. A header of level `l` opens a section that
/// holds the following lines up to the next header of level `l` or less; lines
/// before any header make one run of content blocks, none if they make no block.
pub open spec fn tree(ks: Seq<LineKindModel>) -> Seq<PartModel>
    decreases ks.len(),
    via tree_decreases
{
    if ks.len() == 0 {
        seq![]
    } else {
        match ks[0] {
            LineKindModel::Header(l, t) => {
                let k = body_prefix(ks.drop_first(), l);
                seq![PartModel::Section(l, t, tree(ks.subrange(1, 1 + k as int)))] + tree(ks.skip(1 + k as int))
            },
            _ => {
                let k = plain_prefix(ks);
                let bs = blocks(ks.take(k as int));
                (if bs.len() == 0 {
                    seq![]
                } else {
                    seq![PartModel::Content(bs)]
                }) + tree(ks.skip(k as int))
            },
        }
    }
}

#[via_fn]
proof fn tree_decreases(ks: Seq<LineKindModel>) {
    if ks.len() > 0 {
        match ks[0] {
            LineKindModel::Header(l, t) => {
                lemma_prefix_bounds(ks.drop_first(), l);
            },
            _ => {
                lemma_prefix_bounds(ks, 0);
                reveal_with_fuel(plain_prefix, 2);
            },
        }
    }
}

/// Whether no header is more than one level deeper than the header before it,
/// `prev` being the level of the header before `ks`, if any.
pub open spec fn gap_free_after(ks: Seq<LineKindModel>, prev: Option<nat>) -> bool
    decreases ks.len(),
{
    if ks.len() == 0 {
        true
    } else {
        match ks[0] {
            LineKindModel::Header(l, _) => (prev matches Some(p) ==> l <= p + 1)
                && gap_free_after(ks.drop_first(), Some(l)),
            _ => gap_free_after(ks.drop_first(), prev),
        }
    }
}

/// Whether no header of `ks` skips a level below the header before it.
pub open spec fn gap_free(ks: Seq<LineKindModel>) -> bool {
    gap_free_after(ks, None)
}

pub open spec fn items_view(xs: Seq<(usize, String)>) -> ItemsModel {
    xs.map_values(|x: (usize, String)| (x.0 as nat, x.1@))
}

proof fn lemma_more_view(v: Vec<NestedList>)
    ensures
        NestedList::More(v)@ == ListModel::More(lists_view(v@)),
{
    let m = NestedList::More(v)@;
    if let ListModel::More(s) = m {
        assert(s.len() == v.len());
        assert forall|k: int| 0 <= k < v.len() implies s[k] == lists_view(v@)[k] by {}
        assert(s =~= lists_view(v@));
    }
}

proof fn lemma_section_view(sec: Section)
    ensures
        Part::Section(sec)@ == PartModel::Section(
            sec.level as nat,
            sec.header@,
            parts_view(sec.content@),
        ),
{
    let m = Part::Section(sec)@;
    if let PartModel::Section(_, _, s) = m {
        assert(s.len() == sec.content.len());
        assert forall|k: int| 0 <= k < s.len() implies s[k] == parts_view(sec.content@)[k] by {}
        assert(s =~= parts_view(sec.content@));
    }
}

/// The list made of the items `xs[lo..hi]` at depth `d`.
fn nest_items(xs: &Vec<(usize, String)>, lo: usize, hi: usize, d: usize) -> (r: Vec<NestedList>)
    requires
        lo <= hi <= xs.len(),
    ensures
        lists_view(r@) == nest(items_view(xs@).subrange(lo as int, hi as int), d as nat),
    decreases hi - lo, (if lo < hi && xs@[lo as int].0 > d { 1nat } else { 0nat }),
{
    let ghost xv = items_view(xs@);
    let mut out: Vec<NestedList> = Vec::new();
    let mut i = lo;
    while i < hi
        invariant
            lo <= i <= hi <= xs.len(),
            xv == items_view(xs@),
            lists_view(out@) + nest(xv.subrange(i as int, hi as int), d as nat) == nest(
                xv.subrange(lo as int, hi as int),
                d as nat,
            ),
        decreases hi - i,
    {
        let ghost sub = xv.subrange(i as int, hi as int);
        let ghost prev = out@;
        if xs[i].0 <= d {
            let line = NestedList::Line(xs[i].1.clone());
            out.push(line);
            assert(sub.drop_first() =~= xv.subrange(i + 1, hi as int));
            assert(lists_view(out@) =~= lists_view(prev).push(ListModel::Line(sub[0].1)));
            assert(lists_view(out@) + nest(xv.subrange(i + 1, hi as int), d as nat)
                =~= lists_view(prev) + nest(sub, d as nat));
            i += 1;
        } else {
            let level = xs[i].0;
            let mut j = i + 1;
            while j < hi && xs[j].0 > d
                invariant
                    i < j <= hi <= xs.len(),
                    xv == items_view(xs@),
                    forall|m: int| i <= m < j ==> (#[trigger] xv[m]).0 > d,
                decreases hi - j,
            {
                j += 1;
            }
            proof {
                lemma_deeper_prefix(sub, d as nat, j - i);
            }
            let inner = nest_items(xs, i, j, level);
            assert(sub.take(j - i) =~= xv.subrange(i as int, j as int));
            assert(sub.skip(j - i) =~= xv.subrange(j as int, hi as int));
            proof {
                lemma_more_view(inner);
            }
            let group = NestedList::More(inner);
            let ghost gv = group@;
            out.push(group);
            assert(lists_view(out@) =~= lists_view(prev).push(gv));
            assert(lists_view(out@) + nest(xv.subrange(j as int, hi as int), d as nat)
                =~= lists_view(prev) + nest(sub, d as nat));
            i = j;
        }
    }
    out
}

/// The run of lines being merged, as values.
enum OpenRun {
    Idle,
    Para(Vec<String>),
    Quote(Vec<String>),
    List(bool, Vec<(usize, String)>),
}

spec fn run_model(run: OpenRun) -> RunModel {
        match run {
            OpenRun::Idle => RunModel::Idle,
            OpenRun::Para(ls) => RunModel::Para(strings_view(ls@)),
            OpenRun::Quote(ls) => RunModel::Quote(strings_view(ls@)),
            OpenRun::List(o, xs) => RunModel::List(o, items_view(xs@)),
        }
}

fn flush_run(done: &mut Vec<Content>, run: OpenRun)
    ensures
        contents_view(final(done)@) == flush(contents_view(old(done)@), run_model(run)),
{
    let ghost prev = done@;
    let ghost rv = run_model(run);
    let c = match run {
        OpenRun::Idle => {
            return;
        },
        OpenRun::Para(ls) => Content::Paragraph(ls),
        OpenRun::Quote(ls) => Content::Quote(ls),
        OpenRun::List(ordered, xs) => {
            let items = if xs.len() == 0 {
                let e: Vec<NestedList> = Vec::new();
                assert(lists_view(e@) =~= seq![]);
                e
            } else {
                assert(items_view(xs@).subrange(0, xs.len() as int) =~= items_view(xs@));
                nest_items(&xs, 0, xs.len(), xs[0].0)
            };
            assert(lists_view(items@) == list_of(items_view(xs@)));
            if ordered {
                Content::Ordered(items)
            } else {
                Content::Unordered(items)
            }
        },
    };
    let ghost cv = c@;
    done.push(c);
    assert(contents_view(done@) =~= contents_view(prev).push(cv));
}

fn one_string(s: String) -> (r: Vec<String>)
    ensures
        strings_view(r@) == seq![s@],
{
    let mut v: Vec<String> = Vec::new();
    v.push(s);
    assert(strings_view(v@) =~= seq![s@]);
    v
}

fn push_string(v: Vec<String>, s: String) -> (r: Vec<String>)
    ensures
        strings_view(r@) == strings_view(v@).push(s@),
{
    let mut v = v;
    let ghost prev = v@;
    v.push(s);
    assert(strings_view(v@) =~= strings_view(prev).push(s@));
    v
}

fn push_item(v: Vec<(usize, String)>, l: usize, s: String) -> (r: Vec<(usize, String)>)
    ensures
        items_view(r@) == items_view(v@).push((l as nat, s@)),
{
    let mut v = v;
    let ghost prev = v@;
    v.push((l, s));
    assert(items_view(v@) =~= items_view(prev).push((l as nat, s@)));
    v
}

fn step_run(done: &mut Vec<Content>, run: OpenRun, k: &LineKind) -> (r: OpenRun)
    ensures
        (contents_view(final(done)@), run_model(r)) == step((contents_view(old(done)@), run_model(run)), k@),
{
    let ghost pre = (contents_view(done@), run_model(run));
    let r = match k {
        LineKind::Plain(t) => match run {
            OpenRun::Para(ls) => OpenRun::Para(push_string(ls, t.clone())),
            other => {
                flush_run(done, other);
                OpenRun::Para(one_string(t.clone()))
            },
        },
        LineKind::Quote(t) => match run {
            OpenRun::Quote(ls) => OpenRun::Quote(push_string(ls, t.clone())),
            other => {
                flush_run(done, other);
                OpenRun::Quote(one_string(t.clone()))
            },
        },
        LineKind::Unordered(l, t) => match run {
            OpenRun::List(false, xs) => OpenRun::List(false, push_item(xs, *l, t.clone())),
            other => {
                flush_run(done, other);
                OpenRun::List(false, push_item(Vec::new(), *l, t.clone()))
            },
        },
        LineKind::Ordered(l, t) => match run {
            OpenRun::List(true, xs) => OpenRun::List(true, push_item(xs, *l, t.clone())),
            other => {
                flush_run(done, other);
                OpenRun::List(true, push_item(Vec::new(), *l, t.clone()))
            },
        },
        LineKind::Horizontal => {
            flush_run(done, run);
            let ghost prev = done@;
            done.push(Content::Horizontal);
            assert(contents_view(done@) =~= contents_view(prev).push(ContentModel::Horizontal));
            OpenRun::Idle
        },
        _ => {
            flush_run(done, run);
            OpenRun::Idle
        },
    };
    assert(run_model(r) =~= step(pre, k@).1);
    r
}

/// The content blocks of the lines `ks[lo..hi]`.
fn blocks_of(ks: &Vec<LineKind>, lo: usize, hi: usize) -> (r: Vec<Content>)
    requires
        lo <= hi <= ks.len(),
    ensures
        contents_view(r@) == blocks(kinds_view(ks@).subrange(lo as int, hi as int)),
{
    let ghost kv = kinds_view(ks@);
    let mut done: Vec<Content> = Vec::new();
    let mut run = OpenRun::Idle;
    let mut i = lo;
    assert(kv.subrange(lo as int, lo as int) =~= seq![]);
    assert(contents_view(done@) =~= seq![]);
    while i < hi
        invariant
            lo <= i <= hi <= ks.len(),
            kv == kinds_view(ks@),
            (contents_view(done@), run_model(run)) == scan_blocks(kv.subrange(lo as int, i as int)),
        decreases hi - i,
    {
        assert(kv.subrange(lo as int, i + 1).drop_last() =~= kv.subrange(lo as int, i as int));
        assert(kv[i as int] == ks@[i as int]@);
        run = step_run(&mut done, run, &ks[i]);
        i += 1;
    }
    flush_run(&mut done, run);
    done
}

fn is_header_line(k: &LineKind) -> (r: bool)
    ensures
        r == (k@ is Header),
{
    match k {
        LineKind::Header(..) => true,
        _ => false,
    }
}

fn closes_line(k: &LineKind, l: usize) -> (r: bool)
    ensures
        r == closes(k@, l as nat),
{
    match k {
        LineKind::Header(m, _) => *m <= l,
        _ => false,
    }
}

/// The parts of the lines `ks[lo..hi]`.
fn tree_of(ks: &Vec<LineKind>, lo: usize, hi: usize) -> (r: Vec<Part>)
    requires
        lo <= hi <= ks.len(),
    ensures
        parts_view(r@) == tree(kinds_view(ks@).subrange(lo as int, hi as int)),
    decreases hi - lo,
{
    let ghost kv = kinds_view(ks@);
    let mut out: Vec<Part> = Vec::new();
    let mut i = lo;
    assert(parts_view(out@) =~= seq![]);
    assert(parts_view(out@) + tree(kv.subrange(lo as int, hi as int)) =~= tree(
        kv.subrange(lo as int, hi as int),
    ));
    while i < hi
        invariant
            lo <= i <= hi <= ks.len(),
            kv == kinds_view(ks@),
            parts_view(out@) + tree(kv.subrange(i as int, hi as int)) == tree(
                kv.subrange(lo as int, hi as int),
            ),
        decreases hi - i,
    {
        let ghost sub = kv.subrange(i as int, hi as int);
        let ghost prev = out@;
        assert(sub[0] == ks@[i as int]@);
        match &ks[i] {
            LineKind::Header(l, t) => {
                let l = *l;
                let mut j = i + 1;
                while j < hi && !closes_line(&ks[j], l)
                    invariant
                        i < j <= hi <= ks.len(),
                        kv == kinds_view(ks@),
                        forall|m: int| i < m < j ==> !closes(#[trigger] kv[m], l as nat),
                    decreases hi - j,
                {
                    j += 1;
                }
                proof {
                    let rest = sub.drop_first();
                    assert forall|m: int| 0 <= m < j - i - 1 implies !closes(
                        #[trigger] rest[m],
                        l as nat,
                    ) by {
                        assert(rest[m] == kv[i + 1 + m]);
                    }
                    if j < hi {
                        assert(rest[j - i - 1] == kv[j as int]);
                    }
                    lemma_body_prefix(rest, l as nat, j - i - 1);
                }
                let body = tree_of(ks, i + 1, j);
                assert(sub.subrange(1, j - i) =~= kv.subrange(i + 1, j as int));
                assert(sub.skip(j - i) =~= kv.subrange(j as int, hi as int));
                let sec = Section { level: l, header: t.clone(), content: body };
                proof {
                    lemma_section_view(sec);
                }
                let part = Part::Section(sec);
                let ghost pv = part@;
                out.push(part);
                assert(parts_view(out@) =~= parts_view(prev).push(pv));
                assert(parts_view(out@) + tree(kv.subrange(j as int, hi as int)) =~= parts_view(
                    prev,
                ) + tree(sub));
                i = j;
            },
            _ => {
                let mut j = i + 1;
                while j < hi && !is_header_line(&ks[j])
                    invariant
                        i < j <= hi <= ks.len(),
                        kv == kinds_view(ks@),
                        forall|m: int| i <= m < j ==> !(#[trigger] kv[m] is Header),
                    decreases hi - j,
                {
                    j += 1;
                }
                proof {
                    assert forall|m: int| 0 <= m < j - i implies !(#[trigger] sub[m] is Header) by {
                        assert(sub[m] == kv[i + m]);
                    }
                    if j < hi {
                        assert(sub[j - i] == kv[j as int]);
                    }
                    lemma_plain_prefix(sub, j - i);
                }
                let bs = blocks_of(ks, i, j);
                assert(sub.take(j - i) =~= kv.subrange(i as int, j as int));
                assert(sub.skip(j - i) =~= kv.subrange(j as int, hi as int));
                if bs.len() > 0 {
                    let part = Part::Content(bs);
                    let ghost pv = part@;
                    out.push(part);
                    assert(parts_view(out@) =~= parts_view(prev).push(pv));
                } else {
                    assert(contents_view(bs@) =~= seq![]);
                }
                assert(parts_view(out@) + tree(kv.subrange(j as int, hi as int)) =~= parts_view(
                    prev,
                ) + tree(sub));
                i = j;
            },
        }
    }
    assert(kv.subrange(hi as int, hi as int) =~= seq![]);
    assert(parts_view(out@) + tree(kv.subrange(i as int, hi as int)) =~= parts_view(out@));
    out
}

pub open spec fn level_of(prev: Option<usize>) -> Option<nat> {
    match prev {
        Some(p) => Some(p as nat),
        None => None,
    }
}

fn gap_free_lines(ks: &Vec<LineKind>) -> (r: bool)
    ensures
        r == gap_free(kinds_view(ks@)),
{
    let ghost kv = kinds_view(ks@);
    let mut prev: Option<usize> = None;
    let mut i: usize = 0;
    assert(kv.skip(0) =~= kv);
    while i < ks.len()
        invariant
            i <= ks.len(),
            kv == kinds_view(ks@),
            gap_free(kv) == gap_free_after(kv.skip(i as int), level_of(prev)),
        decreases ks.len() - i,
    {
        assert(kv.skip(i as int).drop_first() =~= kv.skip(i + 1));
        assert(kv.skip(i as int)[0] == ks@[i as int]@);
        if let LineKind::Header(l, _) = &ks[i] {
            if let Some(p) = prev {
                if *l > 0 && *l - 1 > p {
                    return false;
                }
            }
            prev = Some(*l);
        }
        i += 1;
    }
    true
}

/// Why the lines could not be built into a document.
#[derive(Debug, Clone, Copy, PartialEq, Eq)]
pub enum StructuralError {
    /// A header more than one level deeper than the header before it.
    LevelGap,
    /// The builder's own bookkeeping broke; no input leads here.
    Internal,
}

/// The parts of a document from its classified lines; a header that skips a
/// level below the header before it is refused.
pub fn build(lines: &Vec<LineKind>) -> (r: Result<Vec<Part>, StructuralError>)
    ensures
        r is Ok <==> gap_free(kinds_view(lines@)),
        r matches Ok(ps) ==> parts_view(ps@) == tree(kinds_view(lines@)),
        r matches Err(e) ==> e is LevelGap,
{
    if !gap_free_lines(lines) {
        return Err(StructuralError::LevelGap);
    }
    let ps = tree_of(lines, 0, lines.len());
    assert(kinds_view(lines@).subrange(0, lines.len() as int) =~= kinds_view(lines@));
    Ok(ps)
}

/// Two plain lines in a row make one paragraph of two lines.
pub proof fn lemma_plain_lines_merge(a: Seq<char>, b: Seq<char>)
    ensures
        blocks(seq![LineKindModel::Plain(a), LineKindModel::Plain(b)]) == seq![
            ContentModel::Paragraph(seq![a, b]),
        ],
{
    let ks = seq![LineKindModel::Plain(a), LineKindModel::Plain(b)];
    assert(ks.drop_last() =~= seq![LineKindModel::Plain(a)]);
    assert(ks.drop_last().drop_last() =~= Seq::<LineKindModel>::empty());
    let k1 = ks.drop_last();
    assert(k1.last() == LineKindModel::Plain(a));
    assert(scan_blocks(k1.drop_last()) == (Seq::<ContentModel>::empty(), RunModel::Idle));
    assert(scan_blocks(k1) == step((Seq::<ContentModel>::empty(), RunModel::Idle), LineKindModel::Plain(a)));
    assert(scan_blocks(k1) == (Seq::<ContentModel>::empty(), RunModel::Para(seq![a])));
    assert(seq![a].push(b) =~= seq![a, b]);
    assert(blocks(ks) =~= seq![ContentModel::Paragraph(seq![a, b])]);
}

/// A header directly followed by a header of the same or a lower level closes
/// the first section: the two are siblings, neither holding anything.
pub proof fn lemma_header_closes_section(l: nat, a: Seq<char>, m: nat, b: Seq<char>)
    requires
        m <= l,
    ensures
        tree(seq![LineKindModel::Header(l, a), LineKindModel::Header(m, b)]) == seq![
            PartModel::Section(l, a, seq![]),
            PartModel::Section(m, b, seq![]),
        ],
{
    let ks = seq![LineKindModel::Header(l, a), LineKindModel::Header(m, b)];
    let rest = ks.drop_first();
    assert(rest =~= seq![LineKindModel::Header(m, b)]);
    assert(closes(rest[0], l));
    assert(body_prefix(rest, l) == 0);
    assert(ks.subrange(1, 1) =~= Seq::<LineKindModel>::empty());
    assert(tree(ks.subrange(1, 1)) == Seq::<PartModel>::empty());
    assert(ks.skip(1) =~= rest);
    let r2 = rest.drop_first();
    assert(r2 =~= Seq::<LineKindModel>::empty());
    assert(body_prefix(r2, m) == 0);
    assert(rest.subrange(1, 1) =~= Seq::<LineKindModel>::empty());
    assert(rest.skip(1) =~= Seq::<LineKindModel>::empty());
    assert(tree(rest) =~= seq![PartModel::Section(m, b, seq![])]);
    assert(tree(ks) =~= seq![PartModel::Section(l, a, seq![]), PartModel::Section(m, b, seq![])]);
}

/// Every section of `ps`, at any depth, has a level above `floor` and above the
/// level of the section that holds it.
pub open spec fn sections_deeper(ps: Seq<PartModel>, floor: int) -> bool
    decreases ps,
{
    if ps.len() == 0 {
        true
    } else {
        (match ps[0] {
            PartModel::Section(l, _, c) => l > floor && sections_deeper(c, l as int),
            PartModel::Content(_) => true,
        }) && sections_deeper(ps.drop_first(), floor)
    }
}

/// Every header of `ks` has a level above `floor`.
pub open spec fn headers_above(ks: Seq<LineKindModel>, floor: int) -> bool {
    forall|j: int| 0 <= j < ks.len() ==> (#[trigger] ks[j] is Header ==> ks[j]->Header_0 > floor)
}

proof fn lemma_body_headers(ks: Seq<LineKindModel>, l: nat)
    ensures
        headers_above(ks.take(body_prefix(ks, l) as int), l as int),
        body_prefix(ks, l) <= ks.len(),
    decreases ks.len(),
{
    if ks.len() > 0 && !closes(ks[0], l) {
        lemma_body_headers(ks.drop_first(), l);
        let n = body_prefix(ks, l) as int;
        let t = ks.take(n);
        assert forall|j: int| 0 <= j < t.len() implies (#[trigger] t[j] is Header ==> t[j]->Header_0
            > l as int) by {
            if j > 0 {
                assert(t[j] == ks.drop_first().take(n - 1)[j - 1]);
            }
        }
    } else {
        lemma_prefix_bounds(ks, l);
    }
}

proof fn lemma_tree_deeper(ks: Seq<LineKindModel>, floor: int)
    requires
        headers_above(ks, floor),
    ensures
        sections_deeper(tree(ks), floor),
    decreases ks.len(),
{
    if ks.len() > 0 {
        let ps = tree(ks);
        match ks[0] {
            LineKindModel::Header(l, t) => {
                let rest = ks.drop_first();
                let k = body_prefix(rest, l);
                lemma_body_headers(rest, l);
                let body = ks.subrange(1, 1 + k as int);
                assert(body =~= rest.take(k as int));
                lemma_tree_deeper(body, l as int);
                let after = ks.skip(1 + k as int);
                assert forall|j: int| 0 <= j < after.len() implies (#[trigger] after[j] is Header
                    ==> after[j]->Header_0 > floor) by {
                    assert(after[j] == ks[j + 1 + k]);
                }
                lemma_tree_deeper(after, floor);
                let x = PartModel::Section(l, t, tree(body));
                assert(ps == seq![x] + tree(after));
                assert(ps[0] == x);
                assert(ps.drop_first() =~= tree(after));
            },
            _ => {
                let k = plain_prefix(ks);
                lemma_prefix_bounds(ks, 0);
                reveal_with_fuel(plain_prefix, 2);
                let after = ks.skip(k as int);
                assert forall|j: int| 0 <= j < after.len() implies (#[trigger] after[j] is Header
                    ==> after[j]->Header_0 > floor) by {
                    assert(after[j] == ks[j + k]);
                }
                lemma_tree_deeper(after, floor);
                let bs = blocks(ks.take(k as int));
                if bs.len() == 0 {
                    assert(ps =~= tree(after));
                } else {
                    assert(ps[0] == PartModel::Content(bs));
                    assert(ps.drop_first() =~= tree(after));
                }
            },
        }
    }
}

/// In the parts of any lines, a section holds only sections of a greater level:
/// a header of the same or a lower level never nests under an open section.
pub proof fn lemma_sections_nest(ks: Seq<LineKindModel>)
    ensures
        sections_deeper(tree(ks), -1),
{
    lemma_tree_deeper(ks, -1);
}

} // verus!
