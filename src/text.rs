//! Character-level helpers: whitespace, trimming, words and lines.

use vstd::prelude::*;

verus! {

/// The Unicode `White_Space` property, as `char::is_whitespace` documents it.
pub open spec fn is_ws(c: char) -> bool {
    let u = c as u32;
    (0x09 <= u && u <= 0x0D) || u == 0x20 || u == 0x85 || u == 0xA0 || u == 0x1680
        || (0x2000 <= u && u <= 0x200A) || u == 0x2028 || u == 0x2029 || u == 0x202F
        || u == 0x205F || u == 0x3000
}

pub fn is_space(c: char) -> (r: bool)
    ensures
        r == is_ws(c),
{
    let u = c as u32;
    (0x09 <= u && u <= 0x0D) || u == 0x20 || u == 0x85 || u == 0xA0 || u == 0x1680
        || (0x2000 <= u && u <= 0x200A) || u == 0x2028 || u == 0x2029 || u == 0x202F
        || u == 0x205F || u == 0x3000
}

/// `s` without its leading whitespace.
pub open spec fn trim_start(s: Seq<char>) -> Seq<char>
    decreases s.len(),
{
    if s.len() > 0 && is_ws(s[0]) {
        trim_start(s.drop_first())
    } else {
        s
    }
}

/// `s` without its trailing whitespace.
pub open spec fn trim_end(s: Seq<char>) -> Seq<char>
    decreases s.len(),
{
    if s.len() > 0 && is_ws(s.last()) {
        trim_end(s.drop_last())
    } else {
        s
    }
}

/// `s` without leading and trailing whitespace.
pub open spec fn trim(s: Seq<char>) -> Seq<char> {
    trim_end(trim_start(s))
}

/// A line is blank when it holds whitespace only.
pub open spec fn is_blank(s: Seq<char>) -> bool {
    trim(s).len() == 0
}

/// Scanning `s` from the left: the words completed so far, and the word being read.
pub open spec fn scan_words(s: Seq<char>) -> (Seq<Seq<char>>, Seq<char>)
    decreases s.len(),
{
    if s.len() == 0 {
        (seq![], seq![])
    } else {
        let (ws, cur) = scan_words(s.drop_last());
        if is_ws(s.last()) {
            if cur.len() > 0 {
                (ws.push(cur), seq![])
            } else {
                (ws, seq![])
            }
        } else {
            (ws, cur.push(s.last()))
        }
    }
}

/// The maximal runs of non-whitespace characters of `s`, in order.
pub open spec fn words(s: Seq<char>) -> Seq<Seq<char>> {
    let (ws, cur) = scan_words(s);
    if cur.len() > 0 {
        ws.push(cur)
    } else {
        ws
    }
}

/// The words joined with one space between neighbours.
pub open spec fn join_words(ws: Seq<Seq<char>>) -> Seq<char>
    decreases ws.len(),
{
    if ws.len() == 0 {
        seq![]
    } else if ws.len() == 1 {
        ws[0]
    } else {
        join_words(ws.drop_last()) + seq![' '] + ws.last()
    }
}

/// A line ended by `\n` loses one `\r` that stands right before it.
pub open spec fn strip_cr(l: Seq<char>) -> Seq<char> {
    if l.len() > 0 && l.last() == '\r' {
        l.drop_last()
    } else {
        l
    }
}

/// Scanning `s` from the left: the lines completed so far, and the line being read.
pub open spec fn scan_lines(s: Seq<char>) -> (Seq<Seq<char>>, Seq<char>)
    decreases s.len(),
{
    if s.len() == 0 {
        (seq![], seq![])
    } else {
        let (ls, cur) = scan_lines(s.drop_last());
        if s.last() == '\n' {
            (ls.push(strip_cr(cur)), seq![])
        } else {
            (ls, cur.push(s.last()))
        }
    }
}

/// The lines of `s`: split at `\n` or `\r\n`; a last line that is empty is not one.
pub open spec fn lines(s: Seq<char>) -> Seq<Seq<char>> {
    let (ls, cur) = scan_lines(s);
    if cur.len() > 0 {
        ls.push(cur)
    } else {
        ls
    }
}

/// The offsets just after each `\n` of `s`: where each line after the first begins.
pub open spec fn breaks(s: Seq<char>) -> Seq<int>
    decreases s.len(),
{
    if s.len() == 0 {
        seq![]
    } else if s.last() == '\n' {
        breaks(s.drop_last()).push(s.len() as int)
    } else {
        breaks(s.drop_last())
    }
}

/// The lines `ls`, each followed by `\n`.
pub open spec fn terminated(ls: Seq<Seq<char>>) -> Seq<char>
    decreases ls.len(),
{
    if ls.len() == 0 {
        seq![]
    } else {
        terminated(ls.drop_last()) + ls.last() + seq!['\n']
    }
}

/// A line as it stands in a text: no `\n`, and no `\r` at its end.
pub open spec fn is_text_line(l: Seq<char>) -> bool {
    (forall|i: int| 0 <= i < l.len() ==> l[i] != '\n') && !(l.len() > 0 && l.last() == '\r')
}

/// Each completed line has its break; breaks lie within `s`.
pub proof fn lemma_breaks(s: Seq<char>)
    ensures
        breaks(s).len() == scan_lines(s).0.len(),
        forall|i: int| 0 <= i < breaks(s).len() ==> 0 < #[trigger] breaks(s)[i] <= s.len(),
    decreases s.len(),
{
    if s.len() > 0 {
        lemma_breaks(s.drop_last());
    }
}

proof fn lemma_append(p: Seq<char>, r: Seq<char>)
    requires
        scan_lines(p).1.len() == 0,
    ensures
        scan_lines(p + r) == (scan_lines(p).0 + scan_lines(r).0, scan_lines(r).1),
        breaks(p + r).len() >= breaks(p).len(),
        forall|i: int| 0 <= i < breaks(p).len() ==> #[trigger] breaks(p + r)[i] == breaks(p)[i],
    decreases r.len(),
{
    if r.len() == 0 {
        assert(p + r =~= p);
        assert(scan_lines(p).0 + scan_lines(r).0 =~= scan_lines(p).0);
        assert(scan_lines(p).1 =~= scan_lines(r).1);
    } else {
        lemma_append(p, r.drop_last());
        assert((p + r).drop_last() =~= p + r.drop_last());
        assert((p + r).last() == r.last());
        let (a, cur) = scan_lines(r.drop_last());
        assert((scan_lines(p).0 + a).push(strip_cr(cur)) =~= scan_lines(p).0 + a.push(strip_cr(cur)));
    }
}

proof fn lemma_line_chars(p: Seq<char>, l: Seq<char>, n: int)
    requires
        scan_lines(p).1.len() == 0,
        0 <= n <= l.len(),
        is_text_line(l),
    ensures
        scan_lines(p + l.take(n)) == (scan_lines(p).0, l.take(n)),
        breaks(p + l.take(n)) == breaks(p),
    decreases n,
{
    if n == 0 {
        assert(p + l.take(0) =~= p);
        assert(l.take(0) =~= scan_lines(p).1);
    } else {
        lemma_line_chars(p, l, n - 1);
        assert((p + l.take(n)).drop_last() =~= p + l.take(n - 1));
        assert(l.take(n - 1).push(l[n - 1]) =~= l.take(n));
    }
}

/// Text made of lines each followed by `\n` splits back into those lines, and its
/// last break is its end.
pub proof fn lemma_terminated(ls: Seq<Seq<char>>)
    requires
        forall|i: int| 0 <= i < ls.len() ==> is_text_line(#[trigger] ls[i]),
    ensures
        scan_lines(terminated(ls)) == (ls, Seq::<char>::empty()),
        breaks(terminated(ls)).len() == ls.len(),
        ls.len() > 0 ==> breaks(terminated(ls)).last() == terminated(ls).len(),
    decreases ls.len(),
{
    if ls.len() == 0 {
        assert(scan_lines(terminated(ls)).0 =~= ls);
    } else {
        let q = terminated(ls.drop_last());
        let l = ls.last();
        lemma_terminated(ls.drop_last());
        assert(is_text_line(l));
        lemma_line_chars(q, l, l.len() as int);
        assert(l.take(l.len() as int) =~= l);
        let t = terminated(ls);
        assert(t.drop_last() =~= q + l);
        assert(t.last() == '\n');
        assert(strip_cr(l) == l);
        assert(ls.drop_last().push(l) =~= ls);
        lemma_breaks(t);
    }
}

/// Lines that end in `\n`, then any text: the lines are those lines followed by
/// the lines of the text, and the break after the last of them is where the text
/// begins.
pub proof fn lemma_lines_after(ls: Seq<Seq<char>>, r: Seq<char>)
    requires
        ls.len() > 0,
        forall|i: int| 0 <= i < ls.len() ==> is_text_line(#[trigger] ls[i]),
    ensures
        lines(terminated(ls) + r) == ls + lines(r),
        breaks(terminated(ls) + r).len() >= ls.len(),
        breaks(terminated(ls) + r)[ls.len() - 1] == terminated(ls).len(),
{
    let p = terminated(ls);
    lemma_terminated(ls);
    lemma_append(p, r);
    let (a, cur) = scan_lines(r);
    if cur.len() > 0 {
        assert((ls + a).push(cur) =~= ls + a.push(cur));
    }
}

/// Relies on `String::push`: appends one character.
#[verifier::external_body]
pub(crate) fn push_char(s: &mut String, c: char)
    ensures
        final(s)@ == old(s)@.push(c),
{
    s.push(c)
}

/// The characters of `s`, in order.
pub fn chars_of(s: &str) -> (r: Vec<char>)
    ensures
        r@ == s@,
{
    let mut r: Vec<char> = Vec::new();
    for c in it: s.chars()
        invariant
            it.seq() == s@,
            r@ == it.seq().take(it.index() as int),
    {
        r.push(c);
    }
    r
}

/// A `String` holding the characters `v[lo..hi]`.
pub fn string_of(v: &Vec<char>, lo: usize, hi: usize) -> (r: String)
    requires
        lo <= hi <= v.len(),
    ensures
        r@ == v@.subrange(lo as int, hi as int),
{
    let mut r = String::new();
    let mut i = lo;
    while i < hi
        invariant
            lo <= i <= hi <= v.len(),
            r@ == v@.subrange(lo as int, i as int),
        decreases hi - i,
    {
        push_char(&mut r, v[i]);
        assert(v@.subrange(lo as int, i + 1) =~= v@.subrange(lo as int, i as int).push(v[i as int]));
        i += 1;
    }
    r
}

/// The bounds of `v[lo..hi]` once trimmed.
pub fn trim_bounds(v: &Vec<char>, lo: usize, hi: usize) -> (r: (usize, usize))
    requires
        lo <= hi <= v.len(),
    ensures
        lo <= r.0 <= r.1 <= hi,
        v@.subrange(r.0 as int, r.1 as int) == trim(v@.subrange(lo as int, hi as int)),
{
    let mut a = lo;
    while a < hi && is_space(v[a])
        invariant
            lo <= a <= hi <= v.len(),
            trim_start(v@.subrange(lo as int, hi as int)) == trim_start(v@.subrange(a as int, hi as int)),
        decreases hi - a,
    {
        assert(v@.subrange(a as int, hi as int).drop_first() =~= v@.subrange(a + 1, hi as int));
        a += 1;
    }
    assert(trim_start(v@.subrange(a as int, hi as int)) == v@.subrange(a as int, hi as int));
    let mut b = hi;
    while b > a && is_space(v[b - 1])
        invariant
            lo <= a <= b <= hi <= v.len(),
            trim_end(v@.subrange(a as int, hi as int)) == trim_end(v@.subrange(a as int, b as int)),
        decreases b - a,
    {
        assert(v@.subrange(a as int, b as int).drop_last() =~= v@.subrange(a as int, b - 1));
        b -= 1;
    }
    (a, b)
}

/// The words of `v[lo..hi]`.
pub fn words_of(v: &Vec<char>, lo: usize, hi: usize) -> (r: Vec<Vec<char>>)
    requires
        lo <= hi <= v.len(),
    ensures
        r@.map_values(|w: Vec<char>| w@) == words(v@.subrange(lo as int, hi as int)),
{
    let mut ws: Vec<Vec<char>> = Vec::new();
    let mut cur: Vec<char> = Vec::new();
    let mut i = lo;
    while i < hi
        invariant
            lo <= i <= hi <= v.len(),
            (ws@.map_values(|w: Vec<char>| w@), cur@) == scan_words(v@.subrange(lo as int, i as int)),
        decreases hi - i,
    {
        assert(v@.subrange(lo as int, i + 1).drop_last() =~= v@.subrange(lo as int, i as int));
        let c = v[i];
        if is_space(c) {
            if cur.len() > 0 {
                let w = cur;
                cur = Vec::new();
                ws.push(w);
            } else {
                cur = Vec::new();
            }
        } else {
            cur.push(c);
        }
        i += 1;
    }
    if cur.len() > 0 {
        ws.push(cur);
    }
    ws
}

/// The lines of `v`, with their characters.
pub fn lines_of(v: &Vec<char>) -> (r: Vec<Vec<char>>)
    ensures
        r@.map_values(|l: Vec<char>| l@) == lines(v@),
{
    let mut ls: Vec<Vec<char>> = Vec::new();
    let mut cur: Vec<char> = Vec::new();
    let mut i: usize = 0;
    while i < v.len()
        invariant
            i <= v.len(),
            (ls@.map_values(|l: Vec<char>| l@), cur@) == scan_lines(v@.take(i as int)),
        decreases v.len() - i,
    {
        assert(v@.take(i + 1).drop_last() =~= v@.take(i as int));
        let c = v[i];
        if c == '\n' {
            let n = cur.len();
            if n > 0 && cur[n - 1] == '\r' {
                cur.pop();
            }
            let l = cur;
            cur = Vec::new();
            ls.push(l);
        } else {
            cur.push(c);
        }
        i += 1;
    }
    assert(v@.take(v.len() as int) =~= v@);
    if cur.len() > 0 {
        ls.push(cur);
    }
    ls
}

/// The words `ws[from..]` joined with single spaces.
pub fn join_words_from(ws: &Vec<Vec<char>>, from: usize) -> (r: String)
    requires
        from <= ws.len(),
    ensures
        r@ == join_words(ws@.map_values(|w: Vec<char>| w@).skip(from as int)),
{
    let ghost wv = ws@.map_values(|w: Vec<char>| w@);
    let mut r = String::new();
    let mut i = from;
    while i < ws.len()
        invariant
            from <= i <= ws.len(),
            wv == ws@.map_values(|w: Vec<char>| w@),
            r@ == join_words(wv.subrange(from as int, i as int)),
        decreases ws.len() - i,
    {
        assert(wv.subrange(from as int, i + 1).drop_last() =~= wv.subrange(from as int, i as int));
        if i > from {
            push_char(&mut r, ' ');
        }
        let w = &ws[i];
        let mut j: usize = 0;
        let ghost before = r@;
        while j < w.len()
            invariant
                j <= w.len(),
                r@ == before + w@.take(j as int),
            decreases w.len() - j,
        {
            push_char(&mut r, w[j]);
            assert(w@.take(j + 1) =~= w@.take(j as int).push(w[j as int]));
            j += 1;
        }
        assert(w@.take(w.len() as int) =~= w@);
        proof {
            let sub = wv.subrange(from as int, i + 1);
            if i == from {
                assert(before =~= seq![]);
                assert(r@ =~= sub[0]);
            } else {
                assert(r@ =~= join_words(sub.drop_last()) + seq![' '] + sub.last());
            }
        }
        i += 1;
    }
    assert(wv.subrange(from as int, ws.len() as int) =~= wv.skip(from as int));
    r
}

/// A word: at least one character, none of them whitespace.
pub open spec fn is_word(w: Seq<char>) -> bool {
    w.len() > 0 && forall|i: int| 0 <= i < w.len() ==> !is_ws(#[trigger] w[i])
}

proof fn lemma_scan_word_chars(p: Seq<char>, w: Seq<char>, n: int)
    requires
        scan_words(p).1.len() == 0,
        0 <= n <= w.len(),
        forall|i: int| 0 <= i < w.len() ==> !is_ws(#[trigger] w[i]),
    ensures
        scan_words(p + w.take(n)) == (scan_words(p).0, w.take(n)),
    decreases n,
{
    if n == 0 {
        assert(p + w.take(0) =~= p);
        assert(w.take(0) =~= scan_words(p).1);
    } else {
        lemma_scan_word_chars(p, w, n - 1);
        assert((p + w.take(n)).drop_last() =~= p + w.take(n - 1));
        assert(w.take(n - 1).push(w[n - 1]) =~= w.take(n));
    }
}

/// A space, then a word, adds that word.
pub proof fn lemma_words_push_word(s: Seq<char>, w: Seq<char>)
    requires
        is_word(w),
    ensures
        words(s + seq![' '] + w) == words(s).push(w),
{
    let p = s + seq![' '];
    assert(p.drop_last() =~= s);
    assert(is_ws(' '));
    lemma_scan_word_chars(p, w, w.len() as int);
    assert(w.take(w.len() as int) =~= w);
    assert(s + seq![' '] + w =~= p + w);
}

/// The words of words joined by spaces are those words.
pub proof fn lemma_words_of_join(ws: Seq<Seq<char>>)
    requires
        forall|i: int| 0 <= i < ws.len() ==> is_word(#[trigger] ws[i]),
    ensures
        words(join_words(ws)) == ws,
        ws.len() > 0 ==> join_words(ws).len() > 0,
    decreases ws.len(),
{
    if ws.len() == 0 {
        assert(words(seq![]) =~= ws);
    } else if ws.len() == 1 {
        let w = ws[0];
        assert(is_word(w));
        lemma_scan_word_chars(seq![], w, w.len() as int);
        assert(seq![] + w.take(w.len() as int) =~= w);
        assert(words(w) =~= ws);
    } else {
        lemma_words_of_join(ws.drop_last());
        assert(is_word(ws.last()));
        lemma_words_push_word(join_words(ws.drop_last()), ws.last());
        assert(ws.drop_last().push(ws.last()) =~= ws);
    }
}

proof fn lemma_scan_words_word_items(s: Seq<char>)
    ensures
        forall|i: int| 0 <= i < scan_words(s).0.len() ==> is_word(#[trigger] scan_words(s).0[i]),
        forall|i: int| 0 <= i < scan_words(s).1.len() ==> !is_ws(#[trigger] scan_words(s).1[i]),
    decreases s.len(),
{
    if s.len() > 0 {
        lemma_scan_words_word_items(s.drop_last());
        let (ws, cur) = scan_words(s.drop_last());
        let c = s.last();
        if is_ws(c) {
            if cur.len() > 0 {
                assert forall|i: int| 0 <= i < ws.push(cur).len() implies is_word(
                    #[trigger] ws.push(cur)[i],
                ) by {
                    if i < ws.len() {
                        assert(ws.push(cur)[i] == ws[i]);
                    }
                }
            }
        } else {
            assert forall|i: int| 0 <= i < cur.push(c).len() implies !is_ws(
                #[trigger] cur.push(c)[i],
            ) by {
                if i < cur.len() {
                    assert(cur.push(c)[i] == cur[i]);
                }
            }
        }
    }
}

/// Every word of `s` is a word.
pub proof fn lemma_words_are_words(s: Seq<char>)
    ensures
        forall|i: int| 0 <= i < words(s).len() ==> is_word(#[trigger] words(s)[i]),
{
    lemma_scan_words_word_items(s);
}

proof fn lemma_scan_words_ws_front(c: char, t: Seq<char>)
    requires
        is_ws(c),
    ensures
        scan_words(seq![c] + t) == scan_words(t),
    decreases t.len(),
{
    let u = seq![c] + t;
    if t.len() == 0 {
        assert(t =~= Seq::<char>::empty());
        assert(u.drop_last() =~= Seq::<char>::empty());
        assert(u.last() == c);
    } else {
        lemma_scan_words_ws_front(c, t.drop_last());
        assert(u.drop_last() =~= seq![c] + t.drop_last());
        assert(u.last() == t.last());
    }
}

proof fn lemma_words_trim_ends(s: Seq<char>)
    ensures
        words(trim_start(s)) == words(s),
        words(trim_end(s)) == words(s),
    decreases s.len(),
{
    if s.len() > 0 {
        lemma_words_trim_ends(s.drop_first());
        lemma_words_trim_ends(s.drop_last());
        if is_ws(s[0]) {
            lemma_scan_words_ws_front(s[0], s.drop_first());
            assert(seq![s[0]] + s.drop_first() =~= s);
        }
        if is_ws(s.last()) {
            assert(s.drop_last().push(s.last()) =~= s);
        }
    }
}

/// Trimming leaves the words as they are.
pub proof fn lemma_words_trim(s: Seq<char>)
    ensures
        words(trim(s)) == words(s),
{
    lemma_words_trim_ends(s);
    lemma_words_trim_ends(trim_start(s));
}

proof fn lemma_trim_start_shape(s: Seq<char>)
    ensures
        trim_start(s).len() > 0 ==> !is_ws(trim_start(s)[0]),
    decreases s.len(),
{
    if s.len() > 0 && is_ws(s[0]) {
        lemma_trim_start_shape(s.drop_first());
    }
}

proof fn lemma_trim_end_shape(s: Seq<char>)
    ensures
        trim_end(s).len() <= s.len(),
        trim_end(s) == s.take(trim_end(s).len() as int),
        trim_end(s).len() > 0 ==> !is_ws(trim_end(s).last()),
    decreases s.len(),
{
    if s.len() > 0 && is_ws(s.last()) {
        lemma_trim_end_shape(s.drop_last());
        assert(s.drop_last().take(trim_end(s).len() as int) =~= s.take(trim_end(s).len() as int));
    } else {
        assert(s.take(s.len() as int) =~= s);
    }
}

/// Trimming twice is trimming once.
pub proof fn lemma_trim_idempotent(s: Seq<char>)
    ensures
        trim(trim(s)) == trim(s),
{
    let a = trim_start(s);
    let u = trim_end(a);
    lemma_trim_start_shape(s);
    lemma_trim_end_shape(a);
    if u.len() > 0 {
        assert(u[0] == a[0]);
        assert(trim_start(u) == u);
    } else {
        assert(trim_start(u) == u);
    }
}

/// Joining splits off the first word.
pub proof fn lemma_join_front(ws: Seq<Seq<char>>)
    requires
        ws.len() >= 2,
    ensures
        join_words(ws) == ws[0] + seq![' '] + join_words(ws.drop_first()),
    decreases ws.len(),
{
    if ws.len() == 2 {
        assert(ws.drop_first()[0] == ws[1]);
        assert(ws.drop_last() =~= seq![ws[0]]);
        assert(join_words(ws.drop_last()) == ws[0]);
        assert(join_words(ws.drop_first()) == ws[1]);
        assert(join_words(ws) =~= ws[0] + seq![' '] + join_words(ws.drop_first()));
    } else {
        lemma_join_front(ws.drop_last());
        assert(ws.drop_last().drop_first() =~= ws.drop_first().drop_last());
        assert(ws.drop_last()[0] == ws[0]);
        assert(ws.drop_first().last() == ws.last());
        assert(join_words(ws.drop_first()) == join_words(ws.drop_first().drop_last()) + seq![' ']
            + ws.drop_first().last());
        assert(join_words(ws) =~= ws[0] + seq![' '] + join_words(ws.drop_first()));
    }
}

/// The offsets just after each `\n` of `v`.
pub fn line_breaks(v: &Vec<char>) -> (r: Vec<usize>)
    ensures
        r@.map_values(|b: usize| b as int) == breaks(v@),
{
    let mut r: Vec<usize> = Vec::new();
    let mut i: usize = 0;
    while i < v.len()
        invariant
            i <= v.len(),
            r@.map_values(|b: usize| b as int) == breaks(v@.take(i as int)),
        decreases v.len() - i,
    {
        assert(v@.take(i + 1).drop_last() =~= v@.take(i as int));
        let ghost prev = r@;
        if v[i] == '\n' {
            r.push(i + 1);
            assert(r@.map_values(|b: usize| b as int) =~= prev.map_values(|b: usize| b as int).push(
                i + 1,
            ));
        }
        i += 1;
    }
    assert(v@.take(v.len() as int) =~= v@);
    r
}

/// No character of `s` is `\n`.
pub open spec fn no_newline(s: Seq<char>) -> bool {
    forall|i: int| 0 <= i < s.len() ==> s[i] != '\n'
}

proof fn lemma_one_line_scan(l: Seq<char>, n: int)
    requires
        no_newline(l),
        0 <= n <= l.len(),
    ensures
        scan_lines(l.take(n)) == (Seq::<Seq<char>>::empty(), l.take(n)),
    decreases n,
{
    if n == 0 {
        assert(l.take(0) =~= Seq::<char>::empty());
    } else {
        lemma_one_line_scan(l, n - 1);
        assert(l.take(n).drop_last() =~= l.take(n - 1));
        assert(l.take(n - 1).push(l[n - 1]) =~= l.take(n));
    }
}

/// A nonempty text without `\n` is a single line.
pub proof fn lemma_one_line(l: Seq<char>)
    requires
        l.len() > 0,
        no_newline(l),
    ensures
        lines(l) == seq![l],
{
    lemma_one_line_scan(l, l.len() as int);
    assert(l.take(l.len() as int) =~= l);
    assert(Seq::<Seq<char>>::empty().push(l) =~= seq![l]);
}

/// Joined words hold no `\n`.
pub proof fn lemma_join_no_newline(ws: Seq<Seq<char>>)
    requires
        forall|i: int| 0 <= i < ws.len() ==> is_word(#[trigger] ws[i]),
    ensures
        no_newline(join_words(ws)),
    decreases ws.len(),
{
    if ws.len() == 1 {
        assert(is_word(ws[0]));
        assert(is_ws('\n'));
    } else if ws.len() > 1 {
        lemma_join_no_newline(ws.drop_last());
        assert(is_word(ws.last()));
        assert(is_ws('\n'));
        let j = join_words(ws.drop_last()) + seq![' '] + ws.last();
        assert forall|i: int| 0 <= i < j.len() implies j[i] != '\n' by {
            let a = join_words(ws.drop_last()).len() as int;
            if i < a {
                assert(j[i] == join_words(ws.drop_last())[i]);
            } else if i > a {
                assert(j[i] == ws.last()[i - a - 1]);
            }
        }
    }
}

proof fn lemma_trim_start_no_newline(s: Seq<char>)
    requires
        no_newline(s),
    ensures
        no_newline(trim_start(s)),
    decreases s.len(),
{
    if s.len() > 0 && is_ws(s[0]) {
        assert forall|i: int| 0 <= i < s.drop_first().len() implies s.drop_first()[i] != '\n' by {
            assert(s.drop_first()[i] == s[i + 1]);
        }
        lemma_trim_start_no_newline(s.drop_first());
    }
}

/// Trimming a text without `\n` leaves one without `\n`; a text with a word
/// trims to a nonempty one.
pub proof fn lemma_trim_line(s: Seq<char>)
    requires
        no_newline(s),
    ensures
        no_newline(trim(s)),
        words(s).len() > 0 ==> trim(s).len() > 0,
{
    let a = trim_start(s);
    lemma_trim_start_no_newline(s);
    lemma_trim_end_shape(a);
    let t = trim(s);
    assert forall|i: int| 0 <= i < t.len() implies t[i] != '\n' by {
        assert(t[i] == a.take(t.len() as int)[i]);
    }
    lemma_words_trim(s);
    if t.len() == 0 {
        assert(t =~= Seq::<char>::empty());
        assert(words(t) =~= Seq::<Seq<char>>::empty());
    }
}

} // verus!
