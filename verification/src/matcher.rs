//! The match/diff engine.
//!
//! Given a document snapshot and a `(search, replacement)` pair, the engine
//! locates the search text — first exactly, then treating each line's
//! leading whitespace as free — and produces a positional diff, or reports
//! that nothing matched.  Whole-file writes bypass matching.  The engine
//! never mutates a document; it only describes a change.

use vstd::prelude::*;

use crate::text::chars_of;
use crate::text::extend_chars;
use crate::text::string_from_chars;
use vstd::string::StringExecFns;

verus! {

/// `p` occurs in `t` as a contiguous substring starting at `i`.
pub open spec fn occurs_at(t: Seq<char>, p: Seq<char>, i: int) -> bool {
    0 <= i && i + p.len() <= t.len() && t.subrange(i, i + p.len()) == p
}

/// `p` occurs somewhere in `t`.
pub open spec fn contains_seq(t: Seq<char>, p: Seq<char>) -> bool {
    exists|i: int| occurs_at(t, p, i)
}

/// `p` occurs at `i` and nowhere earlier.
pub open spec fn first_occurrence(t: Seq<char>, p: Seq<char>, i: int) -> bool {
    occurs_at(t, p, i) && forall|j: int| 0 <= j < i ==> !occurs_at(t, p, j)
}

/// The text that results from replacing `t[start..end]` with `repl`.
pub open spec fn splice(t: Seq<char>, start: int, end: int, repl: Seq<char>) -> Seq<char> {
    t.take(start) + repl + t.skip(end)
}

/// The earliest occurrence of `p` in `t` at or after `i`, if any.
pub open spec fn first_occ_from(t: Seq<char>, p: Seq<char>, i: int) -> Option<int>
    decreases t.len() - i + 1,
{
    if i + p.len() > t.len() {
        None
    } else if occurs_at(t, p, i) {
        Some(i)
    } else {
        first_occ_from(t, p, i + 1)
    }
}

/// The earliest occurrence of `p` in `t`, if any.
pub open spec fn first_occ(t: Seq<char>, p: Seq<char>) -> Option<int> {
    first_occ_from(t, p, 0)
}

proof fn lemma_first_occ_from_found(t: Seq<char>, p: Seq<char>, k: int, i: int)
    requires
        0 <= k <= i,
        occurs_at(t, p, i),
        forall|j: int| k <= j < i ==> !occurs_at(t, p, j),
    ensures
        first_occ_from(t, p, k) == Some(i),
    decreases i - k,
{
    if k < i {
        lemma_first_occ_from_found(t, p, k + 1, i);
    }
}

/// A first occurrence is what `first_occ` finds.
pub proof fn lemma_first_occ_found(t: Seq<char>, p: Seq<char>, i: int)
    requires
        first_occurrence(t, p, i),
    ensures
        first_occ(t, p) == Some(i),
{
    lemma_first_occ_from_found(t, p, 0, i);
}

proof fn lemma_first_occ_from_none(t: Seq<char>, p: Seq<char>, k: int)
    requires
        forall|j: int| !(#[trigger] occurs_at(t, p, j)),
    ensures
        first_occ_from(t, p, k) is None,
    decreases t.len() - k + 1,
{
    if k + p.len() > t.len() {
    } else {
        lemma_first_occ_from_none(t, p, k + 1);
    }
}

/// Where `p` does not occur, `first_occ` finds nothing.
pub proof fn lemma_first_occ_none(t: Seq<char>, p: Seq<char>)
    requires
        !contains_seq(t, p),
    ensures
        first_occ(t, p) is None,
{
    lemma_first_occ_from_none(t, p, 0);
}

/// A positional description of one text change: replace the characters in
/// `[start, end)` of the document with `replacement`.
pub struct Diff {
    pub start: usize,
    pub end: usize,
    pub replacement: String,
}

/// A diff is well formed for a document when its span lies inside it.
pub open spec fn diff_wf(d: Diff, doc: Seq<char>) -> bool {
    d.start <= d.end <= doc.len()
}

/// True exactly when `pat` occurs in `doc` starting at `at`.
fn matches_at(doc: &str, pat: &str, at: usize) -> (r: bool)
    requires
        at + pat@.len() <= doc@.len(),
    ensures
        r == occurs_at(doc@, pat@, at as int),
{
    let n = doc.unicode_len();
    let m = pat.unicode_len();
    let mut j: usize = 0;
    while j < m
        invariant
            j <= m,
            n == doc@.len(),
            m == pat@.len(),
            at + m <= n,
            forall|k: int| 0 <= k < j ==> doc@[at + k] == pat@[k],
        decreases m - j,
    {
        if doc.get_char(at + j) != pat.get_char(j) {
            proof {
                assert(doc@.subrange(at as int, at + pat@.len())[j as int] != pat@[j as int]);
            }
            return false;
        }
        j = j + 1;
    }
    proof {
        assert(doc@.subrange(at as int, at + pat@.len()) =~= pat@);
    }
    true
}

/// Exact matching: the diff that replaces the first occurrence of `old`
/// in the document with `new`, or `None` when `old` does not occur at all.
pub fn replace_exact(old: &str, new: &str, doc: &str) -> (r: Option<Diff>)
    ensures
        match r {
            Some(d) => first_occurrence(doc@, old@, d.start as int) && d.end == d.start + old@.len()
                && d.replacement@ == new@ && diff_wf(d, doc@),
            None => !contains_seq(doc@, old@),
        },
{
    let n = doc.unicode_len();
    let m = old.unicode_len();
    if m > n {
        proof {
            assert(forall|i: int| !occurs_at(doc@, old@, i));
        }
        return None;
    }
    if m == 0 {
        proof {
            assert(doc@.subrange(0, 0) =~= old@);
        }
        return Some(Diff { start: 0, end: 0, replacement: new.to_owned() });
    }
    let bound = n - m + 1;
    let mut i: usize = 0;
    while i < bound
        invariant
            0 < m <= n,
            n == doc@.len(),
            m == old@.len(),
            bound == n - m + 1,
            i <= bound,
            forall|j: int| 0 <= j < i ==> !occurs_at(doc@, old@, j),
        decreases bound - i,
    {
        if matches_at(doc, old, i) {
            return Some(Diff { start: i, end: i + m, replacement: new.to_owned() });
        }
        i = i + 1;
    }
    proof {
        assert(forall|j: int| j >= bound ==> !occurs_at(doc@, old@, j));
        assert(forall|j: int| !occurs_at(doc@, old@, j));
    }
    None
}

/// Applies a diff to a document snapshot, producing the new content.
pub fn apply_diff(doc: &str, d: &Diff) -> (r: String)
    requires
        diff_wf(*d, doc@),
    ensures
        r@ == splice(doc@, d.start as int, d.end as int, d.replacement@),
{
    let n = doc.unicode_len();
    let mut r = String::from_str(doc.substring_char(0, d.start));
    r.append(d.replacement.as_str());
    r.append(doc.substring_char(d.end, n));
    proof {
        assert(doc@.subrange(0, d.start as int) =~= doc@.take(d.start as int));
        assert(doc@.subrange(d.end as int, n as int) =~= doc@.skip(d.end as int));
        assert(r@ =~= splice(doc@, d.start as int, d.end as int, d.replacement@));
    }
    r
}

/// The diff for a whole-file write: replace the entire current content.
/// It is produced without inspecting the content, so it exists — and,
/// applied, yields exactly the requested content — for every document.
pub fn whole_file_diff(content: &str, doc: &str) -> (d: Diff)
    ensures
        d.start == 0 && d.end == doc@.len() && d.replacement@ == content@,
        diff_wf(d, doc@),
{
    let n = doc.unicode_len();
    Diff { start: 0, end: n, replacement: content.to_owned() }
}

/// A whole-file write always succeeds: applying its diff replaces the
/// document's content entirely with the requested content, whatever the
/// current content is.
pub proof fn lemma_whole_file_write_applies(doc: Seq<char>, content: Seq<char>)
    ensures
        splice(doc, 0, doc.len() as int, content) == content,
{
    assert(splice(doc, 0, doc.len() as int, content) =~= content);
}

/// Exact-match idempotence: after the diff for the sole exact occurrence
/// of `old` is applied, re-running exact match for the same `old` against
/// the mutated document finds nothing.  This needs `old` to occur only
/// once, the replacement not to contain `old`, and no occurrence of `old`
/// to be assembled across the edges of the replaced span; without those
/// conditions a later or freshly assembled occurrence survives the edit.
pub proof fn lemma_exact_match_idempotent(
    doc: Seq<char>,
    old: Seq<char>,
    new: Seq<char>,
    start: int,
)
    requires
        occurs_at(doc, old, start),
        forall|j: int| #[trigger] occurs_at(doc, old, j) ==> j == start,
        !contains_seq(new, old),
        forall|j: int|
            start - old.len() < j < start + new.len() ==> !(#[trigger] occurs_at(
                splice(doc, start, start + old.len(), new),
                old,
                j,
            )),
    ensures
        !contains_seq(splice(doc, start, start + old.len(), new), old),
{
    let result = splice(doc, start, start + old.len(), new);
    assert(old.len() > 0) by {
        if old.len() == 0 {
            assert(new.subrange(0, 0) =~= old);
            assert(occurs_at(new, old, 0));
        }
    }
    assert forall|j: int| !(#[trigger] occurs_at(result, old, j)) by {
        if occurs_at(result, old, j) {
            if j + old.len() <= start {
                assert(doc.subrange(j, j + old.len()) =~= result.subrange(j, j + old.len()));
                assert(occurs_at(doc, old, j));
            } else if j >= start + new.len() {
                let j2 = j - new.len() + old.len();
                assert(doc.subrange(j2, j2 + old.len()) =~= result.subrange(j, j + old.len()));
                assert(occurs_at(doc, old, j2));
            } else {
                assert(start - old.len() < j < start + new.len());
            }
        }
    }
}

/// A leading-whitespace character: a space or a tab.
pub open spec fn is_ws(c: char) -> bool {
    c == ' ' || c == '\t'
}

/// The number of leading whitespace characters of a line.
pub open spec fn leading_ws_len(l: Seq<char>) -> nat
    decreases l.len(),
{
    if l.len() == 0 || !is_ws(l[0]) {
        0
    } else {
        1 + leading_ws_len(l.drop_first())
    }
}

/// The line with its leading whitespace removed.
pub open spec fn strip_ws(l: Seq<char>) -> Seq<char> {
    l.skip(leading_ws_len(l) as int)
}

/// The lines of a text, split at every newline.  A text with no newline is
/// one line; every newline ends a line and begins the next, so a trailing
/// newline yields a final empty line.
pub open spec fn lines_of(t: Seq<char>) -> Seq<Seq<char>>
    decreases t.len(),
{
    if t.len() == 0 {
        seq![Seq::empty()]
    } else if t.last() == '\n' {
        lines_of(t.drop_last()).push(Seq::empty())
    } else {
        let r = lines_of(t.drop_last());
        r.update(r.len() - 1, r.last().push(t.last()))
    }
}

/// The text whose lines are `ls`, joined by newlines.
pub open spec fn join_lines(ls: Seq<Seq<char>>) -> Seq<char>
    decreases ls.len(),
{
    if ls.len() == 0 {
        Seq::empty()
    } else if ls.len() == 1 {
        ls[0]
    } else {
        ls[0] + seq!['\n'] + join_lines(ls.drop_first())
    }
}

/// The run of lines of length `ols.len()` starting at `at` in `dls` matches
/// `ols` line for line, ignoring each line's leading whitespace.
pub open spec fn window_match(dls: Seq<Seq<char>>, ols: Seq<Seq<char>>, at: int) -> bool {
    &&& 0 <= at
    &&& at + ols.len() <= dls.len()
    &&& forall|k: int| 0 <= k < ols.len() ==> strip_ws(dls[at + k]) == strip_ws(#[trigger] ols[k])
}

/// The earliest matching window at or after `at`, if any.
pub open spec fn first_window_from(dls: Seq<Seq<char>>, ols: Seq<Seq<char>>, at: int) -> Option<
    int,
>
    decreases dls.len() - at,
{
    if at + ols.len() > dls.len() {
        None
    } else if window_match(dls, ols, at) {
        Some(at)
    } else {
        first_window_from(dls, ols, at + 1)
    }
}

/// The earliest matching window in the whole document.
pub open spec fn first_window(dls: Seq<Seq<char>>, ols: Seq<Seq<char>>) -> Option<int> {
    first_window_from(dls, ols, 0)
}

proof fn lemma_first_window_from_found(dls: Seq<Seq<char>>, ols: Seq<Seq<char>>, k: int, at: int)
    requires
        0 <= k <= at,
        window_match(dls, ols, at),
        forall|a: int| k <= a < at ==> !window_match(dls, ols, a),
    ensures
        first_window_from(dls, ols, k) == Some(at),
    decreases at - k,
{
    if k < at {
        lemma_first_window_from_found(dls, ols, k + 1, at);
    }
}

/// A matching window with no earlier match is what `first_window` finds.
pub proof fn lemma_first_window_found(dls: Seq<Seq<char>>, ols: Seq<Seq<char>>, at: int)
    requires
        window_match(dls, ols, at),
        forall|a: int| 0 <= a < at ==> !window_match(dls, ols, a),
    ensures
        first_window(dls, ols) == Some(at),
{
    lemma_first_window_from_found(dls, ols, 0, at);
}

/// A run of `n` spaces.
pub open spec fn repeat_space(n: nat) -> Seq<char> {
    Seq::new(n, |i: int| ' ')
}

/// Shifts one replacement line by the indentation delta observed between
/// the matched document line and the search text's first line: a positive
/// delta prepends that many spaces, a negative one removes up to that much
/// leading whitespace.
pub open spec fn shift_line(l: Seq<char>, di: nat, oi: nat) -> Seq<char> {
    if di >= oi {
        repeat_space((di - oi) as nat) + l
    } else {
        if oi - di <= leading_ws_len(l) {
            l.skip(oi - di)
        } else {
            l.skip(leading_ws_len(l) as int)
        }
    }
}

/// Shifts every replacement line by the same indentation delta.
pub open spec fn shift_lines(ls: Seq<Seq<char>>, di: nat, oi: nat) -> Seq<Seq<char>> {
    ls.map_values(|l: Seq<char>| shift_line(l, di, oi))
}

/// The document content produced by flexible-indent matching: the first
/// window of document lines that matches the search lines up to leading
/// whitespace is replaced by the replacement lines, each shifted by the
/// indentation delta of the window's first line.
pub open spec fn flexible_result(doc: Seq<char>, old: Seq<char>, new: Seq<char>) -> Option<
    Seq<char>,
> {
    let dls = lines_of(doc);
    let ols = lines_of(old);
    match first_window(dls, ols) {
        None => None,
        Some(at) => {
            let di = leading_ws_len(dls[at]);
            let oi = leading_ws_len(ols[0]);
            Some(
                join_lines(
                    dls.take(at) + shift_lines(lines_of(new), di, oi) + dls.skip(
                        at + ols.len(),
                    ),
                ),
            )
        },
    }
}

/// The views of the lines held in a vector of character vectors.
pub open spec fn views_of(v: Seq<Vec<char>>) -> Seq<Seq<char>> {
    v.map_values(|x: Vec<char>| x@)
}

proof fn lemma_views_push(s: Seq<Vec<char>>, x: Vec<char>)
    ensures
        views_of(s.push(x)) == views_of(s).push(x@),
{
    assert(views_of(s.push(x)) =~= views_of(s).push(x@));
}

/// A whitespace scan that stops at `i` has found the leading-whitespace
/// length.
proof fn lemma_leading_ws_scan(l: Seq<char>, i: int)
    requires
        0 <= i <= l.len(),
        forall|j: int| 0 <= j < i ==> is_ws(l[j]),
        i == l.len() || !is_ws(l[i]),
    ensures
        leading_ws_len(l) == i,
    decreases l.len(),
{
    if i == 0 {
    } else {
        assert(is_ws(l[0]));
        lemma_leading_ws_scan(l.drop_first(), i - 1);
    }
}

/// The number of leading whitespace characters of a line.
fn ws_len(v: &Vec<char>) -> (r: usize)
    ensures
        r == leading_ws_len(v@),
        r <= v@.len(),
{
    let mut i: usize = 0;
    while i < v.len() && (v[i] == ' ' || v[i] == '\t')
        invariant
            i <= v@.len(),
            forall|j: int| 0 <= j < i ==> is_ws(v@[j]),
        decreases v@.len() - i,
    {
        i = i + 1;
    }
    proof {
        lemma_leading_ws_scan(v@, i as int);
    }
    i
}

/// True exactly when the two lines agree after stripping leading whitespace.
fn strip_eq(a: &Vec<char>, b: &Vec<char>) -> (r: bool)
    ensures
        r == (strip_ws(a@) == strip_ws(b@)),
{
    let la = ws_len(a);
    let lb = ws_len(b);
    if a.len() - la != b.len() - lb {
        proof {
            assert(strip_ws(a@).len() != strip_ws(b@).len());
        }
        return false;
    }
    let bn = b.len();
    let mut ia: usize = la;
    let mut ib: usize = lb;
    while ia < a.len()
        invariant
            la <= ia <= a@.len(),
            lb <= ib <= b@.len(),
            bn == b@.len(),
            ia - la == ib - lb,
            la == leading_ws_len(a@),
            lb == leading_ws_len(b@),
            a@.len() - la == b@.len() - lb,
            forall|j: int| 0 <= j < ia - la ==> a@[la + j] == #[trigger] b@[lb + j],
        decreases a@.len() - ia,
    {
        if a[ia] != b[ib] {
            proof {
                assert(strip_ws(a@)[ia - la] != strip_ws(b@)[ib - lb]);
            }
            return false;
        }
        ia = ia + 1;
        ib = ib + 1;
    }
    proof {
        assert forall|j: int| 0 <= j < strip_ws(a@).len() implies strip_ws(a@)[j] == strip_ws(
            b@,
        )[j] by {
            assert(a@[la + j] == b@[lb + j]);
        }
        assert(strip_ws(a@) =~= strip_ws(b@));
    }
    true
}

/// A copy of a line's characters.
fn clone_chars(v: &Vec<char>) -> (r: Vec<char>)
    ensures
        r@ == v@,
{
    let mut r: Vec<char> = Vec::new();
    extend_chars(&mut r, v);
    proof {
        assert(r@ =~= v@);
    }
    r
}

/// Splits a text into its lines.
fn split_lines(t: &Vec<char>) -> (r: Vec<Vec<char>>)
    ensures
        views_of(r@) == lines_of(t@),
        r@.len() >= 1,
{
    let mut done: Vec<Vec<char>> = Vec::new();
    let mut cur: Vec<char> = Vec::new();
    let mut i: usize = 0;
    proof {
        assert(views_of(done@).push(cur@) =~= lines_of(t@.take(0)));
    }
    while i < t.len()
        invariant
            i <= t@.len(),
            views_of(done@).push(cur@) == lines_of(t@.take(i as int)),
        decreases t@.len() - i,
    {
        let ghost pre_done = done@;
        let ghost pre_cur = cur@;
        let c = t[i];
        proof {
            assert(t@.take(i + 1).drop_last() =~= t@.take(i as int));
            assert(t@.take(i + 1).last() == t@[i as int]);
        }
        if c == '\n' {
            done.push(cur);
            cur = Vec::new();
            proof {
                lemma_views_push(pre_done, done@[done@.len() - 1]);
                assert(views_of(done@).push(cur@) =~= lines_of(t@.take(i as int)).push(
                    Seq::empty(),
                ));
            }
        } else {
            cur.push(c);
            proof {
                let l = lines_of(t@.take(i as int));
                assert(views_of(done@).push(cur@) =~= l.update(l.len() - 1, l.last().push(c)));
            }
        }
        i = i + 1;
    }
    proof {
        assert(t@.take(t@.len() as int) =~= t@);
    }
    let ghost pre_done = done@;
    let ghost pre_cur = cur@;
    done.push(cur);
    proof {
        lemma_views_push(pre_done, done@[done@.len() - 1]);
        assert(views_of(done@) =~= views_of(pre_done).push(pre_cur));
    }
    done
}

/// Joining a sequence of lines with one more line appended.
proof fn lemma_join_push(ls: Seq<Seq<char>>, x: Seq<char>)
    ensures
        join_lines(ls.push(x)) == if ls.len() == 0 {
            x
        } else {
            join_lines(ls) + seq!['\n'] + x
        },
    decreases ls.len(),
{
    if ls.len() == 0 {
        assert(ls.push(x)[0] == x);
    } else if ls.len() == 1 {
        assert(ls.push(x).drop_first() =~= seq![x]);
        assert(join_lines(seq![x]) == x);
    } else {
        assert(ls.push(x).drop_first() =~= ls.drop_first().push(x));
        lemma_join_push(ls.drop_first(), x);
        assert(ls.push(x)[0] == ls[0]);
        assert(ls[0] + seq!['\n'] + (join_lines(ls.drop_first()) + seq!['\n'] + x) =~= (ls[0]
            + seq!['\n'] + join_lines(ls.drop_first())) + seq!['\n'] + x);
    }
}

/// Joins lines with newlines.
fn join_lines_exec(ls: &Vec<Vec<char>>) -> (r: Vec<char>)
    ensures
        r@ == join_lines(views_of(ls@)),
{
    let mut r: Vec<char> = Vec::new();
    let mut i: usize = 0;
    while i < ls.len()
        invariant
            i <= ls@.len(),
            r@ == join_lines(views_of(ls@).take(i as int)),
        decreases ls@.len() - i,
    {
        if i > 0 {
            r.push('\n');
        }
        extend_chars(&mut r, &ls[i]);
        proof {
            let vs = views_of(ls@);
            lemma_join_push(vs.take(i as int), vs[i as int]);
            assert(vs.take(i as int).push(vs[i as int]) =~= vs.take(i + 1));
            if i == 0 {
                assert(r@ =~= join_lines(vs.take(1)));
            } else {
                assert(r@ =~= join_lines(vs.take(i as int)) + seq!['\n'] + vs[i as int]);
            }
        }
        i = i + 1;
    }
    proof {
        assert(views_of(ls@).take(ls@.len() as int) =~= views_of(ls@));
    }
    r
}

/// Shifts one line by the indentation delta `di - oi`.
fn shift_line_exec(l: &Vec<char>, di: usize, oi: usize) -> (r: Vec<char>)
    ensures
        r@ == shift_line(l@, di as nat, oi as nat),
{
    if di >= oi {
        let k = di - oi;
        let mut r: Vec<char> = Vec::new();
        let mut j: usize = 0;
        while j < k
            invariant
                j <= k,
                r@ == repeat_space(j as nat),
            decreases k - j,
        {
            r.push(' ');
            proof {
                assert(repeat_space(j as nat).push(' ') =~= repeat_space((j + 1) as nat));
            }
            j = j + 1;
        }
        extend_chars(&mut r, l);
        r
    } else {
        let lead = ws_len(l);
        let cut = if oi - di <= lead {
            oi - di
        } else {
            lead
        };
        let mut r: Vec<char> = Vec::new();
        let mut j: usize = cut;
        while j < l.len()
            invariant
                cut <= j <= l@.len(),
                r@ == l@.subrange(cut as int, j as int),
            decreases l@.len() - j,
        {
            r.push(l[j]);
            proof {
                assert(l@.subrange(cut as int, j as int).push(l@[j as int]) =~= l@.subrange(
                    cut as int,
                    j + 1,
                ));
            }
            j = j + 1;
        }
        proof {
            assert(l@.subrange(cut as int, l@.len() as int) =~= l@.skip(cut as int));
        }
        r
    }
}

/// True exactly when the window of document lines starting at `at` matches
/// the search lines up to leading whitespace.
fn window_eq(dls: &Vec<Vec<char>>, ols: &Vec<Vec<char>>, at: usize) -> (r: bool)
    requires
        at + ols@.len() <= dls@.len(),
    ensures
        r == window_match(views_of(dls@), views_of(ols@), at as int),
{
    let on = ols.len();
    let dn = dls.len();
    let mut k: usize = 0;
    while k < on
        invariant
            k <= on,
            on == ols@.len(),
            dn == dls@.len(),
            at + on <= dn,
            forall|j: int|
                0 <= j < k ==> strip_ws(views_of(dls@)[at + j]) == strip_ws(
                    #[trigger] views_of(ols@)[j],
                ),
        decreases on - k,
    {
        if !strip_eq(&dls[at + k], &ols[k]) {
            proof {
                assert(strip_ws(views_of(dls@)[at + k]) != strip_ws(views_of(ols@)[k as int]));
            }
            return false;
        }
        k = k + 1;
    }
    true
}

/// Flexible-indent matching: finds the first run of document lines that
/// matches the search text line for line up to leading whitespace, and
/// produces the diff that replaces that run with the replacement lines,
/// each shifted by the indentation delta of the first matched line.
pub fn replace_with_flexible_indent(old: &str, new: &str, doc: &str) -> (r: Option<Diff>)
    ensures
        match r {
            Some(d) => d.start == 0 && d.end == doc@.len() && diff_wf(d, doc@) && Some(
                d.replacement@,
            ) == flexible_result(doc@, old@, new@),
            None => flexible_result(doc@, old@, new@) is None,
        },
{
    let dcs = chars_of(doc);
    let ocs = chars_of(old);
    let dls = split_lines(&dcs);
    let ols = split_lines(&ocs);
    let ghost dlsv = views_of(dls@);
    let ghost olsv = views_of(ols@);
    let dn = dls.len();
    let on = ols.len();
    if on > dn {
        proof {
            assert(first_window(dlsv, olsv) is None);
        }
        return None;
    }
    let bound = dn - on + 1;
    let mut at: usize = 0;
    while at < bound
        invariant
            1 <= on <= dn,
            bound == dn - on + 1,
            at <= bound,
            dn == dls@.len(),
            on == ols@.len(),
            dlsv == views_of(dls@),
            olsv == views_of(ols@),
            dlsv == lines_of(doc@),
            olsv == lines_of(old@),
            first_window(dlsv, olsv) == first_window_from(dlsv, olsv, at as int),
        decreases bound - at,
    {
        if window_eq(&dls, &ols, at) {
            proof {
                assert(first_window_from(dlsv, olsv, at as int) == Some(at as int));
            }
            let di = ws_len(&dls[at]);
            let oi = ws_len(&ols[0]);
            let ncs = chars_of(new);
            let nls = split_lines(&ncs);
            let ghost nlsv = views_of(nls@);
            let mut out_lines: Vec<Vec<char>> = Vec::new();
            proof {
                assert(views_of(out_lines@) =~= dlsv.take(0));
            }
            let mut i: usize = 0;
            while i < at
                invariant
                    i <= at,
                    at < dn,
                    dn == dls@.len(),
                    dlsv == views_of(dls@),
                    views_of(out_lines@) == dlsv.take(i as int),
                decreases at - i,
            {
                let ghost pre = out_lines@;
                out_lines.push(clone_chars(&dls[i]));
                proof {
                    lemma_views_push(pre, out_lines@[out_lines@.len() - 1]);
                    assert(dlsv.take(i as int).push(dlsv[i as int]) =~= dlsv.take(i + 1));
                }
                i = i + 1;
            }
            let nn = nls.len();
            proof {
                assert(views_of(out_lines@) =~= dlsv.take(at as int) + shift_lines(
                    nlsv,
                    di as nat,
                    oi as nat,
                ).take(0));
            }
            let mut j: usize = 0;
            while j < nn
                invariant
                    j <= nn,
                    nn == nls@.len(),
                    nlsv == views_of(nls@),
                    views_of(out_lines@) == dlsv.take(at as int) + shift_lines(
                        nlsv,
                        di as nat,
                        oi as nat,
                    ).take(j as int),
                decreases nn - j,
            {
                let ghost pre = out_lines@;
                out_lines.push(shift_line_exec(&nls[j], di, oi));
                proof {
                    lemma_views_push(pre, out_lines@[out_lines@.len() - 1]);
                    let sh = shift_lines(nlsv, di as nat, oi as nat);
                    assert(sh.take(j as int).push(sh[j as int]) =~= sh.take(j + 1));
                    assert(views_of(out_lines@) =~= dlsv.take(at as int) + sh.take(j + 1));
                }
                j = j + 1;
            }
            proof {
                assert(shift_lines(nlsv, di as nat, oi as nat).take(nlsv.len() as int)
                    =~= shift_lines(nlsv, di as nat, oi as nat));
                assert(views_of(out_lines@) =~= dlsv.take(at as int) + shift_lines(
                    nlsv,
                    di as nat,
                    oi as nat,
                ) + dlsv.subrange(at + on, at + on));
            }
            let mut p: usize = at + on;
            while p < dn
                invariant
                    at + on <= p <= dn,
                    dn == dls@.len(),
                    dlsv == views_of(dls@),
                    views_of(out_lines@) == dlsv.take(at as int) + shift_lines(
                        nlsv,
                        di as nat,
                        oi as nat,
                    ) + dlsv.subrange(at + on, p as int),
                decreases dn - p,
            {
                let ghost pre = out_lines@;
                out_lines.push(clone_chars(&dls[p]));
                proof {
                    lemma_views_push(pre, out_lines@[out_lines@.len() - 1]);
                    let sh = shift_lines(nlsv, di as nat, oi as nat);
                    assert(views_of(out_lines@) =~= dlsv.take(at as int) + sh + dlsv.subrange(
                        at + on,
                        p + 1,
                    ));
                }
                p = p + 1;
            }
            proof {
                assert(dlsv.subrange(at + on, dn as int) =~= dlsv.skip(at + on));
            }
            let joined = join_lines_exec(&out_lines);
            let n = doc.unicode_len();
            let replacement = string_from_chars(&joined);
            proof {
                assert(dlsv == lines_of(doc@));
                assert(olsv == lines_of(old@));
                assert(nlsv == lines_of(new@));
                assert(first_window(dlsv, olsv) == Some(at as int));
                assert(replacement@ == join_lines(
                    dlsv.take(at as int) + shift_lines(
                        nlsv,
                        leading_ws_len(dlsv[at as int]),
                        leading_ws_len(olsv[0]),
                    ) + dlsv.skip(at + on),
                ));
            }
            return Some(Diff { start: 0, end: n, replacement });
        }
        at = at + 1;
    }
    proof {
        assert(first_window_from(dlsv, olsv, bound as int) is None);
    }
    None
}

/// Indent-delta correctness: when the matched window's first line is the
/// search text's first line indented by `k` extra spaces, flexible-indent
/// matching substitutes the replacement lines each indented by exactly `k`
/// extra spaces, leaving the surrounding lines unchanged.
pub proof fn lemma_indent_delta_applies(
    doc: Seq<char>,
    old: Seq<char>,
    new: Seq<char>,
    k: nat,
    at: int,
)
    requires
        window_match(lines_of(doc), lines_of(old), at),
        forall|a: int| 0 <= a < at ==> !window_match(lines_of(doc), lines_of(old), a),
        0 <= at < lines_of(doc).len(),
        lines_of(doc)[at] == repeat_space(k) + lines_of(old)[0],
    ensures
        flexible_result(doc, old, new) == Some(
            join_lines(
                lines_of(doc).take(at) + lines_of(new).map_values(
                    |l: Seq<char>| repeat_space(k) + l,
                ) + lines_of(doc).skip(at + lines_of(old).len()),
            ),
        ),
{
    let dls = lines_of(doc);
    let ols = lines_of(old);
    lemma_first_window_found(dls, ols, at);
    let di = leading_ws_len(dls[at]);
    let oi = leading_ws_len(ols[0]);
    lemma_leading_repeat_space(k, ols[0]);
    assert(di == k + oi);
    assert(shift_lines(lines_of(new), di, oi) =~= lines_of(new).map_values(
        |l: Seq<char>| repeat_space(k) + l,
    )) by {
        assert forall|i: int| 0 <= i < lines_of(new).len() implies shift_line(
            lines_of(new)[i],
            di,
            oi,
        ) == repeat_space(k) + lines_of(new)[i] by {
            assert((di - oi) as nat == k);
        }
    }
}

/// Prepending `k` spaces to a line adds `k` to its leading whitespace.
proof fn lemma_leading_repeat_space(k: nat, l: Seq<char>)
    ensures
        leading_ws_len(repeat_space(k) + l) == k + leading_ws_len(l),
    decreases k,
{
    if k == 0 {
        assert(repeat_space(0) + l =~= l);
    } else {
        let s = repeat_space(k) + l;
        assert(s[0] == ' ');
        assert(s.drop_first() =~= repeat_space((k - 1) as nat) + l);
        lemma_leading_repeat_space((k - 1) as nat, l);
    }
}

} // verus!
