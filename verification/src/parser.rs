//! The incremental action parser.
//!
//! The parser consumes a text stream delivered as arbitrary chunks and
//! recognizes line-oriented edit blocks.  The block grammar is:
//!
//! ```text
//! <file path>
//! <<<<<<< SEARCH
//! (lines of text to look for)
//! =======
//! (lines of replacement text)
//! >>>>>>> REPLACE
//! ```
//!
//! for a search/replace edit, and
//!
//! ```text
//! <file path>
//! <<<<<<< WRITE
//! (lines of full file content)
//! >>>>>>> WRITE
//! ```
//!
//! for a whole-file write.  The file path is the line immediately before
//! the start marker.  Text outside any block is ignored.  A start marker
//! with no preceding path line, a closing marker before the divider, and
//! a start marker inside an open block each produce one parse error and
//! resynchronize the parser.
//!
//! The grammar is line-oriented and a line ends only at a newline: a final
//! line that the stream leaves unterminated — a closing marker included —
//! stays pending and takes effect only if a later chunk completes it.  The
//! stream is therefore expected to end every line with a newline.
//!
//! The parser is modeled as a fold of a character-step function over the
//! cumulative stream, which makes chunk-boundary independence a theorem:
//! see [`lemma_chunk_split_independent`].

use vstd::prelude::*;

use crate::text::append_line;
use crate::text::extend_chars;
use crate::text::line_is;
use crate::text::string_from_chars;
use vstd::string::StringExecFns;

verus! {

/// A parsed edit action, in the specification world.
#[verifier::ext_equal]
pub enum ActionV {
    Replace { path: Seq<char>, old: Seq<char>, new: Seq<char> },
    Write { path: Seq<char>, content: Seq<char> },
}

/// A parsed action together with the exact block text that produced it.
#[verifier::ext_equal]
pub struct UnitV {
    pub action: ActionV,
    pub source: Seq<char>,
}

/// The parser's mode between two lines, in the specification world.
#[verifier::ext_equal]
pub enum ModeV {
    /// Outside any block; `last` is the most recent line, a candidate path.
    Idle { last: Option<Seq<char>> },
    /// Inside the search section of a search/replace block.
    Search { path: Seq<char>, old: Seq<char>, any: bool, src: Seq<char> },
    /// Inside the replacement section of a search/replace block.
    Swap { path: Seq<char>, old: Seq<char>, new: Seq<char>, any: bool, src: Seq<char> },
    /// Inside a whole-file write block.
    Fill { path: Seq<char>, content: Seq<char>, any: bool, src: Seq<char> },
}

/// The whole parser state: mode, the partial line not yet terminated by a
/// newline, and the cumulative outputs.
#[verifier::ext_equal]
pub struct ParserV {
    pub mode: ModeV,
    pub line: Seq<char>,
    pub units: Seq<UnitV>,
    pub errors: Seq<Seq<char>>,
}

/// What one completed line does to the mode: the next mode, at most one
/// emitted unit, and at most one emitted error.
#[verifier::ext_equal]
pub struct LineOut {
    pub mode: ModeV,
    pub unit: Option<UnitV>,
    pub error: Option<Seq<char>>,
}

pub open spec fn search_marker() -> Seq<char> {
    "<<<<<<< SEARCH"@
}

pub open spec fn divider_marker() -> Seq<char> {
    "======="@
}

pub open spec fn replace_end_marker() -> Seq<char> {
    ">>>>>>> REPLACE"@
}

pub open spec fn write_marker() -> Seq<char> {
    "<<<<<<< WRITE"@
}

pub open spec fn write_end_marker() -> Seq<char> {
    ">>>>>>> WRITE"@
}

pub open spec fn err_start_without_path() -> Seq<char> {
    "block start marker without a file path on the preceding line"@
}

pub open spec fn err_missing_divider(path: Seq<char>) -> Seq<char> {
    "search/replace block for "@ + path + " is missing the ======= divider"@
}

pub open spec fn err_unterminated(path: Seq<char>) -> Seq<char> {
    "block for "@ + path + " was not closed before a new block started"@
}

/// Appends one line to accumulated text: a newline separator, then the line.
pub open spec fn with_line(acc: Seq<char>, l: Seq<char>) -> Seq<char> {
    acc + seq!['\n'] + l
}

/// Accumulates a content line: the first line stands alone, later ones are
/// separated by newlines.
pub open spec fn grow(acc: Seq<char>, any: bool, l: Seq<char>) -> Seq<char> {
    if any {
        with_line(acc, l)
    } else {
        l
    }
}

pub open spec fn is_start_marker(l: Seq<char>) -> bool {
    l == search_marker() || l == write_marker()
}

/// The line-level transition of the parser's state machine.
pub open spec fn line_step(m: ModeV, l: Seq<char>) -> LineOut {
    match m {
        ModeV::Idle { last } => {
            if is_start_marker(l) {
                match last {
                    Some(p) => {
                        if p.len() > 0 {
                            if l == search_marker() {
                                LineOut {
                                    mode: ModeV::Search {
                                        path: p,
                                        old: Seq::empty(),
                                        any: false,
                                        src: with_line(p, l),
                                    },
                                    unit: None,
                                    error: None,
                                }
                            } else {
                                LineOut {
                                    mode: ModeV::Fill {
                                        path: p,
                                        content: Seq::empty(),
                                        any: false,
                                        src: with_line(p, l),
                                    },
                                    unit: None,
                                    error: None,
                                }
                            }
                        } else {
                            LineOut {
                                mode: ModeV::Idle { last: None },
                                unit: None,
                                error: Some(err_start_without_path()),
                            }
                        }
                    },
                    None => {
                        LineOut {
                            mode: ModeV::Idle { last: None },
                            unit: None,
                            error: Some(err_start_without_path()),
                        }
                    },
                }
            } else {
                LineOut { mode: ModeV::Idle { last: Some(l) }, unit: None, error: None }
            }
        },
        ModeV::Search { path, old, any, src } => {
            if l == divider_marker() {
                LineOut {
                    mode: ModeV::Swap {
                        path: path,
                        old: old,
                        new: Seq::empty(),
                        any: false,
                        src: with_line(src, l),
                    },
                    unit: None,
                    error: None,
                }
            } else if l == replace_end_marker() {
                LineOut {
                    mode: ModeV::Idle { last: None },
                    unit: None,
                    error: Some(err_missing_divider(path)),
                }
            } else if is_start_marker(l) {
                LineOut {
                    mode: ModeV::Idle { last: None },
                    unit: None,
                    error: Some(err_unterminated(path)),
                }
            } else {
                LineOut {
                    mode: ModeV::Search {
                        path: path,
                        old: grow(old, any, l),
                        any: true,
                        src: with_line(src, l),
                    },
                    unit: None,
                    error: None,
                }
            }
        },
        ModeV::Swap { path, old, new, any, src } => {
            if l == replace_end_marker() {
                LineOut {
                    mode: ModeV::Idle { last: None },
                    unit: Some(
                        UnitV {
                            action: ActionV::Replace { path: path, old: old, new: new },
                            source: with_line(src, l),
                        },
                    ),
                    error: None,
                }
            } else if is_start_marker(l) {
                LineOut {
                    mode: ModeV::Idle { last: None },
                    unit: None,
                    error: Some(err_unterminated(path)),
                }
            } else {
                LineOut {
                    mode: ModeV::Swap {
                        path: path,
                        old: old,
                        new: grow(new, any, l),
                        any: true,
                        src: with_line(src, l),
                    },
                    unit: None,
                    error: None,
                }
            }
        },
        ModeV::Fill { path, content, any, src } => {
            if l == write_end_marker() {
                LineOut {
                    mode: ModeV::Idle { last: None },
                    unit: Some(
                        UnitV {
                            action: ActionV::Write { path: path, content: content },
                            source: with_line(src, l),
                        },
                    ),
                    error: None,
                }
            } else if is_start_marker(l) {
                LineOut {
                    mode: ModeV::Idle { last: None },
                    unit: None,
                    error: Some(err_unterminated(path)),
                }
            } else {
                LineOut {
                    mode: ModeV::Fill {
                        path: path,
                        content: grow(content, any, l),
                        any: true,
                        src: with_line(src, l),
                    },
                    unit: None,
                    error: None,
                }
            }
        },
    }
}

/// The character-level transition: a newline completes the partial line and
/// runs `line_step`; any other character extends the partial line.
pub open spec fn char_step(s: ParserV, c: char) -> ParserV {
    if c == '\n' {
        let out = line_step(s.mode, s.line);
        ParserV {
            mode: out.mode,
            line: Seq::empty(),
            units: match out.unit {
                Some(u) => s.units.push(u),
                None => s.units,
            },
            errors: match out.error {
                Some(e) => s.errors.push(e),
                None => s.errors,
            },
        }
    } else {
        ParserV { mode: s.mode, line: s.line.push(c), units: s.units, errors: s.errors }
    }
}

/// The parser state reached from `s` after consuming the text `cs`.
pub open spec fn run(s: ParserV, cs: Seq<char>) -> ParserV
    decreases cs.len(),
{
    if cs.len() == 0 {
        s
    } else {
        run(char_step(s, cs[0]), cs.drop_first())
    }
}

/// The state of a freshly created parser.
pub open spec fn initial_parser() -> ParserV {
    ParserV {
        mode: ModeV::Idle { last: None },
        line: Seq::empty(),
        units: Seq::empty(),
        errors: Seq::empty(),
    }
}

/// Consuming `a` and then `b` reaches the same state as consuming `a + b`
/// in one piece.
pub proof fn lemma_run_append(s: ParserV, a: Seq<char>, b: Seq<char>)
    ensures
        run(s, a + b) == run(run(s, a), b),
    decreases a.len(),
{
    if a.len() == 0 {
        assert(a + b =~= b);
    } else {
        assert((a + b)[0] == a[0]);
        assert((a + b).drop_first() =~= a.drop_first() + b);
        lemma_run_append(char_step(s, a[0]), a.drop_first(), b);
    }
}

/// The concatenation of a sequence of chunks.
pub open spec fn concat_chunks(chunks: Seq<Seq<char>>) -> Seq<char>
    decreases chunks.len(),
{
    if chunks.len() == 0 {
        Seq::empty()
    } else {
        chunks[0] + concat_chunks(chunks.drop_first())
    }
}

/// The parser state reached by feeding the chunks one after another.
pub open spec fn run_chunks(s: ParserV, chunks: Seq<Seq<char>>) -> ParserV
    decreases chunks.len(),
{
    if chunks.len() == 0 {
        s
    } else {
        run_chunks(run(s, chunks[0]), chunks.drop_first())
    }
}

/// Chunk-boundary independence: however a stream is split into chunks, the
/// parser ends in the state it reaches on the unsplit stream — in
/// particular with the same emitted units and the same error list.
pub proof fn lemma_chunk_split_independent(s: ParserV, chunks: Seq<Seq<char>>)
    ensures
        run_chunks(s, chunks) == run(s, concat_chunks(chunks)),
    decreases chunks.len(),
{
    if chunks.len() == 0 {
    } else {
        lemma_chunk_split_independent(run(s, chunks[0]), chunks.drop_first());
        lemma_run_append(s, chunks[0], concat_chunks(chunks.drop_first()));
    }
}

/// Consuming one more chunk at the end concatenates it to the stream.
pub proof fn lemma_concat_push(chunks: Seq<Seq<char>>, x: Seq<char>)
    ensures
        concat_chunks(chunks.push(x)) == concat_chunks(chunks) + x,
    decreases chunks.len(),
{
    if chunks.len() == 0 {
        assert(chunks.push(x)[0] == x);
        assert(chunks.push(x).drop_first() =~= Seq::<Seq<char>>::empty());
        assert(concat_chunks(Seq::<Seq<char>>::empty()) == Seq::<char>::empty());
        assert(concat_chunks(chunks.push(x)) =~= concat_chunks(chunks) + x);
    } else {
        assert(chunks.push(x).drop_first() =~= chunks.drop_first().push(x));
        lemma_concat_push(chunks.drop_first(), x);
        assert(chunks.push(x)[0] == chunks[0]);
        assert(chunks[0] + (concat_chunks(chunks.drop_first()) + x) =~= (chunks[0] + concat_chunks(
            chunks.drop_first(),
        )) + x);
    }
}

/// A stream splits into the concatenation of any prefix of its chunks and
/// the concatenation of the rest.
pub proof fn lemma_concat_split(cs: Seq<Seq<char>>, i: int)
    requires
        0 <= i <= cs.len(),
    ensures
        concat_chunks(cs) == concat_chunks(cs.take(i)) + concat_chunks(cs.skip(i)),
    decreases i,
{
    if i == 0 {
        assert(cs.take(0) =~= Seq::<Seq<char>>::empty());
        assert(cs.skip(0) =~= cs);
        assert(concat_chunks(Seq::<Seq<char>>::empty()) == Seq::<char>::empty());
        assert(Seq::<char>::empty() + concat_chunks(cs) =~= concat_chunks(cs));
    } else {
        lemma_concat_split(cs.drop_first(), i - 1);
        assert(cs.take(i).drop_first() =~= cs.drop_first().take(i - 1));
        assert(cs.skip(i) =~= cs.drop_first().skip(i - 1));
        assert(cs.take(i)[0] == cs[0]);
        assert(cs.take(i).len() > 0);
        assert(cs[0] + (concat_chunks(cs.drop_first().take(i - 1)) + concat_chunks(
            cs.drop_first().skip(i - 1),
        )) =~= (cs[0] + concat_chunks(cs.drop_first().take(i - 1))) + concat_chunks(
            cs.drop_first().skip(i - 1),
        ));
    }
}

/// An open block's accumulated source text is never empty.
pub open spec fn mode_src_nonempty(m: ModeV) -> bool {
    match m {
        ModeV::Idle { .. } => true,
        ModeV::Search { src, .. } => src.len() > 0,
        ModeV::Swap { src, .. } => src.len() > 0,
        ModeV::Fill { src, .. } => src.len() > 0,
    }
}

/// Every emitted unit carries a non-empty source text.
pub open spec fn units_sources_nonempty(units: Seq<UnitV>) -> bool {
    forall|i: int| 0 <= i < units.len() ==> (#[trigger] units[i].source).len() > 0
}

/// The parser's data invariant: open blocks and emitted units always carry
/// non-empty source text.
pub open spec fn parser_inv(s: ParserV) -> bool {
    mode_src_nonempty(s.mode) && units_sources_nonempty(s.units)
}

proof fn lemma_char_step_preserves_inv(s: ParserV, c: char)
    requires
        parser_inv(s),
    ensures
        parser_inv(char_step(s, c)),
{
    if c == '\n' {
        let out = line_step(s.mode, s.line);
        match out.unit {
            Some(u) => {
                assert(u.source.len() > 0);
                assert(units_sources_nonempty(s.units.push(u)));
            },
            None => {},
        }
    }
}

/// Whatever stream a fresh parser consumes, every unit it emits carries a
/// non-empty source text.
pub proof fn lemma_sources_nonempty(s: ParserV, cs: Seq<char>)
    requires
        parser_inv(s),
    ensures
        parser_inv(run(s, cs)),
    decreases cs.len(),
{
    if cs.len() == 0 {
    } else {
        lemma_char_step_preserves_inv(s, cs[0]);
        lemma_sources_nonempty(char_step(s, cs[0]), cs.drop_first());
    }
}

/// `sub` stands somewhere in `t` as one contiguous stretch.
pub open spec fn slice_of(sub: Seq<char>, t: Seq<char>) -> bool {
    exists|i: int| 0 <= i && i + sub.len() <= t.len() && (#[trigger] t.subrange(i, i + sub.len()))
        == sub
}

/// `sub` is the final stretch of `t`.
pub open spec fn suffix_of(sub: Seq<char>, t: Seq<char>) -> bool {
    sub.len() <= t.len() && t.subrange(t.len() - sub.len(), t.len() as int) == sub
}

/// The parser's pending text: the open block's accumulated source (or the
/// candidate path line) plus the partial line not yet closed by a newline.
pub open spec fn pending_text(s: ParserV) -> Seq<char> {
    match s.mode {
        ModeV::Idle { last: None } => s.line,
        ModeV::Idle { last: Some(l) } => l + seq!['\n'] + s.line,
        ModeV::Search { src, .. } => src + seq!['\n'] + s.line,
        ModeV::Swap { src, .. } => src + seq!['\n'] + s.line,
        ModeV::Fill { src, .. } => src + seq!['\n'] + s.line,
    }
}

/// The parser's relation to the stream it has consumed: its pending text
/// closes the stream, and every emitted unit's source text is a contiguous
/// slice of the stream.
pub open spec fn stream_inv(s: ParserV, stream: Seq<char>) -> bool {
    &&& suffix_of(pending_text(s), stream)
    &&& forall|k: int| 0 <= k < s.units.len() ==> slice_of((#[trigger] s.units[k]).source, stream)
}

proof fn lemma_suffix_push(sub: Seq<char>, t: Seq<char>, c: char)
    requires
        suffix_of(sub, t),
    ensures
        suffix_of(sub.push(c), t.push(c)),
{
    assert(t.push(c).subrange(t.len() - sub.len(), t.len() as int + 1) =~= sub.push(c)) by {
        assert forall|j: int| 0 <= j < sub.len() implies t.push(c)[t.len() - sub.len() + j]
            == sub[j] by {
            assert(t.subrange(t.len() - sub.len(), t.len() as int)[j] == sub[j]);
        }
    }
}

proof fn lemma_suffix_chop(a: Seq<char>, b: Seq<char>, t: Seq<char>)
    requires
        suffix_of(a + b, t),
    ensures
        suffix_of(b, t),
{
    assert(t.subrange(t.len() - b.len(), t.len() as int) =~= b) by {
        assert forall|j: int| 0 <= j < b.len() implies t[t.len() - b.len() + j] == b[j] by {
            assert(t.subrange(t.len() - (a + b).len(), t.len() as int)[a.len() + j] == (a + b)[a.len()
                + j]);
        }
    }
}

proof fn lemma_suffix_empty(t: Seq<char>)
    ensures
        suffix_of(Seq::<char>::empty(), t),
{
    assert(t.subrange(t.len() as int, t.len() as int) =~= Seq::<char>::empty());
}

proof fn lemma_slice_extend(sub: Seq<char>, t: Seq<char>, c: char)
    requires
        slice_of(sub, t),
    ensures
        slice_of(sub, t.push(c)),
{
    let i = choose|i: int|
        0 <= i && i + sub.len() <= t.len() && (#[trigger] t.subrange(i, i + sub.len())) == sub;
    assert(t.push(c).subrange(i, i + sub.len()) =~= t.subrange(i, i + sub.len()));
}

proof fn lemma_suffix_is_slice(sub: Seq<char>, t: Seq<char>)
    requires
        suffix_of(sub, t),
    ensures
        slice_of(sub, t),
{
    assert(0 <= t.len() - sub.len() && (t.len() - sub.len()) + sub.len() <= t.len() && t.subrange(
        t.len() - sub.len(),
        (t.len() - sub.len()) + sub.len(),
    ) == sub);
}

proof fn lemma_units_slices_push(units: Seq<UnitV>, t: Seq<char>, c: char)
    requires
        forall|k: int| 0 <= k < units.len() ==> slice_of((#[trigger] units[k]).source, t),
    ensures
        forall|k: int| 0 <= k < units.len() ==> slice_of((#[trigger] units[k]).source, t.push(c)),
{
    assert forall|k: int| 0 <= k < units.len() implies slice_of(
        (#[trigger] units[k]).source,
        t.push(c),
    ) by {
        lemma_slice_extend(units[k].source, t, c);
    }
}

proof fn lemma_char_step_stream_inv(s: ParserV, stream: Seq<char>, c: char)
    requires
        stream_inv(s, stream),
    ensures
        stream_inv(char_step(s, c), stream.push(c)),
{
    let s2 = char_step(s, c);
    let stream2 = stream.push(c);
    lemma_units_slices_push(s.units, stream, c);
    if c != '\n' {
        lemma_suffix_push(pending_text(s), stream, c);
        assert(pending_text(s2) =~= pending_text(s).push(c));
    } else {
        lemma_suffix_push(pending_text(s), stream, '\n');
        let grown = pending_text(s).push('\n');
        let out = line_step(s.mode, s.line);
        match s.mode {
            ModeV::Idle { last } => {
                if is_start_marker(s.line) {
                    match last {
                        Some(p) => {
                            if p.len() > 0 {
                                assert(grown =~= with_line(p, s.line) + seq!['\n']
                                    + Seq::<char>::empty());
                                assert(pending_text(s2) == grown);
                            } else {
                                lemma_suffix_empty(stream2);
                            }
                        },
                        None => {
                            lemma_suffix_empty(stream2);
                        },
                    }
                } else {
                    match last {
                        Some(p) => {
                            lemma_suffix_chop(p + seq!['\n'], s.line.push('\n'), stream2);
                            assert((p + seq!['\n']) + s.line.push('\n') =~= grown);
                            assert(pending_text(s2) =~= s.line.push('\n'));
                        },
                        None => {
                            assert(pending_text(s2) =~= grown);
                        },
                    }
                }
            },
            ModeV::Search { path, old, any, src } => {
                if s.line == divider_marker() {
                    assert(pending_text(s2) =~= grown);
                } else if s.line == replace_end_marker() || is_start_marker(s.line) {
                    lemma_suffix_empty(stream2);
                } else {
                    assert(pending_text(s2) =~= grown);
                }
            },
            ModeV::Swap { path, old, new, any, src } => {
                if s.line == replace_end_marker() {
                    lemma_suffix_empty(stream2);
                    assert(with_line(src, s.line) == pending_text(s));
                    lemma_suffix_is_slice(pending_text(s), stream);
                    lemma_slice_extend(pending_text(s), stream, '\n');
                    assert(forall|k: int|
                        0 <= k < s2.units.len() ==> slice_of(
                            (#[trigger] s2.units[k]).source,
                            stream2,
                        ));
                } else if is_start_marker(s.line) {
                    lemma_suffix_empty(stream2);
                } else {
                    assert(pending_text(s2) =~= grown);
                }
            },
            ModeV::Fill { path, content, any, src } => {
                if s.line == write_end_marker() {
                    lemma_suffix_empty(stream2);
                    assert(with_line(src, s.line) == pending_text(s));
                    lemma_suffix_is_slice(pending_text(s), stream);
                    lemma_slice_extend(pending_text(s), stream, '\n');
                    assert(forall|k: int|
                        0 <= k < s2.units.len() ==> slice_of(
                            (#[trigger] s2.units[k]).source,
                            stream2,
                        ));
                } else if is_start_marker(s.line) {
                    lemma_suffix_empty(stream2);
                } else {
                    assert(pending_text(s2) =~= grown);
                }
            },
        }
    }
}

proof fn lemma_stream_inv_run(s: ParserV, stream: Seq<char>, cs: Seq<char>)
    requires
        stream_inv(s, stream),
    ensures
        stream_inv(run(s, cs), stream + cs),
    decreases cs.len(),
{
    if cs.len() == 0 {
        assert(stream + cs =~= stream);
    } else {
        lemma_char_step_stream_inv(s, stream, cs[0]);
        lemma_stream_inv_run(char_step(s, cs[0]), stream.push(cs[0]), cs.drop_first());
        assert(stream.push(cs[0]) + cs.drop_first() =~= stream + cs);
    }
}

/// Every unit a fresh parser emits carries a source text that is a
/// contiguous slice of the cumulative stream.
pub proof fn lemma_sources_are_stream_slices(cs: Seq<char>)
    ensures
        forall|k: int|
            0 <= k < run(initial_parser(), cs).units.len() ==> slice_of(
                (#[trigger] run(initial_parser(), cs).units[k]).source,
                cs,
            ),
{
    assert(stream_inv(initial_parser(), Seq::<char>::empty())) by {
        lemma_suffix_empty(Seq::<char>::empty());
    }
    lemma_stream_inv_run(initial_parser(), Seq::<char>::empty(), cs);
    assert(Seq::<char>::empty() + cs =~= cs);
}

/// Consuming more text never retracts an emitted unit: the units already
/// emitted stay, in place, however much more text follows.
pub proof fn lemma_run_units_prefix(s: ParserV, cs: Seq<char>)
    ensures
        s.units.len() <= run(s, cs).units.len(),
        run(s, cs).units.take(s.units.len() as int) == s.units,
    decreases cs.len(),
{
    if cs.len() == 0 {
        assert(run(s, cs).units.take(s.units.len() as int) =~= s.units);
    } else {
        let s2 = char_step(s, cs[0]);
        lemma_run_units_prefix(s2, cs.drop_first());
        assert(s2.units.take(s.units.len() as int) =~= s.units);
        assert(run(s, cs).units.take(s.units.len() as int) =~= s.units);
    }
}

/// A structured edit action parsed from one block.
pub enum EditAction {
    Replace { file_path: String, old: String, new: String },
    Write { file_path: String, content: String },
}

/// A parsed action together with the exact block text that produced it.
pub struct ParsedUnit {
    pub action: EditAction,
    pub source: String,
}

impl View for EditAction {
    type V = ActionV;

    open spec fn view(&self) -> ActionV {
        match self {
            EditAction::Replace { file_path, old, new } => ActionV::Replace {
                path: file_path@,
                old: old@,
                new: new@,
            },
            EditAction::Write { file_path, content } => ActionV::Write {
                path: file_path@,
                content: content@,
            },
        }
    }
}

impl View for ParsedUnit {
    type V = UnitV;

    open spec fn view(&self) -> UnitV {
        UnitV { action: self.action@, source: self.source@ }
    }
}

/// The executable counterpart of [`ModeV`].
pub enum Mode {
    Idle { last: Option<Vec<char>> },
    Search { path: Vec<char>, old: Vec<char>, any: bool, src: Vec<char> },
    Swap { path: Vec<char>, old: Vec<char>, new: Vec<char>, any: bool, src: Vec<char> },
    Fill { path: Vec<char>, content: Vec<char>, any: bool, src: Vec<char> },
}

impl View for Mode {
    type V = ModeV;

    open spec fn view(&self) -> ModeV {
        match self {
            Mode::Idle { last } => ModeV::Idle {
                last: match last {
                    Some(l) => Some(l@),
                    None => None,
                },
            },
            Mode::Search { path, old, any, src } => ModeV::Search {
                path: path@,
                old: old@,
                any: *any,
                src: src@,
            },
            Mode::Swap { path, old, new, any, src } => ModeV::Swap {
                path: path@,
                old: old@,
                new: new@,
                any: *any,
                src: src@,
            },
            Mode::Fill { path, content, any, src } => ModeV::Fill {
                path: path@,
                content: content@,
                any: *any,
                src: src@,
            },
        }
    }
}

/// The views of the units in a vector of parsed units.
pub open spec fn units_of(v: Seq<ParsedUnit>) -> Seq<UnitV> {
    v.map_values(|u: ParsedUnit| u@)
}

/// The view of at most one parsed unit.
pub open spec fn unit_seq(r: Option<ParsedUnit>) -> Seq<UnitV> {
    match r {
        Some(u) => seq![u@],
        None => Seq::empty(),
    }
}

/// The incremental parser over a chunk-delivered stream.
///
/// Its abstract state is a [`ParserV`]; feeding a chunk advances that state
/// by [`run`], so any split of the stream into chunks yields the same units
/// and the same errors.
pub struct EditActionParser {
    mode: Mode,
    line: Vec<char>,
    errors: Vec<String>,
    units: Ghost<Seq<UnitV>>,
}

impl View for EditActionParser {
    type V = ParserV;

    closed spec fn view(&self) -> ParserV {
        ParserV {
            mode: self.mode@,
            line: self.line@,
            units: self.units@,
            errors: self.errors.deep_view(),
        }
    }
}

/// Builds the error text for a search/replace block whose divider is missing.
fn err_missing_divider_string(path: &Vec<char>) -> (r: String)
    ensures
        r@ == err_missing_divider(path@),
{
    let mut e = String::from_str("search/replace block for ");
    let p = string_from_chars(path);
    e.append(p.as_str());
    e.append(" is missing the ======= divider");
    proof {
        assert(e@ =~= err_missing_divider(path@));
    }
    e
}

/// Builds the error text for a block interrupted by a new start marker.
fn err_unterminated_string(path: &Vec<char>) -> (r: String)
    ensures
        r@ == err_unterminated(path@),
{
    let mut e = String::from_str("block for ");
    let p = string_from_chars(path);
    e.append(p.as_str());
    e.append(" was not closed before a new block started");
    proof {
        assert(e@ =~= err_unterminated(path@));
    }
    e
}

impl EditActionParser {
    /// A parser in its initial state: outside any block, nothing emitted.
    pub fn new() -> (r: EditActionParser)
        ensures
            r@ == initial_parser(),
    {
        let r = EditActionParser {
            mode: Mode::Idle { last: None },
            line: Vec::new(),
            errors: Vec::new(),
            units: Ghost(Seq::empty()),
        };
        proof {
            assert(r@ =~= initial_parser());
        }
        r
    }

    /// The parse errors accumulated so far, in order of detection.
    pub fn errors(&self) -> (r: &Vec<String>)
        ensures
            r.deep_view() == self@.errors,
    {
        &self.errors
    }

    /// Records an error and resynchronizes to the idle mode.
    fn emit_error(&mut self, e: String)
        ensures
            final(self)@ == (ParserV {
                mode: ModeV::Idle { last: None },
                errors: old(self)@.errors.push(e@),
                ..old(self)@
            }),
    {
        self.mode = Mode::Idle { last: None };
        self.errors.push(e);
        proof {
            assert(self.errors.deep_view() =~= old(self)@.errors.push(e@));
            assert(self@ =~= (ParserV {
                mode: ModeV::Idle { last: None },
                errors: old(self)@.errors.push(e@),
                ..old(self)@
            }));
        }
    }

    /// Completes the pending line and runs the line-level transition.
    fn feed_line(&mut self) -> (r: Option<ParsedUnit>)
        ensures
            final(self)@ == char_step(old(self)@, '\n'),
            final(self)@.units == old(self)@.units + unit_seq(r),
    {
        let ghost pre = self@;
        let mut line: Vec<char> = Vec::new();
        core::mem::swap(&mut self.line, &mut line);
        let mut mode = Mode::Idle { last: None };
        core::mem::swap(&mut self.mode, &mut mode);
        let mut result: Option<ParsedUnit> = None;
        match mode {
            Mode::Idle { last } => {
                let starts_search = line_is(&line, "<<<<<<< SEARCH");
                let starts_write = line_is(&line, "<<<<<<< WRITE");
                if starts_search || starts_write {
                    let mut path_ok = false;
                    match &last {
                        Some(p) => {
                            if p.len() > 0 {
                                path_ok = true;
                            }
                        },
                        None => {},
                    }
                    if path_ok {
                        let p = match last {
                            Some(p) => p,
                            None => Vec::new(),
                        };
                        let mut src: Vec<char> = Vec::new();
                        extend_chars(&mut src, &p);
                        append_line(&mut src, &line);
                        proof {
                            assert(src@ =~= with_line(p@, line@));
                        }
                        if starts_search {
                            self.mode = Mode::Search { path: p, old: Vec::new(), any: false, src };
                        } else {
                            self.mode = Mode::Fill { path: p, content: Vec::new(), any: false, src };
                        }
                    } else {
                        self.emit_error(String::from_str(
                            "block start marker without a file path on the preceding line",
                        ));
                    }
                } else {
                    self.mode = Mode::Idle { last: Some(line) };
                }
            },
            Mode::Search { path, old, any, mut src } => {
                if line_is(&line, "=======") {
                    append_line(&mut src, &line);
                    self.mode = Mode::Swap { path, old, new: Vec::new(), any: false, src };
                } else if line_is(&line, ">>>>>>> REPLACE") {
                    let e = err_missing_divider_string(&path);
                    self.emit_error(e);
                } else if line_is(&line, "<<<<<<< SEARCH") || line_is(&line, "<<<<<<< WRITE") {
                    let e = err_unterminated_string(&path);
                    self.emit_error(e);
                } else {
                    append_line(&mut src, &line);
                    let mut old_acc = old;
                    if any {
                        append_line(&mut old_acc, &line);
                    } else {
                        old_acc = line;
                    }
                    self.mode = Mode::Search { path, old: old_acc, any: true, src };
                }
            },
            Mode::Swap { path, old, new, any, mut src } => {
                if line_is(&line, ">>>>>>> REPLACE") {
                    append_line(&mut src, &line);
                    let u = ParsedUnit {
                        action: EditAction::Replace {
                            file_path: string_from_chars(&path),
                            old: string_from_chars(&old),
                            new: string_from_chars(&new),
                        },
                        source: string_from_chars(&src),
                    };
                    proof {
                        self.units@ = pre.units.push(u@);
                    }
                    self.mode = Mode::Idle { last: None };
                    result = Some(u);
                } else if line_is(&line, "<<<<<<< SEARCH") || line_is(&line, "<<<<<<< WRITE") {
                    let e = err_unterminated_string(&path);
                    self.emit_error(e);
                } else {
                    append_line(&mut src, &line);
                    let mut new_acc = new;
                    if any {
                        append_line(&mut new_acc, &line);
                    } else {
                        new_acc = line;
                    }
                    self.mode = Mode::Swap { path, old, new: new_acc, any: true, src };
                }
            },
            Mode::Fill { path, content, any, mut src } => {
                if line_is(&line, ">>>>>>> WRITE") {
                    append_line(&mut src, &line);
                    let u = ParsedUnit {
                        action: EditAction::Write {
                            file_path: string_from_chars(&path),
                            content: string_from_chars(&content),
                        },
                        source: string_from_chars(&src),
                    };
                    proof {
                        self.units@ = pre.units.push(u@);
                    }
                    self.mode = Mode::Idle { last: None };
                    result = Some(u);
                } else if line_is(&line, "<<<<<<< SEARCH") || line_is(&line, "<<<<<<< WRITE") {
                    let e = err_unterminated_string(&path);
                    self.emit_error(e);
                } else {
                    append_line(&mut src, &line);
                    let mut content_acc = content;
                    if any {
                        append_line(&mut content_acc, &line);
                    } else {
                        content_acc = line;
                    }
                    self.mode = Mode::Fill { path, content: content_acc, any: true, src };
                }
            },
        }
        proof {
            assert(self@ =~= char_step(pre, '\n'));
            assert(self@.units =~= pre.units + unit_seq(result));
        }
        result
    }

    /// Feeds one chunk of the stream and returns the units it completed.
    ///
    /// The abstract state advances by [`run`] over exactly the characters of
    /// the chunk, so the emitted units and errors depend only on the
    /// cumulative stream, never on where it was split.
    pub fn parse_chunk(&mut self, chunk: &str) -> (r: Vec<ParsedUnit>)
        ensures
            final(self)@ == run(old(self)@, chunk@),
            final(self)@.units == old(self)@.units + units_of(r@),
    {
        let ghost pre = self@;
        let n = chunk.unicode_len();
        let mut out: Vec<ParsedUnit> = Vec::new();
        let mut i: usize = 0;
        while i < n
            invariant
                i <= n,
                n == chunk@.len(),
                self@ == run(pre, chunk@.take(i as int)),
                self@.units == pre.units + units_of(out@),
            decreases n - i,
        {
            let ghost mid = self@;
            let c = chunk.get_char(i);
            proof {
                let cs = chunk@;
                let single = seq![cs[i as int]];
                assert(cs.take(i + 1) =~= cs.take(i as int) + single);
                lemma_run_append(pre, cs.take(i as int), single);
                assert(single.len() == 1 && single[0] == cs[i as int]);
                assert(run(mid, single) == run(char_step(mid, single[0]), single.drop_first()));
                assert(single.drop_first() =~= Seq::<char>::empty());
                assert(run(char_step(mid, single[0]), single.drop_first()) == char_step(
                    mid,
                    cs[i as int],
                ));
            }
            if c == '\n' {
                let ghost out_pre = out@;
                let u = self.feed_line();
                match u {
                    Some(u) => {
                        let ghost uv = u@;
                        out.push(u);
                        proof {
                            assert(units_of(out@) =~= units_of(out_pre).push(uv));
                        }
                    },
                    None => {},
                }
            } else {
                self.line.push(c);
                proof {
                    assert(self@ =~= char_step(mid, c));
                }
            }
            i = i + 1;
        }
        proof {
            assert(chunk@.take(n as int) =~= chunk@);
        }
        out
    }
}

} // verus!
