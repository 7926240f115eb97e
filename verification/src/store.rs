//! An in-memory document store and the session driver that runs a whole
//! edit stream against it.
//!
//! The driver realizes the orchestrator's streaming loop on plain values:
//! actions are applied strictly in parse order, each against the document
//! content as mutated by all earlier actions of the same session, and every
//! touched document is persisted exactly once at the end.  A host that
//! keeps its documents elsewhere can drive [`crate::session::EditSession`]
//! and the match engine itself in the same order.

use vstd::prelude::*;

use crate::matcher::Diff;
use crate::matcher::apply_diff;
use crate::matcher::contains_seq;
use crate::matcher::diff_wf;
use crate::matcher::first_occ;
use crate::matcher::first_occurrence;
use crate::matcher::flexible_result;
use crate::matcher::lemma_first_occ_found;
use crate::matcher::lemma_first_occ_none;
use crate::matcher::lemma_whole_file_write_applies;
use crate::matcher::replace_exact;
use crate::matcher::replace_with_flexible_indent;
use crate::matcher::splice;
use crate::matcher::whole_file_diff;
use crate::parser::ActionV;
use crate::parser::EditAction;
use crate::parser::UnitV;
use crate::parser::concat_chunks;
use crate::parser::initial_parser;
use crate::parser::lemma_concat_push;
use crate::parser::lemma_concat_split;
use crate::parser::lemma_run_append;
use crate::parser::lemma_run_units_prefix;
use crate::parser::run;
use crate::parser::units_of;
use crate::session::BadSearch;
use crate::session::BadSearchV;
use crate::session::EditSession;
use crate::session::SessionV;
use crate::session::finalize_result;
use crate::session::noop_message;
use crate::session::session_wf;
use crate::session::success_header;
use vstd::string::StringExecFns;

verus! {

/// One document: its path, its current content, and how many times it has
/// been persisted.
pub struct MemDocument {
    pub path: String,
    pub text: String,
    pub saves: u64,
}

/// An in-memory document store, keyed by path.
pub struct MemStore {
    pub docs: Vec<MemDocument>,
}

/// No two documents share a path.
pub open spec fn store_wf(s: MemStore) -> bool {
    forall|i: int, j: int|
        0 <= i < j < s.docs@.len() ==> (#[trigger] s.docs@[i].path@) != (#[trigger] s.docs@[j].path@)
}

impl MemStore {
    /// An empty store.
    pub fn new() -> (r: MemStore)
        ensures
            r.docs@.len() == 0,
            store_wf(r),
    {
        MemStore { docs: Vec::new() }
    }

    /// Adds a document with the given path and content, not yet saved.
    pub fn add_document(&mut self, path: String, text: String)
        requires
            forall|i: int|
                0 <= i < old(self).docs@.len() ==> (#[trigger] old(self).docs@[i].path@) != path@,
        ensures
            final(self).docs@ == old(self).docs@.push(
                MemDocument { path, text, saves: 0u64 },
            ),
            store_wf(*old(self)) ==> store_wf(*final(self)),
    {
        self.docs.push(MemDocument { path, text, saves: 0 });
    }

    /// Resolves a path to a document handle, if the store has it.
    pub fn resolve(&self, path: &String) -> (r: Option<usize>)
        ensures
            match r {
                Some(h) => h < self.docs@.len() && self.docs@[h as int].path@ == path@,
                None => forall|i: int|
                    0 <= i < self.docs@.len() ==> (#[trigger] self.docs@[i].path@) != path@,
            },
    {
        let mut i: usize = 0;
        while i < self.docs.len()
            invariant
                i <= self.docs@.len(),
                forall|j: int| 0 <= j < i ==> (#[trigger] self.docs@[j].path@) != path@,
            decreases self.docs@.len() - i,
        {
            if self.docs[i].path == *path {
                return Some(i);
            }
            i = i + 1;
        }
        None
    }

    /// The current content of a document.
    pub fn doc_text(&self, h: usize) -> (r: &String)
        requires
            h < self.docs@.len(),
        ensures
            r@ == self.docs@[h as int].text@,
    {
        &self.docs[h].text
    }

    /// Replaces a document's content; path and save count are untouched.
    pub fn set_text(&mut self, h: usize, text: String)
        requires
            h < old(self).docs@.len(),
        ensures
            final(self).docs@.len() == old(self).docs@.len(),
            final(self).docs@[h as int].path@ == old(self).docs@[h as int].path@,
            final(self).docs@[h as int].text@ == text@,
            final(self).docs@[h as int].saves == old(self).docs@[h as int].saves,
            forall|i: int|
                0 <= i < old(self).docs@.len() && i != h ==> final(self).docs@[i] == old(
                    self,
                ).docs@[i],
            store_wf(*old(self)) ==> store_wf(*final(self)),
    {
        let mut slot = MemDocument { path: String::new(), text: String::new(), saves: 0 };
        self.docs.set_and_swap(h, &mut slot);
        let mut updated = MemDocument { path: slot.path, text, saves: slot.saves };
        self.docs.set_and_swap(h, &mut updated);
    }

    /// Persists a document: its save count grows by one.
    pub fn save(&mut self, h: usize)
        requires
            h < old(self).docs@.len(),
            old(self).docs@[h as int].saves < u64::MAX,
        ensures
            final(self).docs@.len() == old(self).docs@.len(),
            final(self).docs@[h as int].path@ == old(self).docs@[h as int].path@,
            final(self).docs@[h as int].text@ == old(self).docs@[h as int].text@,
            final(self).docs@[h as int].saves == old(self).docs@[h as int].saves + 1,
            forall|i: int|
                0 <= i < old(self).docs@.len() && i != h ==> final(self).docs@[i] == old(
                    self,
                ).docs@[i],
            store_wf(*old(self)) ==> store_wf(*final(self)),
    {
        let mut slot = MemDocument { path: String::new(), text: String::new(), saves: 0 };
        self.docs.set_and_swap(h, &mut slot);
        let new_saves = slot.saves + 1;
        let mut updated = MemDocument { path: slot.path, text: slot.text, saves: new_saves };
        self.docs.set_and_swap(h, &mut updated);
    }
}

/// The outcome of matching one replace action against a snapshot.
pub enum DiffResult {
    /// Neither exact nor flexible-indent matching found the search text.
    BadSearch(BadSearch),
    /// The positional change to apply.
    Diff(Diff),
}

/// The diff for a replace action: the first exact occurrence of `old` wins;
/// failing that, the first flexible-indent window; failing both, a match
/// failure carrying the file path and the search text.
pub fn replace_diff(old: String, new: String, file_path: String, snapshot: &String) -> (r:
    DiffResult)
    ensures
        match r {
            DiffResult::Diff(d) => diff_wf(d, snapshot@) && if contains_seq(snapshot@, old@) {
                first_occurrence(snapshot@, old@, d.start as int) && d.end == d.start + old@.len()
                    && d.replacement@ == new@
            } else {
                d.start == 0 && d.end == snapshot@.len() && Some(d.replacement@) == flexible_result(
                    snapshot@,
                    old@,
                    new@,
                )
            },
            DiffResult::BadSearch(b) => !contains_seq(snapshot@, old@) && flexible_result(
                snapshot@,
                old@,
                new@,
            ) is None && b@.path == file_path@ && b@.search == old@,
        },
{
    match replace_exact(old.as_str(), new.as_str(), snapshot.as_str()) {
        Some(d) => DiffResult::Diff(d),
        None => {
            match replace_with_flexible_indent(old.as_str(), new.as_str(), snapshot.as_str()) {
                Some(d) => DiffResult::Diff(d),
                None => DiffResult::BadSearch(BadSearch { file_path, search: old }),
            }
        },
    }
}
/// The specification view of one document.
#[verifier::ext_equal]
pub struct DocV {
    pub path: Seq<char>,
    pub text: Seq<char>,
    pub saves: u64,
}

/// The documents a store holds, as specification values.
pub open spec fn store_view(s: MemStore) -> Seq<DocV> {
    s.docs@.map_values(|d: MemDocument| DocV { path: d.path@, text: d.text@, saves: d.saves })
}

/// The handle of the first document with the given path at or after `i`.
pub open spec fn resolve_from(docs: Seq<DocV>, path: Seq<char>, i: int) -> Option<int>
    decreases docs.len() - i + 1,
{
    if i >= docs.len() {
        None
    } else if docs[i].path == path {
        Some(i)
    } else {
        resolve_from(docs, path, i + 1)
    }
}

/// The handle of the first document with the given path, if any.
pub open spec fn resolve_spec(docs: Seq<DocV>, path: Seq<char>) -> Option<int> {
    resolve_from(docs, path, 0)
}

proof fn lemma_resolve_from_found(docs: Seq<DocV>, path: Seq<char>, k: int, h: int)
    requires
        0 <= k <= h < docs.len(),
        docs[h].path == path,
        forall|j: int| k <= j < h ==> (#[trigger] docs[j].path) != path,
    ensures
        resolve_from(docs, path, k) == Some(h),
    decreases h - k,
{
    if k < h {
        lemma_resolve_from_found(docs, path, k + 1, h);
    }
}

/// The earliest match is what `resolve_spec` finds.
pub proof fn lemma_resolve_found(docs: Seq<DocV>, path: Seq<char>, h: int)
    requires
        0 <= h < docs.len(),
        docs[h].path == path,
        forall|j: int| 0 <= j < h ==> (#[trigger] docs[j].path) != path,
    ensures
        resolve_spec(docs, path) == Some(h),
{
    lemma_resolve_from_found(docs, path, 0, h);
}

proof fn lemma_resolve_from_none(docs: Seq<DocV>, path: Seq<char>, k: int)
    requires
        0 <= k,
        forall|j: int| 0 <= j < docs.len() ==> (#[trigger] docs[j].path) != path,
    ensures
        resolve_from(docs, path, k) is None,
    decreases docs.len() - k + 1,
{
    if k >= docs.len() {
    } else {
        lemma_resolve_from_none(docs, path, k + 1);
    }
}

/// Where no document has the path, `resolve_spec` finds nothing.
pub proof fn lemma_resolve_none(docs: Seq<DocV>, path: Seq<char>)
    requires
        forall|j: int| 0 <= j < docs.len() ==> (#[trigger] docs[j].path) != path,
    ensures
        resolve_spec(docs, path) is None,
{
    lemma_resolve_from_none(docs, path, 0);
}

/// The combined session-and-store state of a run, as it evolves one parsed
/// unit at a time.
#[verifier::ext_equal]
pub struct RunV {
    /// The documents, each with its current text and save count.
    pub docs: Seq<DocV>,
    /// The transcript accumulated so far.
    pub output: Seq<char>,
    /// The handles touched so far, each once, in order of first edit.
    pub touched: Seq<u64>,
    /// The match failures recorded so far.
    pub bad: Seq<BadSearchV>,
    /// A file path failed to resolve; nothing later is processed.
    pub aborted: bool,
}

/// The state a run starts from.
pub open spec fn initial_run(docs: Seq<DocV>) -> RunV {
    RunV {
        docs,
        output: success_header(),
        touched: Seq::empty(),
        bad: Seq::empty(),
        aborted: false,
    }
}

/// The file path an action names.
pub open spec fn action_path(a: ActionV) -> Seq<char> {
    match a {
        ActionV::Replace { path, .. } => path,
        ActionV::Write { path, .. } => path,
    }
}

/// The text a replace action produces on a snapshot, if anything matches:
/// the first exact occurrence of `old` replaced by `new`, else the first
/// flexible-indent window, else nothing.
pub open spec fn replace_result(text: Seq<char>, old: Seq<char>, new: Seq<char>) -> Option<
    Seq<char>,
> {
    match first_occ(text, old) {
        Some(i) => Some(splice(text, i, i + old.len(), new)),
        None => flexible_result(text, old, new),
    }
}

/// The state after one applied edit: the document's text is replaced, the
/// block's source text joins the transcript, and the handle joins the
/// touched set if it is not already there.
pub open spec fn run_applied(s: RunV, h: int, text: Seq<char>, source: Seq<char>) -> RunV {
    RunV {
        docs: s.docs.update(h, DocV { path: s.docs[h].path, text, saves: s.docs[h].saves }),
        output: s.output + "\n\n"@ + source,
        touched: if s.touched.contains(h as u64) {
            s.touched
        } else {
            s.touched.push(h as u64)
        },
        bad: s.bad,
        aborted: false,
    }
}

/// What one parsed unit does to the run: nothing once aborted; an abort
/// when its path resolves to no document; an applied edit when the action
/// is a write or a replace that matches; a recorded match failure — and no
/// document change — when neither match succeeds.
pub open spec fn unit_step(s: RunV, u: UnitV) -> RunV {
    if s.aborted {
        s
    } else {
        match resolve_spec(s.docs, action_path(u.action)) {
            None => RunV { aborted: true, ..s },
            Some(h) => match u.action {
                ActionV::Write { path, content } => run_applied(s, h, content, u.source),
                ActionV::Replace { path, old, new } => match replace_result(
                    s.docs[h].text,
                    old,
                    new,
                ) {
                    Some(text) => run_applied(s, h, text, u.source),
                    None => RunV {
                        bad: s.bad.push(BadSearchV { path: path, search: old }),
                        ..s
                    },
                },
            },
        }
    }
}

/// The run state after a sequence of units, each evaluated against the
/// documents as mutated by all earlier units.
pub open spec fn units_run(s: RunV, units: Seq<UnitV>) -> RunV
    decreases units.len(),
{
    if units.len() == 0 {
        s
    } else {
        units_run(unit_step(s, units[0]), units.drop_first())
    }
}

/// Running two unit sequences in turn is running their concatenation.
pub proof fn lemma_units_run_append(s: RunV, a: Seq<UnitV>, b: Seq<UnitV>)
    ensures
        units_run(s, a + b) == units_run(units_run(s, a), b),
    decreases a.len(),
{
    if a.len() == 0 {
        assert(a + b =~= b);
    } else {
        assert((a + b)[0] == a[0]);
        assert((a + b).drop_first() =~= a.drop_first() + b);
        lemma_units_run_append(unit_step(s, a[0]), a.drop_first(), b);
    }
}

/// One more unit advances the run by one step.
pub proof fn lemma_units_run_push(s: RunV, a: Seq<UnitV>, x: UnitV)
    ensures
        units_run(s, a.push(x)) == unit_step(units_run(s, a), x),
{
    assert(a.push(x) =~= a + seq![x]);
    lemma_units_run_append(s, a, seq![x]);
    let mid = units_run(s, a);
    assert(seq![x].drop_first() =~= Seq::<UnitV>::empty());
    assert(units_run(mid, seq![x]) == units_run(unit_step(mid, x), seq![x].drop_first()));
}

/// An aborted run ignores every remaining unit.
pub proof fn lemma_units_run_aborted(s: RunV, units: Seq<UnitV>)
    requires
        s.aborted,
    ensures
        units_run(s, units) == s,
    decreases units.len(),
{
    if units.len() == 0 {
    } else {
        lemma_units_run_aborted(s, units.drop_first());
    }
}

/// The documents after the save pass: each touched one's save count grows
/// by exactly one, every other document is untouched.
pub open spec fn saves_applied(docs: Seq<DocV>, touched: Seq<u64>) -> Seq<DocV> {
    Seq::new(
        docs.len(),
        |i: int|
            DocV {
                path: docs[i].path,
                text: docs[i].text,
                saves: (docs[i].saves + if touched.contains(i as u64) {
                    1int
                } else {
                    0int
                }) as u64,
            },
    )
}

pub open spec fn path_not_found_message() -> Seq<char> {
    "Path not found in project"@
}

/// Runs one whole edit session over the chunks of a stream, against an
/// in-memory store.
///
/// The contract fixes the run completely: the stream's units — those of
/// the parser fold over the concatenated chunks — drive [`units_run`] from
/// the store's initial contents, so each action is matched against the
/// documents as mutated by every earlier action.  A path that resolves to
/// no document aborts at once with the path-not-found error, the store
/// left exactly as the units before the failing one made it, unsaved.
/// Otherwise each touched document is saved exactly once and every other
/// document is left untouched, and the result is the finalized report of
/// the accumulated session state.
pub fn run_session(chunks: &Vec<String>, store: &mut MemStore) -> (r: Result<String, String>)
    requires
        store_wf(*old(store)),
        forall|i: int|
            0 <= i < old(store).docs@.len() ==> (#[trigger] old(store).docs@[i].saves) < u64::MAX,
    ensures
        ({
            let end_parser = run(initial_parser(), concat_chunks(chunks.deep_view()));
            let end_run = units_run(initial_run(store_view(*old(store))), end_parser.units);
            if end_run.aborted {
                &&& r matches Err(e) && e@ == path_not_found_message()
                &&& store_view(*final(store)) == end_run.docs
            } else {
                &&& store_view(*final(store)) == saves_applied(end_run.docs, end_run.touched)
                &&& finalize_result(
                    SessionV {
                        parser: end_parser,
                        output: end_run.output,
                        touched: end_run.touched,
                        bad: end_run.bad,
                    },
                    r,
                )
            }
        }),
        ({
            let end = run(initial_parser(), concat_chunks(chunks.deep_view()));
            (end.units.len() == 0 && end.errors.len() == 0) ==> (r matches Err(e) && e@
                == noop_message())
        }),
{
    let ghost cs = chunks.deep_view();
    let ghost init_run = initial_run(store_view(*old(store)));
    let mut session = EditSession::new();
    proof {
        assert(cs.take(0) =~= Seq::<Seq<char>>::empty());
        assert(concat_chunks(Seq::<Seq<char>>::empty()) == Seq::<char>::empty());
        assert(session@.parser == run(initial_parser(), concat_chunks(cs.take(0))));
        assert(units_run(init_run, session@.parser.units) == init_run);
    }
    let mut ci: usize = 0;
    while ci < chunks.len()
        invariant
            ci <= chunks@.len(),
            cs == chunks.deep_view(),
            cs.len() == chunks@.len(),
            init_run == initial_run(store_view(*old(store))),
            session@.parser == run(initial_parser(), concat_chunks(cs.take(ci as int))),
            session_wf(session@),
            ({
                let cur = units_run(init_run, session@.parser.units);
                !cur.aborted && cur.docs == store_view(*store) && cur.output == session@.output
                    && cur.touched == session@.touched && cur.bad == session@.bad
            }),
            forall|k: int|
                0 <= k < session@.touched.len() ==> (#[trigger] session@.touched[k])
                    < store.docs@.len(),
            store.docs@.len() == old(store).docs@.len(),
            forall|i: int|
                0 <= i < old(store).docs@.len() ==> (#[trigger] store.docs@[i].saves) == old(
                    store,
                ).docs@[i].saves,
            store_wf(*store),
        decreases chunks@.len() - ci,
    {
        let ghost pre_units = session@.parser.units;
        let units = session.parse_chunk(chunks[ci].as_str());
        proof {
            assert(chunks@[ci as int]@ == cs[ci as int]);
            lemma_run_append(initial_parser(), concat_chunks(cs.take(ci as int)), cs[ci as int]);
            lemma_concat_push(cs.take(ci as int), cs[ci as int]);
            assert(cs.take(ci as int).push(cs[ci as int]) =~= cs.take(ci + 1));
            assert(session@.parser == run(initial_parser(), concat_chunks(cs.take(ci + 1))));
            assert(units_of(units@.take(0)) =~= Seq::<UnitV>::empty());
            assert(pre_units + units_of(units@.take(0)) =~= pre_units);
        }
        let mut ui: usize = 0;
        while ui < units.len()
            invariant
                ui <= units@.len(),
                cs == chunks.deep_view(),
                cs.len() == chunks@.len(),
                ci < cs.len(),
                init_run == initial_run(store_view(*old(store))),
                session@.parser == run(initial_parser(), concat_chunks(cs.take(ci + 1))),
                session@.parser.units == pre_units + units_of(units@),
                session_wf(session@),
                ({
                    let cur = units_run(init_run, pre_units + units_of(units@.take(ui as int)));
                    !cur.aborted && cur.docs == store_view(*store) && cur.output
                        == session@.output && cur.touched == session@.touched && cur.bad
                        == session@.bad
                }),
                forall|k: int|
                    0 <= k < session@.touched.len() ==> (#[trigger] session@.touched[k])
                        < store.docs@.len(),
                store.docs@.len() == old(store).docs@.len(),
                forall|i: int|
                    0 <= i < old(store).docs@.len() ==> (#[trigger] store.docs@[i].saves) == old(
                        store,
                    ).docs@[i].saves,
                store_wf(*store),
            decreases units@.len() - ui,
        {
            let ghost done = pre_units + units_of(units@.take(ui as int));
            let ghost cur = units_run(init_run, done);
            let ghost uv = units@[ui as int]@;
            proof {
                assert(units_of(units@.take(ui + 1)) =~= units_of(units@.take(ui as int)).push(
                    uv,
                ));
                assert(done.push(uv) =~= pre_units + units_of(units@.take(ui + 1)));
                lemma_units_run_push(init_run, done, uv);
                assert forall|j: int| 0 <= j < cur.docs.len() implies (#[trigger] cur.docs[j].path)
                    == store.docs@[j].path@ by {
                    assert(store_view(*store)[j] == cur.docs[j]);
                }
            }
            let u = &units[ui];
            let resolved = match &u.action {
                EditAction::Replace { file_path, .. } => store.resolve(file_path),
                EditAction::Write { file_path, .. } => store.resolve(file_path),
            };
            let h = match resolved {
                Some(h) => {
                    proof {
                        lemma_resolve_found(cur.docs, action_path(uv.action), h as int);
                    }
                    h
                },
                None => {
                    proof {
                        lemma_resolve_none(cur.docs, action_path(uv.action));
                        let stepped = unit_step(cur, uv);
                        assert(stepped.aborted && stepped.docs == cur.docs);
                        let cum = pre_units + units_of(units@);
                        let end_parser = run(initial_parser(), concat_chunks(cs));
                        lemma_concat_split(cs, ci + 1);
                        lemma_run_append(
                            initial_parser(),
                            concat_chunks(cs.take(ci + 1)),
                            concat_chunks(cs.skip(ci + 1)),
                        );
                        lemma_run_units_prefix(
                            run(initial_parser(), concat_chunks(cs.take(ci + 1))),
                            concat_chunks(cs.skip(ci + 1)),
                        );
                        assert(end_parser.units.take(cum.len() as int) == cum);
                        let dl: int = done.len() as int + 1;
                        assert(dl <= cum.len());
                        assert(end_parser.units.take(dl) =~= done.push(uv));
                        assert(end_parser.units =~= done.push(uv) + end_parser.units.skip(dl));
                        lemma_units_run_append(
                            init_run,
                            done.push(uv),
                            end_parser.units.skip(dl),
                        );
                        lemma_units_run_aborted(stepped, end_parser.units.skip(dl));
                        assert(units_run(init_run, end_parser.units) == stepped);
                        assert(end_parser.units.len() > 0);
                    }
                    return Err(String::from_str("Path not found in project"));
                },
            };
            let snapshot = store.doc_text(h).clone();
            proof {
                assert(store_view(*store)[h as int] == cur.docs[h as int]);
                assert(snapshot@ == cur.docs[h as int].text);
            }
            match &u.action {
                EditAction::Replace { file_path, old, new } => {
                    let outcome = replace_diff(
                        old.clone(),
                        new.clone(),
                        file_path.clone(),
                        &snapshot,
                    );
                    match outcome {
                        DiffResult::Diff(diff) => {
                            proof {
                                if contains_seq(snapshot@, old@) {
                                    lemma_first_occ_found(snapshot@, old@, diff.start as int);
                                } else {
                                    lemma_first_occ_none(snapshot@, old@);
                                    lemma_whole_file_write_applies(snapshot@, diff.replacement@);
                                }
                            }
                            let new_text = apply_diff(snapshot.as_str(), &diff);
                            proof {
                                assert(replace_result(cur.docs[h as int].text, old@, new@)
                                    == Some(new_text@));
                            }
                            store.set_text(h, new_text);
                            session.record_applied(h as u64, u.source.as_str());
                            proof {
                                let stepped = unit_step(cur, uv);
                                assert(store_view(*store) =~= stepped.docs);
                            }
                        },
                        DiffResult::BadSearch(b) => {
                            proof {
                                lemma_first_occ_none(snapshot@, old@);
                                assert(replace_result(cur.docs[h as int].text, old@, new@)
                                    is None);
                            }
                            session.record_bad_search(b.file_path, b.search);
                        },
                    }
                },
                EditAction::Write { file_path: _, content } => {
                    let diff = whole_file_diff(content.as_str(), snapshot.as_str());
                    let new_text = apply_diff(snapshot.as_str(), &diff);
                    proof {
                        lemma_whole_file_write_applies(snapshot@, content@);
                    }
                    store.set_text(h, new_text);
                    session.record_applied(h as u64, u.source.as_str());
                    proof {
                        let stepped = unit_step(cur, uv);
                        assert(store_view(*store) =~= stepped.docs);
                    }
                },
            }
            proof {
                let stepped = unit_step(cur, uv);
                assert(!stepped.aborted);
                assert(stepped.docs == store_view(*store));
                assert(stepped.output == session@.output);
                assert(stepped.touched == session@.touched);
                assert(stepped.bad == session@.bad);
            }
            ui = ui + 1;
        }
        proof {
            assert(units@.take(units@.len() as int) =~= units@);
        }
        ci = ci + 1;
    }
    proof {
        assert(cs.take(cs.len() as int) =~= cs);
    }
    let ghost cur = units_run(init_run, session@.parser.units);
    let ghost pre_save = store.docs@;
    let mut si: usize = 0;
    let save_count = session.touched_count();
    while si < save_count
        invariant
            si <= save_count,
            save_count == session@.touched.len(),
            session_wf(session@),
            forall|k: int|
                0 <= k < session@.touched.len() ==> (#[trigger] session@.touched[k])
                    < store.docs@.len(),
            store.docs@.len() == pre_save.len(),
            forall|d: int|
                0 <= d < pre_save.len() ==> (#[trigger] store.docs@[d].path@) == pre_save[d].path@,
            forall|d: int|
                0 <= d < pre_save.len() ==> (#[trigger] store.docs@[d].text@) == pre_save[d].text@,
            forall|d: int|
                0 <= d < pre_save.len() ==> (#[trigger] store.docs@[d].saves) as int == if (exists|
                    j: int,
                |
                    0 <= j < si && session@.touched[j] == d as u64) {
                    pre_save[d].saves as int + 1
                } else {
                    pre_save[d].saves as int
                },
            forall|d: int| 0 <= d < pre_save.len() ==> (#[trigger] pre_save[d].saves) < u64::MAX,
            store_wf(*store),
        decreases save_count - si,
    {
        let handles = session.touched();
        let h64 = handles[si];
        let dn = store.docs.len();
        proof {
            assert(session@.touched[si as int] < store.docs@.len());
            assert((h64 as int) < (dn as int));
            assert(forall|j: int|
                0 <= j < si ==> session@.touched[j] != #[trigger] session@.touched[si as int]);
        }
        let h = h64 as usize;
        let ghost before = store.docs@;
        store.save(h);
        proof {
            assert((h as u64) == h64);
            assert(forall|d: int|
                0 <= d < before.len() && d != h as int ==> (#[trigger] store.docs@[d])
                    == before[d]);
            assert forall|d: int| 0 <= d < pre_save.len() implies (#[trigger] store.docs@[d].path@)
                == pre_save[d].path@ by {
                assert(before[d].path@ == pre_save[d].path@);
                if d != h as int {
                    assert(store.docs@[d] == before[d]);
                }
            }
            assert forall|d: int| 0 <= d < pre_save.len() implies (#[trigger] store.docs@[d].text@)
                == pre_save[d].text@ by {
                assert(before[d].text@ == pre_save[d].text@);
                if d != h as int {
                    assert(store.docs@[d] == before[d]);
                }
            }
            assert forall|d: int| 0 <= d < pre_save.len() implies (#[trigger] store.docs@[d].saves)
                as int == (if (exists|j: int|
                0 <= j < si + 1 && session@.touched[j] == d as u64) {
                pre_save[d].saves as int + 1
            } else {
                pre_save[d].saves as int
            }) by {
                assert((d as u64) as int == d);
                if d == h as int {
                    assert(session@.touched[si as int] == d as u64);
                    assert(!(exists|j: int| 0 <= j < si && session@.touched[j] == d as u64));
                    assert(store.docs@[d].saves == before[d].saves + 1);
                } else {
                    assert(store.docs@[d] == before[d]);
                    assert(session@.touched[si as int] == h as u64);
                    assert(session@.touched[si as int] != d as u64);
                    assert((exists|j: int| 0 <= j < si + 1 && session@.touched[j] == d as u64)
                        == (exists|j: int| 0 <= j < si && session@.touched[j] == d as u64)) by {
                        if exists|j: int| 0 <= j < si + 1 && session@.touched[j] == d as u64 {
                            let j = choose|j: int|
                                0 <= j < si + 1 && session@.touched[j] == d as u64;
                            assert(j < si);
                        }
                    }
                }
            }
        }
        si = si + 1;
    }
    let ghost sess = session@;
    let r = session.finalize();
    proof {
        let end_parser = run(initial_parser(), concat_chunks(cs));
        assert(sess.parser == end_parser);
        let end_run = units_run(init_run, end_parser.units);
        assert(end_run == cur);
        assert(store_view(*store) =~= saves_applied(cur.docs, cur.touched)) by {
            assert forall|d: int| 0 <= d < pre_save.len() implies store_view(*store)[d]
                =~= saves_applied(cur.docs, cur.touched)[d] by {
                assert(cur.docs[d] == DocV {
                    path: pre_save[d].path@,
                    text: pre_save[d].text@,
                    saves: pre_save[d].saves,
                });
                assert((exists|j: int|
                    0 <= j < sess.touched.len() && sess.touched[j] == d as u64)
                    == cur.touched.contains(d as u64));
            }
        }
        assert(SessionV {
            parser: end_parser,
            output: end_run.output,
            touched: end_run.touched,
            bad: end_run.bad,
        } =~= sess);
        if end_parser.units.len() == 0 && end_parser.errors.len() == 0 {
            assert(end_run == init_run);
            assert(cur.touched.len() == 0 && cur.bad.len() == 0);
        }
    }
    r
}

} // verus!
