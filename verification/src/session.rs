//! The edit session: accumulated results of a streamed edit run, and the
//! pure finalization that turns them into one textual report.
//!
//! A session owns the incremental parser, the transcript of successfully
//! applied blocks, the set of touched documents (deduplicated, so each is
//! persisted exactly once), and the recorded match failures.  Finalizing
//! consumes the session and decides the outcome: a success transcript, the
//! distinct no-op failure, or a single failure message aggregating every
//! match failure and parse error.

use vstd::prelude::*;

use crate::parser::EditActionParser;
use crate::parser::ParsedUnit;
use crate::parser::ParserV;
use crate::parser::initial_parser;
use crate::parser::run;
use crate::parser::units_of;
use crate::text::push_char;
use vstd::string::StringExecFns;

verus! {

/// A recorded match failure: the search text of a replace block that was
/// found nowhere in its file, neither exactly nor up to indentation.
pub struct BadSearch {
    pub file_path: String,
    pub search: String,
}

/// The specification view of a match failure.
#[verifier::ext_equal]
pub struct BadSearchV {
    pub path: Seq<char>,
    pub search: Seq<char>,
}

impl View for BadSearch {
    type V = BadSearchV;

    open spec fn view(&self) -> BadSearchV {
        BadSearchV { path: self.file_path@, search: self.search@ }
    }
}

/// The specification view of a session.
#[verifier::ext_equal]
pub struct SessionV {
    pub parser: ParserV,
    pub output: Seq<char>,
    pub touched: Seq<u64>,
    pub bad: Seq<BadSearchV>,
}

/// The views of recorded match failures.
pub open spec fn bad_views(v: Seq<BadSearch>) -> Seq<BadSearchV> {
    v.map_values(|b: BadSearch| b@)
}

/// No document handle is recorded twice.
pub open spec fn distinct_handles(t: Seq<u64>) -> bool {
    forall|i: int, j: int| 0 <= i < j < t.len() ==> t[i] != t[j]
}

pub open spec fn success_header() -> Seq<char> {
    "Successfully applied. Here's a list of changes:"@
}

pub open spec fn failure_header_no_edits() -> Seq<char> {
    "I couldn't apply any edits!"@
}

pub open spec fn failure_header_with_edits() -> Seq<char> {
    "Errors occurred. First, here's a list of the edits we managed to apply:"@
}

pub open spec fn noop_message() -> Seq<char> {
    "The instructions didn't lead to any changes. You might need to consult the file contents first."@
}

/// A session is well formed when its transcript still starts with the
/// success header it was created with and its touched set has no duplicate.
pub open spec fn session_wf(v: SessionV) -> bool {
    &&& success_header().is_prefix_of(v.output)
    &&& distinct_handles(v.touched)
}

/// The decimal digit character.
pub open spec fn digit_char(d: nat) -> char {
    if d == 0 {
        '0'
    } else if d == 1 {
        '1'
    } else if d == 2 {
        '2'
    } else if d == 3 {
        '3'
    } else if d == 4 {
        '4'
    } else if d == 5 {
        '5'
    } else if d == 6 {
        '6'
    } else if d == 7 {
        '7'
    } else if d == 8 {
        '8'
    } else {
        '9'
    }
}

/// The decimal notation of a number.
pub open spec fn dec_str(n: nat) -> Seq<char>
    decreases n,
{
    if n < 10 {
        seq![digit_char(n)]
    } else {
        dec_str(n / 10).push(digit_char(n % 10))
    }
}

/// The report lines for one match failure.
pub open spec fn bad_entry(b: BadSearchV) -> Seq<char> {
    "## No exact match in: "@ + b.path + "\n```\n"@ + b.search + "\n```\n\n"@
}

/// The report lines for all match failures, in order of recording.
pub open spec fn bad_entries(bs: Seq<BadSearchV>) -> Seq<char>
    decreases bs.len(),
{
    if bs.len() == 0 {
        Seq::empty()
    } else {
        bad_entry(bs[0]) + bad_entries(bs.drop_first())
    }
}

/// The report line for one parse error.
pub open spec fn error_entry(e: Seq<char>) -> Seq<char> {
    "- "@ + e + "\n"@
}

/// The report lines for all parse errors, in order of detection.
pub open spec fn error_entries(es: Seq<Seq<char>>) -> Seq<char>
    decreases es.len(),
{
    if es.len() == 0 {
        Seq::empty()
    } else {
        error_entry(es[0]) + error_entries(es.drop_first())
    }
}

pub open spec fn match_reminder() -> Seq<char> {
    "The SEARCH section must exactly match an existing block of lines including all white space, comments, indentation, docstrings, etc."@
}

pub open spec fn keep_applied_note() -> Seq<char> {
    "\n\nThe other SEARCH/REPLACE blocks were applied successfully. Do not re-send them!\n"@
}

pub open spec fn retry_note() -> Seq<char> {
    "You can fix errors by running the tool again. You can include instructions, but errors are part of the conversation so you don't need to repeat them.\n"@
}

/// The full failure report: the relabeled transcript, the match-failure
/// section, the parse-error section, the do-not-resend note when some edits
/// were applied, and the closing retry instruction.
pub open spec fn failure_text(
    body: Seq<char>,
    bads: Seq<BadSearchV>,
    errs: Seq<Seq<char>>,
    touched: nat,
) -> Seq<char> {
    let header = if touched == 0 {
        failure_header_no_edits()
    } else {
        failure_header_with_edits()
    };
    let base = header + body;
    let with_bads = if bads.len() > 0 {
        base + "\n\n# "@ + dec_str(bads.len()) + " SEARCH/REPLACE block(s) failed to match:\n\n"@
            + bad_entries(bads) + match_reminder()
    } else {
        base
    };
    let with_errs = if errs.len() > 0 {
        with_bads + "\n\n# "@ + dec_str(errs.len()) + " SEARCH/REPLACE blocks failed to parse:\n"@
            + error_entries(errs)
    } else {
        with_bads
    };
    let with_note = if touched > 0 {
        with_errs + keep_applied_note()
    } else {
        with_errs
    };
    if touched == 0 {
        with_note + "\n\n"@ + retry_note()
    } else {
        with_note + retry_note()
    }
}

/// What finalizing a session must return.
pub open spec fn finalize_result(v: SessionV, r: Result<String, String>) -> bool {
    let errs = v.parser.errors;
    let bads = v.bad;
    let touched = v.touched.len();
    if errs.len() == 0 && bads.len() == 0 {
        if touched == 0 {
            r matches Err(e) && e@ == noop_message()
        } else {
            r matches Ok(out) && out@ == v.output
        }
    } else {
        r matches Err(e) && e@ == failure_text(
            v.output.skip(success_header().len() as int),
            bads,
            errs,
            touched as nat,
        )
    }
}

/// The digit character of a value below ten.
fn digit_exec(d: usize) -> (c: char)
    requires
        d < 10,
    ensures
        c == digit_char(d as nat),
{
    if d == 0 {
        '0'
    } else if d == 1 {
        '1'
    } else if d == 2 {
        '2'
    } else if d == 3 {
        '3'
    } else if d == 4 {
        '4'
    } else if d == 5 {
        '5'
    } else if d == 6 {
        '6'
    } else if d == 7 {
        '7'
    } else if d == 8 {
        '8'
    } else {
        '9'
    }
}

/// The decimal notation of a count.
pub fn usize_to_string(n: usize) -> (r: String)
    ensures
        r@ == dec_str(n as nat),
    decreases n,
{
    if n < 10 {
        let mut r = String::new();
        push_char(&mut r, digit_exec(n));
        proof {
            assert(r@ =~= dec_str(n as nat));
        }
        r
    } else {
        let mut r = usize_to_string(n / 10);
        push_char(&mut r, digit_exec(n % 10));
        r
    }
}

proof fn lemma_bad_entries_push(bs: Seq<BadSearchV>, x: BadSearchV)
    ensures
        bad_entries(bs.push(x)) == bad_entries(bs) + bad_entry(x),
    decreases bs.len(),
{
    if bs.len() == 0 {
        assert(bs.push(x).drop_first() =~= Seq::<BadSearchV>::empty());
        assert(bs.push(x)[0] == x);
        assert(bad_entries(Seq::<BadSearchV>::empty()) == Seq::<char>::empty());
        assert(bad_entries(bs.push(x)) =~= bad_entries(bs) + bad_entry(x));
    } else {
        assert(bs.push(x).drop_first() =~= bs.drop_first().push(x));
        lemma_bad_entries_push(bs.drop_first(), x);
        assert(bs.push(x)[0] == bs[0]);
        assert(bad_entry(bs[0]) + (bad_entries(bs.drop_first()) + bad_entry(x)) =~= (bad_entry(
            bs[0],
        ) + bad_entries(bs.drop_first())) + bad_entry(x));
    }
}

proof fn lemma_error_entries_push(es: Seq<Seq<char>>, x: Seq<char>)
    ensures
        error_entries(es.push(x)) == error_entries(es) + error_entry(x),
    decreases es.len(),
{
    if es.len() == 0 {
        assert(es.push(x).drop_first() =~= Seq::<Seq<char>>::empty());
        assert(es.push(x)[0] == x);
        assert(error_entries(Seq::<Seq<char>>::empty()) == Seq::<char>::empty());
        assert(error_entries(es.push(x)) =~= error_entries(es) + error_entry(x));
    } else {
        assert(es.push(x).drop_first() =~= es.drop_first().push(x));
        lemma_error_entries_push(es.drop_first(), x);
        assert(es.push(x)[0] == es[0]);
        assert(error_entry(es[0]) + (error_entries(es.drop_first()) + error_entry(x)) =~= (
        error_entry(es[0]) + error_entries(es.drop_first())) + error_entry(x));
    }
}

/// One streamed edit run's accumulated state.
pub struct EditSession {
    parser: EditActionParser,
    output: String,
    touched: Vec<u64>,
    bad: Vec<BadSearch>,
}

impl View for EditSession {
    type V = SessionV;

    closed spec fn view(&self) -> SessionV {
        SessionV {
            parser: self.parser@,
            output: self.output@,
            touched: self.touched@,
            bad: bad_views(self.bad@),
        }
    }
}

impl EditSession {
    /// A fresh session: transcript holding only the success header, nothing
    /// parsed, nothing touched, nothing failed.
    pub fn new() -> (r: EditSession)
        ensures
            r@.parser == initial_parser(),
            r@.output == success_header(),
            r@.touched == Seq::<u64>::empty(),
            r@.bad == Seq::<BadSearchV>::empty(),
            session_wf(r@),
    {
        let r = EditSession {
            parser: EditActionParser::new(),
            output: String::from_str("Successfully applied. Here's a list of changes:"),
            touched: Vec::new(),
            bad: Vec::new(),
        };
        proof {
            assert(r@.bad =~= Seq::<BadSearchV>::empty());
            assert(success_header().is_prefix_of(r@.output));
        }
        r
    }

    /// Feeds one stream chunk to the parser and returns the actions it
    /// completed; the rest of the session is untouched.
    pub fn parse_chunk(&mut self, chunk: &str) -> (r: Vec<ParsedUnit>)
        ensures
            final(self)@.parser == run(old(self)@.parser, chunk@),
            final(self)@.parser.units == old(self)@.parser.units + units_of(r@),
            final(self)@.output == old(self)@.output,
            final(self)@.touched == old(self)@.touched,
            final(self)@.bad == old(self)@.bad,
            session_wf(old(self)@) ==> session_wf(final(self)@),
    {
        self.parser.parse_chunk(chunk)
    }

    /// The parse errors seen so far.
    pub fn parse_errors(&self) -> (r: &Vec<String>)
        ensures
            r.deep_view() == self@.parser.errors,
    {
        self.parser.errors()
    }

    /// Records a successfully applied action: its source text joins the
    /// transcript and its document joins the touched set, without
    /// duplicates.
    pub fn record_applied(&mut self, handle: u64, source: &str)
        ensures
            final(self)@.output == old(self)@.output + "\n\n"@ + source@,
            final(self)@.touched == if old(self)@.touched.contains(handle) {
                old(self)@.touched
            } else {
                old(self)@.touched.push(handle)
            },
            final(self)@.parser == old(self)@.parser,
            final(self)@.bad == old(self)@.bad,
            session_wf(old(self)@) ==> session_wf(final(self)@),
    {
        self.output.append("\n\n");
        self.output.append(source);
        let mut present = false;
        let mut i: usize = 0;
        while i < self.touched.len()
            invariant
                i <= self.touched@.len(),
                present == exists|j: int| 0 <= j < i && self.touched@[j] == handle,
            decreases self.touched@.len() - i,
        {
            if self.touched[i] == handle {
                present = true;
            }
            i = i + 1;
        }
        if !present {
            self.touched.push(handle);
        }
        proof {
            if session_wf(old(self)@) {
                assert(success_header().is_prefix_of(self@.output));
                assert(distinct_handles(self@.touched));
            }
        }
    }

    /// Records a match failure for later reporting.
    pub fn record_bad_search(&mut self, file_path: String, search: String)
        ensures
            final(self)@.bad == old(self)@.bad.push(
                BadSearchV { path: file_path@, search: search@ },
            ),
            final(self)@.output == old(self)@.output,
            final(self)@.touched == old(self)@.touched,
            final(self)@.parser == old(self)@.parser,
            session_wf(old(self)@) ==> session_wf(final(self)@),
    {
        let ghost pre = bad_views(self.bad@);
        self.bad.push(BadSearch { file_path, search });
        proof {
            assert(bad_views(self.bad@) =~= pre.push(self.bad@.last()@));
        }
    }

    /// The touched documents, each exactly once, in order of first edit.
    pub fn touched(&self) -> (r: &Vec<u64>)
        ensures
            r@ == self@.touched,
    {
        &self.touched
    }

    /// How many documents were touched.
    pub fn touched_count(&self) -> (r: usize)
        ensures
            r == self@.touched.len(),
    {
        self.touched.len()
    }

    /// Consumes the session and decides the outcome.
    ///
    /// With no parse error and no match failure, the run succeeds with the
    /// transcript — unless nothing was touched, which is the distinct no-op
    /// failure.  Otherwise the run fails with the aggregated report; the
    /// report never drops an error.
    pub fn finalize(self) -> (r: Result<String, String>)
        requires
            session_wf(self@),
        ensures
            finalize_result(self@, r),
    {
        let ghost v = self@;
        let EditSession { parser, output, touched, bad } = self;
        let no_parse_errors = parser.errors().len() == 0;
        if no_parse_errors && bad.len() == 0 {
            if touched.len() == 0 {
                return Err(
                    String::from_str(
                        "The instructions didn't lead to any changes. You might need to consult the file contents first.",
                    ),
                );
            }
            return Ok(output);
        }
        let header = if touched.len() == 0 {
            "I couldn't apply any edits!"
        } else {
            "Errors occurred. First, here's a list of the edits we managed to apply:"
        };
        let mut out = String::from_str(header);
        let hlen = "Successfully applied. Here's a list of changes:".unicode_len();
        let olen = output.as_str().unicode_len();
        proof {
            assert(success_header().len() <= v.output.len());
        }
        out.append(output.as_str().substring_char(hlen, olen));
        let ghost base = out@;
        if bad.len() > 0 {
            out.append("\n\n# ");
            let count = usize_to_string(bad.len());
            out.append(count.as_str());
            out.append(" SEARCH/REPLACE block(s) failed to match:\n\n");
            let ghost section = out@;
            let mut i: usize = 0;
            while i < bad.len()
                invariant
                    i <= bad@.len(),
                    out@ == section + bad_entries(bad_views(bad@).take(i as int)),
                decreases bad@.len() - i,
            {
                out.append("## No exact match in: ");
                out.append(bad[i].file_path.as_str());
                out.append("\n```\n");
                out.append(bad[i].search.as_str());
                out.append("\n```\n\n");
                proof {
                    let bv = bad_views(bad@);
                    lemma_bad_entries_push(bv.take(i as int), bv[i as int]);
                    assert(bv.take(i as int).push(bv[i as int]) =~= bv.take(i + 1));
                    assert(out@ =~= section + bad_entries(bv.take(i + 1)));
                }
                i = i + 1;
            }
            proof {
                assert(bad_views(bad@).take(bad@.len() as int) =~= bad_views(bad@));
            }
            out.append(
                "The SEARCH section must exactly match an existing block of lines including all white space, comments, indentation, docstrings, etc.",
            );
        }
        let parse_errors = parser.errors();
        if parse_errors.len() > 0 {
            out.append("\n\n# ");
            let count = usize_to_string(parse_errors.len());
            out.append(count.as_str());
            out.append(" SEARCH/REPLACE blocks failed to parse:\n");
            let ghost section = out@;
            let mut i: usize = 0;
            while i < parse_errors.len()
                invariant
                    i <= parse_errors@.len(),
                    parse_errors.deep_view() == v.parser.errors,
                    out@ == section + error_entries(parse_errors.deep_view().take(i as int)),
                decreases parse_errors@.len() - i,
            {
                out.append("- ");
                out.append(parse_errors[i].as_str());
                out.append("\n");
                proof {
                    let ev = parse_errors.deep_view();
                    lemma_error_entries_push(ev.take(i as int), ev[i as int]);
                    assert(ev.take(i as int).push(ev[i as int]) =~= ev.take(i + 1));
                    assert(parse_errors@[i as int]@ == ev[i as int]);
                    assert(out@ =~= section + error_entries(ev.take(i + 1)));
                }
                i = i + 1;
            }
            proof {
                let ev = parse_errors.deep_view();
                assert(ev.take(ev.len() as int) =~= ev);
            }
        }
        if touched.len() > 0 {
            out.append(
                "\n\nThe other SEARCH/REPLACE blocks were applied successfully. Do not re-send them!\n",
            );
        } else {
            out.append("\n\n");
        }
        out.append(
            "You can fix errors by running the tool again. You can include instructions, but errors are part of the conversation so you don't need to repeat them.\n",
        );
        proof {
            assert(out@ =~= failure_text(
                v.output.skip(success_header().len() as int),
                v.bad,
                v.parser.errors,
                v.touched.len() as nat,
            ));
        }
        Err(out)
    }
}

} // verus!
