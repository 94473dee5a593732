//! Fetch/retry orchestrator: a pausable, resumable state machine that drives
//! a queue of URLs through fetch and conversion, one URL at a time.
//!
//! The orchestrator never fetches itself. A driver asks `next_action` what
//! to do, performs the fetch (and any backoff delay), and hands the result
//! to `step`. A failed fetch is retried until `max_attempts` attempts are
//! spent, then recorded as an error outcome; a successful fetch runs the
//! conversion pipeline and is recorded as a success outcome. Results always
//! stand in queue order, one per finished URL, and pausing between steps
//! never loses or repeats work.

use vstd::prelude::*;

use crate::filename::{filename_spec, generate_filename_from_url};
use crate::process_html_to_markdown;
use crate::process_spec;
use crate::text::{
    blank_chars, copy_range, find_char, first_at, from_chars, is_blank, push_all, push_str_chars,
    to_chars,
};

verus! {

/// The success-or-error result of converting one URL.
pub enum Outcome {
    Success { url: String, markdown: String },
    Failure { url: String, error: String },
}

/// Ghost image of an outcome.
#[verifier::ext_equal]
pub struct OutcomeModel {
    pub url: Seq<char>,
    pub text: Seq<char>,
    pub success: bool,
}

impl Outcome {
    pub open spec fn model(&self) -> OutcomeModel {
        match self {
            Outcome::Success { url, markdown } => OutcomeModel {
                url: url@,
                text: markdown@,
                success: true,
            },
            Outcome::Failure { url, error } => OutcomeModel {
                url: url@,
                text: error@,
                success: false,
            },
        }
    }

    /// Whether this outcome is a success, keyed on the variant, never on the
    /// text.
    pub fn is_success(&self) -> (r: bool)
        ensures
            r == self.model().success,
    {
        match self {
            Outcome::Success { .. } => true,
            Outcome::Failure { .. } => false,
        }
    }
}

/// What a fetch handed back to the orchestrator: the page text, or a
/// transport or status failure described for a human reader.
pub enum FetchEvent {
    Success { html: String },
    Failure { error: String },
}

/// Ghost image of a fetch event.
#[verifier::ext_equal]
pub struct EventModel {
    pub success: bool,
    pub text: Seq<char>,
}

impl FetchEvent {
    pub open spec fn model(&self) -> EventModel {
        match self {
            FetchEvent::Success { html } => EventModel { success: true, text: html@ },
            FetchEvent::Failure { error } => EventModel { success: false, text: error@ },
        }
    }
}

/// What the driver should do next.
pub enum Action {
    Fetch { url: String },
    Wait,
    Done,
}

/// Ghost image of a result list.
pub open spec fn results_model(rs: Seq<Outcome>) -> Seq<OutcomeModel> {
    rs.map_values(|o: Outcome| o.model())
}

/// Ghost image of a `(filename, markdown)` export list.
pub open spec fn pair_views(ps: Seq<(String, String)>) -> Seq<(Seq<char>, Seq<char>)> {
    ps.map_values(|p: (String, String)| (p.0@, p.1@))
}

/// Ghost image of the orchestrator state.
#[verifier::ext_equal]
pub struct BatchModel {
    pub queue: Seq<Seq<char>>,
    pub cursor: int,
    pub results: Seq<OutcomeModel>,
    pub paused: bool,
    pub attempt: int,
    pub max_attempts: int,
}

/// The orchestrator's invariant: one result per finished URL, in queue
/// order, and attempts on the current URL still below the bound.
pub open spec fn batch_wf(m: BatchModel) -> bool {
    &&& m.max_attempts >= 1
    &&& 0 <= m.attempt < m.max_attempts
    &&& m.cursor == m.results.len()
    &&& m.cursor <= m.queue.len()
    &&& forall|i: int| 0 <= i < m.cursor ==> m.results[i].url == m.queue[i]
}

/// The recorded text of an error outcome, as a human-readable description.
pub open spec fn error_text(url: Seq<char>, error: Seq<char>) -> Seq<char> {
    "Error fetching markdown for URL: "@ + url + "\nDetails: "@ + error + "\n"@
}

/// One step of the state machine, on the model: a success records a
/// converted outcome and advances; a failure either burns one attempt or,
/// when attempts are spent, records an error outcome and advances.
pub open spec fn step_spec(m: BatchModel, ev: EventModel) -> BatchModel {
    let url = m.queue[m.cursor];
    if ev.success {
        BatchModel {
            queue: m.queue,
            cursor: m.cursor + 1,
            results: m.results.push(
                OutcomeModel { url, text: process_spec(ev.text, url), success: true },
            ),
            paused: m.paused,
            attempt: 0,
            max_attempts: m.max_attempts,
        }
    } else if m.attempt + 1 < m.max_attempts {
        BatchModel {
            queue: m.queue,
            cursor: m.cursor,
            results: m.results,
            paused: m.paused,
            attempt: m.attempt + 1,
            max_attempts: m.max_attempts,
        }
    } else {
        BatchModel {
            queue: m.queue,
            cursor: m.cursor + 1,
            results: m.results.push(
                OutcomeModel { url, text: error_text(url, ev.text), success: false },
            ),
            paused: m.paused,
            attempt: 0,
            max_attempts: m.max_attempts,
        }
    }
}

/// The aggregated document: all outcome texts joined by the fixed separator,
/// in queue order.
pub open spec fn aggregate_spec(results: Seq<OutcomeModel>) -> Seq<char>
    decreases results.len(),
{
    if results.len() == 0 {
        Seq::empty()
    } else if results.len() == 1 {
        results[0].text
    } else {
        aggregate_spec(results.drop_last()) + "\n\n---\n\n"@ + results.last().text
    }
}

/// The per-file export list: one `(filename, markdown)` pair per success
/// outcome, in queue order; error outcomes are excluded by their variant.
pub open spec fn export_spec(results: Seq<OutcomeModel>) -> Seq<(Seq<char>, Seq<char>)>
    decreases results.len(),
{
    if results.len() == 0 {
        Seq::empty()
    } else {
        let rest = export_spec(results.drop_last());
        if results.last().success {
            rest.push((filename_spec(results.last().url), results.last().text))
        } else {
            rest
        }
    }
}

/// The orchestrator's run state over one batch of URLs.
pub struct BatchState {
    pub queue: Vec<String>,
    pub cursor: usize,
    pub results: Vec<Outcome>,
    pub paused: bool,
    pub attempt: u32,
    pub max_attempts: u32,
}

impl BatchState {
    pub open spec fn model(&self) -> BatchModel {
        BatchModel {
            queue: self.queue.deep_view(),
            cursor: self.cursor as int,
            results: results_model(self.results@),
            paused: self.paused,
            attempt: self.attempt as int,
            max_attempts: self.max_attempts as int,
        }
    }

    pub open spec fn wf(&self) -> bool {
        batch_wf(self.model())
    }

    /// A fresh batch over `queue`, not paused, nothing recorded.
    pub fn new(queue: Vec<String>, max_attempts: u32) -> (r: BatchState)
        requires
            max_attempts >= 1,
        ensures
            r.wf(),
            r.model() == (BatchModel {
                queue: queue.deep_view(),
                cursor: 0,
                results: Seq::<OutcomeModel>::empty(),
                paused: false,
                attempt: 0,
                max_attempts: max_attempts as int,
            }),
    {
        let r = BatchState {
            queue,
            cursor: 0,
            results: Vec::new(),
            paused: false,
            attempt: 0,
            max_attempts,
        };
        proof {
            assert(r.model().results =~= Seq::<OutcomeModel>::empty());
        }
        r
    }

    /// Set the pause flag; nothing else changes, no outcome is recorded.
    pub fn pause(&mut self)
        ensures
            final(self).model() == (BatchModel { paused: true, ..old(self).model() }),
            old(self).wf() ==> final(self).wf(),
    {
        self.paused = true;
    }

    /// Clear the pause flag; nothing else changes, no outcome is recorded.
    pub fn resume(&mut self)
        ensures
            final(self).model() == (BatchModel { paused: false, ..old(self).model() }),
            old(self).wf() ==> final(self).wf(),
    {
        self.paused = false;
    }

    /// Every queued URL has an outcome.
    pub fn is_complete(&self) -> (r: bool)
        requires
            self.wf(),
        ensures
            r == (self.model().cursor == self.model().queue.len()),
    {
        self.cursor >= self.queue.len()
    }

    /// What the driver should do now: wait while paused, stop when the queue
    /// is finished, else fetch the URL at the cursor.
    pub fn next_action(&self) -> (r: Action)
        requires
            self.wf(),
        ensures
            match r {
                Action::Wait => self.model().paused,
                Action::Done => !self.model().paused && self.model().cursor
                    == self.model().queue.len(),
                Action::Fetch { url } => !self.model().paused && self.model().cursor
                    < self.model().queue.len() && url@ == self.model().queue[self.model().cursor],
            },
    {
        if self.paused {
            Action::Wait
        } else if self.cursor >= self.queue.len() {
            Action::Done
        } else {
            Action::Fetch { url: self.queue[self.cursor].clone() }
        }
    }

    /// Feed the result of one fetch of the URL at the cursor into the state
    /// machine.
    pub fn step(&mut self, ev: FetchEvent)
        requires
            old(self).wf(),
            !old(self).model().paused,
            old(self).model().cursor < old(self).model().queue.len(),
        ensures
            final(self).wf(),
            final(self).model() == step_spec(old(self).model(), ev.model()),
    {
        let ghost m0 = self.model();
        let ghost evm = ev.model();
        let qlen: usize = self.queue.len();
        assert(self.cursor < qlen);
        let url = self.queue[self.cursor].clone();
        match ev {
            FetchEvent::Success { html } => {
                let md = process_html_to_markdown(html.as_str(), url.as_str());
                let outcome = Outcome::Success { url, markdown: md };
                self.results.push(outcome);
                self.cursor = self.cursor + 1;
                self.attempt = 0;
                proof {
                    assert(self.model().results =~= m0.results.push(
                        OutcomeModel {
                            url: m0.queue[m0.cursor],
                            text: process_spec(evm.text, m0.queue[m0.cursor]),
                            success: true,
                        },
                    ));
                    assert(self.model() =~= step_spec(m0, evm));
                }
            },
            FetchEvent::Failure { error } => {
                if self.attempt + 1 < self.max_attempts {
                    self.attempt = self.attempt + 1;
                    proof {
                        assert(self.model() =~= step_spec(m0, evm));
                    }
                } else {
                    let mut text = to_chars("Error fetching markdown for URL: ");
                    let uv = to_chars(url.as_str());
                    push_all(&mut text, &uv);
                    push_str_chars(&mut text, "\nDetails: ");
                    let ev_chars = to_chars(error.as_str());
                    push_all(&mut text, &ev_chars);
                    push_str_chars(&mut text, "\n");
                    let outcome = Outcome::Failure { url, error: from_chars(&text) };
                    self.results.push(outcome);
                    self.cursor = self.cursor + 1;
                    self.attempt = 0;
                    proof {
                        assert(self.model().results =~= m0.results.push(
                            OutcomeModel {
                                url: m0.queue[m0.cursor],
                                text: error_text(m0.queue[m0.cursor], evm.text),
                                success: false,
                            },
                        ));
                        assert(self.model() =~= step_spec(m0, evm));
                    }
                }
            },
        }
    }

    /// Join all recorded outcome texts, Markdown and error descriptions
    /// alike, with the fixed separator, in queue order.
    pub fn aggregate(&self) -> (r: String)
        ensures
            r@ == aggregate_spec(self.model().results),
    {
        let ghost rm = self.model().results;
        let mut out: Vec<char> = Vec::new();
        let mut i: usize = 0;
        while i < self.results.len()
            invariant
                i <= self.results@.len(),
                rm == self.model().results,
                rm.len() == self.results@.len(),
                out@ == aggregate_spec(rm.take(i as int)),
            decreases self.results@.len() - i,
        {
            if i > 0 {
                push_str_chars(&mut out, "\n\n---\n\n");
            }
            match &self.results[i] {
                Outcome::Success { markdown, .. } => {
                    push_str_chars(&mut out, markdown.as_str());
                },
                Outcome::Failure { error, .. } => {
                    push_str_chars(&mut out, error.as_str());
                },
            }
            proof {
                let t = rm.take(i + 1);
                assert(t.drop_last() =~= rm.take(i as int));
                assert(t.last() == rm[i as int]);
                if i == 0 {
                    assert(out@ =~= aggregate_spec(t));
                } else {
                    assert(out@ =~= aggregate_spec(t));
                }
            }
            i = i + 1;
        }
        assert(rm.take(rm.len() as int) == rm);
        from_chars(&out)
    }

    /// The per-file export list: derived filename and Markdown of each
    /// success outcome, in queue order; error outcomes are left out.
    pub fn export_entries(&self) -> (r: Vec<(String, String)>)
        ensures
            pair_views(r@) == export_spec(self.model().results),
    {
        let ghost rm = self.model().results;
        let mut out: Vec<(String, String)> = Vec::new();
        let mut i: usize = 0;
        while i < self.results.len()
            invariant
                i <= self.results@.len(),
                rm == self.model().results,
                rm.len() == self.results@.len(),
                pair_views(out@) == export_spec(rm.take(i as int)),
            decreases self.results@.len() - i,
        {
            let ghost pre = pair_views(out@);
            match &self.results[i] {
                Outcome::Success { url, markdown } => {
                    let name = generate_filename_from_url(url.as_str());
                    out.push((name, markdown.clone()));
                },
                Outcome::Failure { .. } => {},
            }
            proof {
                let t = rm.take(i + 1);
                assert(t.drop_last() =~= rm.take(i as int));
                assert(t.last() == rm[i as int]);
                if rm[i as int].success {
                    assert(pair_views(out@) =~= pre.push(
                        (filename_spec(rm[i as int].url), rm[i as int].text),
                    ));
                }
                assert(pair_views(out@) == export_spec(t));
            }
            i = i + 1;
        }
        assert(rm.take(rm.len() as int) == rm);
        out
    }
}

/// Feed a run of failure events into the state machine, one after another.
pub open spec fn apply_failures(m: BatchModel, errs: Seq<Seq<char>>) -> BatchModel
    decreases errs.len(),
{
    if errs.len() == 0 {
        m
    } else {
        apply_failures(step_spec(m, EventModel { success: false, text: errs[0] }), errs.skip(1))
    }
}

/// Law (retry bound), general form: starting `k = m.attempt` attempts in,
/// fewer failures than the remaining budget record nothing and only count
/// attempts; spending the budget records exactly one error outcome for the
/// current URL and moves to the next.
pub proof fn lemma_failures_from(m: BatchModel, errs: Seq<Seq<char>>)
    requires
        batch_wf(m),
        m.cursor < m.queue.len(),
        errs.len() <= m.max_attempts - m.attempt,
    ensures
        errs.len() < m.max_attempts - m.attempt ==> apply_failures(m, errs) == (BatchModel {
            attempt: m.attempt + errs.len(),
            ..m
        }),
        errs.len() == m.max_attempts - m.attempt ==> apply_failures(m, errs) == (BatchModel {
            cursor: m.cursor + 1,
            results: m.results.push(
                OutcomeModel {
                    url: m.queue[m.cursor],
                    text: error_text(m.queue[m.cursor], errs.last()),
                    success: false,
                },
            ),
            attempt: 0,
            ..m
        }),
    decreases errs.len(),
{
    if errs.len() > 0 {
        let ev = EventModel { success: false, text: errs[0] };
        let m1 = step_spec(m, ev);
        assert(apply_failures(m, errs) == apply_failures(m1, errs.skip(1)));
        if m.attempt + 1 < m.max_attempts {
            assert(batch_wf(m1));
            lemma_failures_from(m1, errs.skip(1));
            if errs.len() < m.max_attempts - m.attempt {
                assert(apply_failures(m, errs) =~= (BatchModel {
                    attempt: m.attempt + errs.len(),
                    ..m
                }));
            } else {
                assert(errs.skip(1).last() == errs.last());
                assert(apply_failures(m, errs) =~= (BatchModel {
                    cursor: m.cursor + 1,
                    results: m.results.push(
                        OutcomeModel {
                            url: m.queue[m.cursor],
                            text: error_text(m.queue[m.cursor], errs.last()),
                            success: false,
                        },
                    ),
                    attempt: 0,
                    ..m
                }));
            }
        } else {
            assert(errs.len() == 1);
            assert(errs.skip(1).len() == 0);
            assert(errs.last() == errs[0]);
            assert(apply_failures(m1, errs.skip(1)) == m1);
        }
    }
}

/// Law (retry bound): a URL whose fetch always fails is attempted exactly
/// `max_attempts` times — after that many failure events the cursor has
/// moved past it, so it is never attempted again — and it yields exactly one
/// outcome, an error outcome carrying that URL; any shorter run of failures
/// records no outcome at all.
pub proof fn lemma_retry_bound(m: BatchModel, errs: Seq<Seq<char>>)
    requires
        batch_wf(m),
        m.attempt == 0,
        m.cursor < m.queue.len(),
    ensures
        errs.len() == m.max_attempts ==> apply_failures(m, errs).cursor == m.cursor + 1,
        errs.len() == m.max_attempts ==> apply_failures(m, errs).results == m.results.push(
            OutcomeModel {
                url: m.queue[m.cursor],
                text: error_text(m.queue[m.cursor], errs.last()),
                success: false,
            },
        ),
        errs.len() < m.max_attempts ==> apply_failures(m, errs).results == m.results
            && apply_failures(m, errs).cursor == m.cursor,
{
    if errs.len() <= m.max_attempts {
        lemma_failures_from(m, errs);
    }
}

/// Law (pause/resume): when the batch stands before URL `k = m.cursor`, the
/// outcomes of URLs `0..k-1` are recorded in queue order; pausing records
/// nothing and moves nothing; resuming restores exactly the state before the
/// pause; and the next step after resuming works on URL `k` itself, only
/// appending to the recorded outcomes, never rewriting them.
pub proof fn lemma_pause_resume(m: BatchModel, ev: EventModel)
    requires
        batch_wf(m),
        !m.paused,
        m.cursor < m.queue.len(),
    ensures
        m.results.len() == m.cursor,
        forall|i: int| 0 <= i < m.cursor ==> m.results[i].url == m.queue[i],
        (BatchModel { paused: true, ..m }).results == m.results,
        (BatchModel { paused: true, ..m }).cursor == m.cursor,
        (BatchModel { paused: false, ..(BatchModel { paused: true, ..m }) }) == m,
        step_spec(m, ev).results.len() > m.results.len() ==> step_spec(m, ev).results.last().url
            == m.queue[m.cursor],
        forall|i: int| 0 <= i < m.results.len() ==> step_spec(m, ev).results[i] == m.results[i],
{
    assert((BatchModel { paused: false, ..(BatchModel { paused: true, ..m }) }) =~= m);
}

/// A line of text is kept as a queue entry only when it is not blank.
pub open spec fn keep_nonblank(ls: Seq<Seq<char>>) -> Seq<Seq<char>>
    decreases ls.len(),
{
    if ls.len() == 0 {
        Seq::empty()
    } else {
        let rest = keep_nonblank(ls.skip(1));
        if is_blank(ls[0]) {
            rest
        } else {
            seq![ls[0]] + rest
        }
    }
}

/// A line without its trailing carriage return.
pub open spec fn strip_cr(l: Seq<char>) -> Seq<char> {
    if l.len() > 0 && l[l.len() - 1] == '\r' {
        l.take(l.len() - 1)
    } else {
        l
    }
}

/// The lines of `s`: split at `'\n'`, one trailing `'\r'` removed from each,
/// with no empty line after a final newline.
pub open spec fn lines_spec(s: Seq<char>) -> Seq<Seq<char>>
    decreases s.len(),
    via lines_spec_dec
{
    if s.len() == 0 {
        Seq::empty()
    } else {
        match first_at(s, 0, seq!['\n']) {
            Some(n) => seq![strip_cr(s.take(n))] + lines_spec(s.skip(n + 1)),
            None => seq![strip_cr(s)],
        }
    }
}

#[via_fn]
proof fn lines_spec_dec(s: Seq<char>) {
    if s.len() > 0 && first_at(s, 0, seq!['\n']) is Some {
        crate::text::lemma_first_at_bounds(s, 0, seq!['\n']);
    }
}

/// What `parse_url_lines` returns: the non-blank lines of the input, in
/// order, unchanged.
pub open spec fn parse_urls_spec(s: Seq<char>) -> Seq<Seq<char>> {
    keep_nonblank(lines_spec(s))
}

/// Split a URL file's text into a queue of URLs: one per line, blank and
/// whitespace-only lines dropped, order kept.
pub fn parse_url_lines(content: &str) -> (r: Vec<String>)
    ensures
        r.deep_view() == parse_urls_spec(content@),
{
    let v = to_chars(content);
    let n = v.len();
    let mut out: Vec<String> = Vec::new();
    let mut pos: usize = 0;
    assert(v@.skip(0) == v@);
    assert(out.deep_view() =~= Seq::<Seq<char>>::empty());
    assert(Seq::<Seq<char>>::empty() + keep_nonblank(lines_spec(v@)) =~= keep_nonblank(
        lines_spec(v@),
    ));
    while pos < n
        invariant
            pos <= n == v@.len(),
            parse_urls_spec(v@) == out.deep_view() + keep_nonblank(lines_spec(v@.skip(pos as int))),
        decreases n - pos,
    {
        let ghost suffix = v@.skip(pos as int);
        let ghost pre = out.deep_view();
        let (line_end, next): (usize, usize) = match find_char(&v, pos, '\n') {
            Some(k) => {
                proof {
                    crate::text::lemma_first_at_bounds(v@, pos as int, seq!['\n']);
                }
                (k, k + 1)
            },
            None => (n, n),
        };
        proof {
            lemma_first_nl_skip(v@, pos as int, line_end as int);
        }
        let mut line = copy_range(&v, pos, line_end);
        if line.len() > 0 && line[line.len() - 1] == '\r' {
            let ghost lv = line@;
            line.truncate(line.len() - 1);
            assert(line@ == lv.take(lv.len() - 1));
        }
        assert(line@ == strip_cr(v@.subrange(pos as int, line_end as int)));
        if !blank_chars(&line) {
            let st = from_chars(&line);
            out.push(st);
            assert(out.deep_view() =~= pre.push(line@));
        }
        proof {
            if line_end < n {
                assert(suffix.take(line_end - pos) == v@.subrange(pos as int, line_end as int));
                assert(suffix.skip(line_end - pos + 1) == v@.skip(line_end + 1));
                assert(lines_spec(suffix) == seq![strip_cr(v@.subrange(pos as int, line_end as int))]
                    + lines_spec(v@.skip(line_end + 1)));
                assert(lines_spec(suffix).skip(1) == lines_spec(v@.skip(line_end + 1)));
            } else {
                assert(suffix == v@.subrange(pos as int, n as int));
                assert(lines_spec(suffix) == seq![strip_cr(suffix)]);
                assert(lines_spec(suffix).skip(1) =~= Seq::<Seq<char>>::empty());
                assert(lines_spec(v@.skip(n as int)) =~= Seq::<Seq<char>>::empty());
            }
            assert(lines_spec(suffix)[0] == line@);
            if is_blank(line@) {
                assert(out.deep_view() + keep_nonblank(lines_spec(v@.skip(next as int))) =~=
                    pre + keep_nonblank(lines_spec(suffix)));
            } else {
                assert(pre.push(line@) + keep_nonblank(lines_spec(v@.skip(next as int))) =~=
                    pre + (seq![line@] + keep_nonblank(lines_spec(v@.skip(next as int)))));
            }
        }
        pos = next;
    }
    assert(lines_spec(v@.skip(n as int)) =~= Seq::<Seq<char>>::empty());
    assert(out.deep_view() + Seq::<Seq<char>>::empty() =~= out.deep_view());
    out
}

/// Relates the first newline found in `s` from `pos` to the line structure
/// of the suffix starting at `pos`.
proof fn lemma_first_nl_skip(s: Seq<char>, pos: int, line_end: int)
    requires
        0 <= pos <= s.len(),
        pos <= line_end <= s.len(),
        line_end < s.len() ==> first_at(s, pos, seq!['\n']) == Some(line_end),
        line_end == s.len() ==> first_at(s, pos, seq!['\n']) is None,
    ensures
        line_end < s.len() ==> first_at(s.skip(pos), 0, seq!['\n']) == Some(line_end - pos),
        line_end == s.len() ==> first_at(s.skip(pos), 0, seq!['\n']) is None,
{
    let t = s.skip(pos);
    if line_end < s.len() {
        crate::text::lemma_first_at_bounds(s, pos, seq!['\n']);
        assert(t[line_end - pos] == s[line_end]);
        assert(crate::text::matches_at(t, line_end - pos, seq!['\n']));
        assert forall|j: int| 0 <= j < line_end - pos implies !crate::text::matches_at(
            t,
            j,
            seq!['\n'],
        ) by {
            assert(!crate::text::matches_at(s, pos + j, seq!['\n']));
            assert(t[j] == s[pos + j]);
        }
        crate::text::lemma_first_at_some(t, 0, seq!['\n'], line_end - pos);
    } else {
        assert forall|j: int| 0 <= j implies !crate::text::matches_at(t, j, seq!['\n']) by {
            if j < t.len() {
                if crate::text::matches_at(t, j, seq!['\n']) {
                    assert(t[j] == s[pos + j]);
                    assert(crate::text::matches_at(s, pos + j, seq!['\n']));
                    crate::text::lemma_first_at_none_inv(s, pos, seq!['\n'], pos + j);
                }
            }
        }
        crate::text::lemma_first_at_none(t, 0, seq!['\n']);
    }
}

} // verus!
