//! The scheduling state machine: per-file dispatch decisions and the
//! run report with its outstanding-task counter.
//!
//! Walking the directory tree, the worker pool and the result channel
//! live outside this library; they feed every observed file into
//! [`Scheduler::plan_file`] and every lifecycle event into
//! [`Scheduler::handle_event`], whose contracts pin down the whole
//! bookkeeping.

use vstd::prelude::*;

use crate::cache::CacheManager;
use crate::config::Config;
use crate::parser::{rules_view, CodeStat, CommentToken, ParserState, StatV, StateV, TokenV};
use crate::text::{lemma_lex_irrefl, lemma_lex_total, lemma_lex_trans, lex_lt, str_eq, str_lt};

verus! {

/// What the scheduler decides for one observed file.
#[derive(Debug)]
pub enum FileAction {
    /// No rules are configured for the extension: the file is left out
    /// of the run entirely.
    Skip,
    /// The cache already holds the file's statistics: report them as
    /// complete, dispatch nothing.
    Cached(CodeStat),
    /// Classify the file under these rules on the worker pool.
    Parse(Vec<CommentToken>),
}

/// A task state after which no further transition occurs.
pub open spec fn is_terminal(s: StateV) -> bool {
    s is Complete || s is Error
}

/// How one event moves the outstanding-task counter: a `Ready` opens a
/// task, a terminal event closes one.
pub open spec fn state_delta(s: StateV) -> int {
    if s is Ready {
        1
    } else if is_terminal(s) {
        -1
    } else {
        0
    }
}

/// The transitions a path may take within one run: it enters as
/// `Ready`, may pass through `Parsing`, and ends in exactly one
/// terminal state; a cache hit goes from `Ready` straight to
/// `Complete`.
pub open spec fn transition_ok(prev: Option<StateV>, next: StateV) -> bool {
    match prev {
        None => next is Ready,
        Some(p) => match p {
            StateV::Ready => next is Parsing || is_terminal(next),
            StateV::Parsing => is_terminal(next),
            StateV::Complete(s) => false,
            StateV::Error(m) => false,
        },
    }
}

/// The state a report records for `p`, if any.
pub open spec fn prev_of(report: Map<Seq<char>, StateV>, p: Seq<char>) -> Option<StateV> {
    if report.contains_key(p) {
        Some(report[p])
    } else {
        None
    }
}

/// The view of an event list.
pub open spec fn events_view(events: Seq<(String, ParserState)>) -> Seq<(Seq<char>, StateV)> {
    events.map_values(|e: (String, ParserState)| (e.0@, e.1@))
}

/// A legal event trace from a report and counter value: every event is
/// a legal transition for its path, and the counter neither overflows
/// nor drops below zero.
pub open spec fn trace_ok(
    report: Map<Seq<char>, StateV>,
    outstanding: int,
    events: Seq<(Seq<char>, StateV)>,
) -> bool
    decreases events.len(),
{
    if events.len() == 0 {
        true
    } else {
        let p = events[0].0;
        let s = events[0].1;
        transition_ok(prev_of(report, p), s) && (s is Ready ==> outstanding < u64::MAX)
            && (is_terminal(s) ==> outstanding >= 1) && trace_ok(
            report.insert(p, s),
            outstanding + state_delta(s),
            events.drop_first(),
        )
    }
}

/// The report after consuming an event trace.
pub open spec fn run_report(
    report: Map<Seq<char>, StateV>,
    events: Seq<(Seq<char>, StateV)>,
) -> Map<Seq<char>, StateV>
    decreases events.len(),
{
    if events.len() == 0 {
        report
    } else {
        run_report(report.insert(events[0].0, events[0].1), events.drop_first())
    }
}

/// The outstanding-task counter after consuming an event trace.
pub open spec fn run_outstanding(outstanding: int, events: Seq<(Seq<char>, StateV)>) -> int
    decreases events.len(),
{
    if events.len() == 0 {
        outstanding
    } else {
        run_outstanding(outstanding + state_delta(events[0].1), events.drop_first())
    }
}

/// Number of `Ready` events in a trace.
pub open spec fn count_ready(events: Seq<(Seq<char>, StateV)>) -> int
    decreases events.len(),
{
    if events.len() == 0 {
        0
    } else {
        (if events[0].1 is Ready {
            1int
        } else {
            0int
        }) + count_ready(events.drop_first())
    }
}

/// Number of terminal events in a trace.
pub open spec fn count_terminal(events: Seq<(Seq<char>, StateV)>) -> int
    decreases events.len(),
{
    if events.len() == 0 {
        0
    } else {
        (if is_terminal(events[0].1) {
            1int
        } else {
            0int
        }) + count_terminal(events.drop_first())
    }
}

/// No terminal event is lost and none is duplicated in the counter:
/// over any trace it moves by exactly the number of `Ready` events
/// minus the number of terminal events; in particular, a balanced trace
/// — one `Ready` and one terminal event per dispatched file — returns a
/// counter that started at zero to exactly zero.
pub proof fn lemma_outstanding_counts(outstanding: int, events: Seq<(Seq<char>, StateV)>)
    ensures
        run_outstanding(outstanding, events) == outstanding + count_ready(events)
            - count_terminal(events),
    decreases events.len(),
{
    if events.len() > 0 {
        lemma_outstanding_counts(outstanding + state_delta(events[0].1), events.drop_first());
    }
}

/// The mapping a report entry list stands for: later entries win,
/// though the scheduler keeps paths unique so order never matters.
pub open spec fn report_map(entries: Seq<(String, ParserState)>) -> Map<Seq<char>, StateV>
    decreases entries.len(),
{
    if entries.len() == 0 {
        Map::empty()
    } else {
        report_map(entries.drop_last()).insert(entries.last().0@, entries.last().1@)
    }
}

proof fn lemma_report_found(entries: Seq<(String, ParserState)>, i: int)
    requires
        forall|a: int, b: int| 0 <= a < b < entries.len() ==> entries[a].0@ != entries[b].0@,
        0 <= i < entries.len(),
    ensures
        report_map(entries).contains_key(entries[i].0@),
        report_map(entries)[entries[i].0@] == entries[i].1@,
    decreases entries.len(),
{
    if i < entries.len() - 1 {
        lemma_report_found(entries.drop_last(), i);
        assert(entries.drop_last()[i] == entries[i]);
        assert(entries[i].0@ != entries.last().0@);
    }
}

proof fn lemma_report_absent(entries: Seq<(String, ParserState)>, p: Seq<char>)
    requires
        forall|a: int| 0 <= a < entries.len() ==> entries[a].0@ != p,
    ensures
        !report_map(entries).contains_key(p),
    decreases entries.len(),
{
    if entries.len() > 0 {
        lemma_report_absent(entries.drop_last(), p);
    }
}

proof fn lemma_report_update(entries: Seq<(String, ParserState)>, i: int, e: (String, ParserState))
    requires
        forall|a: int, b: int| 0 <= a < b < entries.len() ==> entries[a].0@ != entries[b].0@,
        0 <= i < entries.len(),
        e.0@ == entries[i].0@,
    ensures
        report_map(entries.update(i, e)) =~= report_map(entries).insert(e.0@, e.1@),
    decreases entries.len(),
{
    let u = entries.update(i, e);
    if i == entries.len() - 1 {
        assert(u.drop_last() =~= entries.drop_last());
        assert(u.last() == e);
    } else {
        assert(u.drop_last() =~= entries.drop_last().update(i, e));
        assert(u.last() == entries.last());
        lemma_report_update(entries.drop_last(), i, e);
        assert(entries.drop_last()[i] == entries[i]);
        assert(e.0@ != entries.last().0@);
    }
}

proof fn lemma_report_insert_at(
    entries: Seq<(String, ParserState)>,
    i: int,
    e: (String, ParserState),
)
    requires
        0 <= i <= entries.len(),
        forall|a: int| 0 <= a < entries.len() ==> entries[a].0@ != e.0@,
    ensures
        report_map(entries.insert(i, e)) =~= report_map(entries).insert(e.0@, e.1@),
    decreases entries.len(),
{
    let u = entries.insert(i, e);
    if i == entries.len() {
        assert(u.drop_last() =~= entries);
        assert(u.last() == e);
    } else {
        assert(u.drop_last() =~= entries.drop_last().insert(i, e));
        assert(u.last() == entries.last());
        assert(forall|a: int|
            0 <= a < entries.drop_last().len() ==> entries.drop_last()[a] == entries[a]);
        lemma_report_insert_at(entries.drop_last(), i, e);
        assert(e.0@ != entries.last().0@);
    }
}

/// Report entries stand in strictly ascending path order: the order in
/// which the report presents its files.
pub open spec fn sorted_by_path(entries: Seq<(Seq<char>, StateV)>) -> bool {
    forall|a: int, b: int|
        0 <= a < b < entries.len() ==> lex_lt(entries[a].0, entries[b].0)
}

proof fn lemma_sorted_distinct(entries: Seq<(String, ParserState)>)
    requires
        sorted_by_path(events_view(entries)),
    ensures
        forall|a: int, b: int| 0 <= a < b < entries.len() ==> entries[a].0@ != entries[b].0@,
{
    assert forall|a: int, b: int|
        0 <= a < b < entries.len() implies entries[a].0@ != entries[b].0@ by {
        assert(events_view(entries)[a].0 == entries[a].0@);
        assert(events_view(entries)[b].0 == entries[b].0@);
        assert(lex_lt(entries[a].0@, entries[b].0@));
        lemma_lex_irrefl(entries[a].0@);
    }
}

/// Per-run scheduling state: the report under construction, the
/// outstanding-task counter, and the rule and cache tables consulted
/// for each file.
pub struct Scheduler {
    pub init_path: String,
    pub parsers: Vec<(String, ParserState)>,
    task_left: u64,
    config: Config,
    cache_manager: CacheManager,
}

impl Scheduler {
    /// The root path of the run.
    pub closed spec fn root(&self) -> Seq<char> {
        self.init_path@
    }

    /// The run report assembled so far.
    pub closed spec fn report(&self) -> Map<Seq<char>, StateV> {
        report_map(self.parsers@)
    }

    /// The outstanding-task counter: tasks opened by `Ready` and not
    /// yet closed by a terminal event.
    pub closed spec fn outstanding(&self) -> int {
        self.task_left as int
    }

    /// The extension-to-rules table consulted for dispatch.
    pub closed spec fn rules_of(&self) -> Map<Seq<char>, Seq<TokenV>> {
        self.config@
    }

    /// The path-to-statistics cache consulted before dispatch.
    pub closed spec fn cached(&self) -> Map<Seq<char>, StatV> {
        self.cache_manager@
    }

    /// The report's entry sequence, path by path.
    pub closed spec fn entries(&self) -> Seq<(Seq<char>, StateV)> {
        events_view(self.parsers@)
    }

    /// Tables are well formed and report entries stand in strictly
    /// ascending path order — so each path occurs at most once.
    pub closed spec fn wf(&self) -> bool {
        &&& self.config.wf()
        &&& self.cache_manager.wf()
        &&& sorted_by_path(events_view(self.parsers@))
    }

    /// A scheduler for a run rooted at `path`, with an empty report.
    pub fn new(path: &str, config: Config, cache_manager: CacheManager) -> (r: Self)
        requires
            config.wf(),
            cache_manager.wf(),
        ensures
            r.wf(),
            r.root() == path@,
            r.report() == Map::<Seq<char>, StateV>::empty(),
            r.entries() == Seq::<(Seq<char>, StateV)>::empty(),
            r.outstanding() == 0,
            r.rules_of() == config@,
            r.cached() == cache_manager@,
    {
        let r = Self {
            init_path: path.to_owned(),
            parsers: Vec::new(),
            task_left: 0,
            config,
            cache_manager,
        };
        proof {
            assert(events_view(r.parsers@) =~= Seq::<(Seq<char>, StateV)>::empty());
        }
        r
    }

    /// The outstanding-task count, as a number.
    pub fn task_left(&self) -> (r: u64)
        ensures
            r as int == self.outstanding(),
    {
        self.task_left
    }

    /// Decide what to do with one observed file: a file whose extension
    /// has no configured rules is skipped outright; otherwise a cache
    /// hit is reported complete with no dispatch, and only on a cache
    /// miss is the file handed to the worker pool, with its extension's
    /// rules.
    pub fn plan_file(&self, path: &str, ext: &str) -> (r: FileAction)
        requires
            self.wf(),
        ensures
            !self.rules_of().contains_key(ext@) ==> r is Skip,
            self.rules_of().contains_key(ext@) && self.cached().contains_key(path@)
                ==> (r matches FileAction::Cached(s) && s@ == self.cached()[path@]),
            self.rules_of().contains_key(ext@) && !self.cached().contains_key(path@)
                ==> (r matches FileAction::Parse(ts) && rules_view(ts@)
                == self.rules_of()[ext@]),
    {
        let tokens = match self.config.get_comment_tokens(ext) {
            Some(ts) => ts,
            None => {
                return FileAction::Skip;
            },
        };
        match self.cache_manager.get_cache(path) {
            Some(stat) => FileAction::Cached(stat),
            None => FileAction::Parse(tokens),
        }
    }

    /// Record one lifecycle event: the report takes the path's new
    /// state, and the counter opens on `Ready` and closes on a terminal
    /// event. Only the legal transitions of a task are accepted.
    pub fn handle_event(&mut self, path: String, state: ParserState)
        requires
            old(self).wf(),
            transition_ok(prev_of(old(self).report(), path@), state@),
            state@ is Ready ==> old(self).outstanding() < u64::MAX,
            is_terminal(state@) ==> old(self).outstanding() >= 1,
        ensures
            final (self).wf(),
            final (self).report() == old(self).report().insert(path@, state@),
            sorted_by_path(final (self).entries()),
            final (self).outstanding() == old(self).outstanding() + state_delta(state@),
            final (self).rules_of() == old(self).rules_of(),
            final (self).cached() == old(self).cached(),
            final (self).root() == old(self).root(),
    {
        match &state {
            ParserState::Ready => {
                self.task_left = self.task_left + 1;
            },
            ParserState::Complete(s) => {
                self.task_left = self.task_left - 1;
            },
            ParserState::Error(m) => {
                self.task_left = self.task_left - 1;
            },
            ParserState::Parsing => {},
        }
        let n = self.parsers.len();
        let mut i: usize = 0;
        while i < n && str_lt(self.parsers[i].0.as_str(), path.as_str())
            invariant
                old(self).wf(),
                i <= n,
                n == self.parsers@.len(),
                self.parsers@ == old(self).parsers@,
                self.task_left as int == old(self).task_left as int + state_delta(state@),
                self.config == old(self).config,
                self.cache_manager == old(self).cache_manager,
                self.init_path == old(self).init_path,
                forall|k: int| 0 <= k < i ==> lex_lt(self.parsers@[k].0@, path@),
            decreases n - i,
        {
            i = i + 1;
        }
        proof {
            lemma_sorted_distinct(self.parsers@);
            assert forall|a: int, b: int|
                0 <= a < b < self.parsers@.len() implies lex_lt(
                self.parsers@[a].0@,
                self.parsers@[b].0@,
            ) by {
                assert(events_view(self.parsers@)[a].0 == self.parsers@[a].0@);
                assert(events_view(self.parsers@)[b].0 == self.parsers@[b].0@);
            }
        }
        if i < n && str_eq(self.parsers[i].0.as_str(), path.as_str()) {
            let ghost pre = self.parsers@;
            proof {
                lemma_report_update(pre, i as int, (path, state));
            }
            self.parsers[i] = (path, state);
            proof {
                assert(self.parsers@ == pre.update(i as int, (path, state)));
                assert forall|a: int, b: int|
                    0 <= a < b < self.parsers@.len() implies lex_lt(
                    events_view(self.parsers@)[a].0,
                    events_view(self.parsers@)[b].0,
                ) by {
                    assert(pre[i as int].0@ == path@);
                    assert(a != i ==> self.parsers@[a] == pre[a]);
                    assert(b != i ==> self.parsers@[b] == pre[b]);
                    assert(events_view(self.parsers@)[a].0 == self.parsers@[a].0@);
                    assert(events_view(self.parsers@)[b].0 == self.parsers@[b].0@);
                    assert(lex_lt(pre[a].0@, pre[b].0@));
                }
            }
        } else {
            let ghost pre = self.parsers@;
            proof {
                assert forall|k: int| i <= k < pre.len() implies lex_lt(path@, pre[k].0@) by {
                    assert(pre[i as int].0@ != path@);
                    lemma_lex_total(path@, pre[i as int].0@);
                    if k > i {
                        assert(lex_lt(pre[i as int].0@, pre[k].0@));
                        lemma_lex_trans(path@, pre[i as int].0@, pre[k].0@);
                    }
                }
                assert forall|k: int| 0 <= k < pre.len() implies pre[k].0@ != path@ by {
                    lemma_lex_irrefl(pre[k].0@);
                }
                lemma_report_insert_at(pre, i as int, (path, state));
            }
            self.parsers.insert(i, (path, state));
            proof {
                assert(self.parsers@ == pre.insert(i as int, (path, state)));
                assert forall|a: int, b: int|
                    0 <= a < b < self.parsers@.len() implies lex_lt(
                    events_view(self.parsers@)[a].0,
                    events_view(self.parsers@)[b].0,
                ) by {
                    assert(a < i ==> self.parsers@[a] == pre[a]);
                    assert(a > i ==> self.parsers@[a] == pre[a - 1]);
                    assert(b < i ==> self.parsers@[b] == pre[b]);
                    assert(b > i ==> self.parsers@[b] == pre[b - 1]);
                    assert(a == i ==> self.parsers@[a].0@ == path@);
                    assert(b == i ==> self.parsers@[b].0@ == path@);
                    assert(events_view(self.parsers@)[a].0 == self.parsers@[a].0@);
                    assert(events_view(self.parsers@)[b].0 == self.parsers@[b].0@);
                    if a < i && b > i {
                        lemma_lex_trans(pre[a].0@, path@, pre[b - 1].0@);
                    }
                }
            }
        }
    }

    /// Consume a whole event trace, in order, and return the scheduler
    /// with the final report and counter. The collection loop of a run
    /// is exactly this fold; the channel merely delivers the events.
    pub fn start(self, events: Vec<(String, ParserState)>) -> (r: Self)
        requires
            self.wf(),
            trace_ok(self.report(), self.outstanding(), events_view(events@)),
        ensures
            r.wf(),
            r.report() == run_report(self.report(), events_view(events@)),
            r.outstanding() == run_outstanding(self.outstanding(), events_view(events@)),
            r.rules_of() == self.rules_of(),
            r.cached() == self.cached(),
            r.root() == self.root(),
            sorted_by_path(r.entries()),
    {
        let ghost r0 = self.report();
        let ghost o0 = self.outstanding();
        let ghost rules0 = self.rules_of();
        let ghost cache0 = self.cached();
        let ghost root0 = self.root();
        let ghost orig = events_view(events@);
        let mut this = self;
        let mut events = events;
        while events.len() > 0
            invariant
                this.wf(),
                run_report(this.report(), events_view(events@)) == run_report(r0, orig),
                run_outstanding(this.outstanding(), events_view(events@)) == run_outstanding(
                    o0,
                    orig,
                ),
                trace_ok(this.report(), this.outstanding(), events_view(events@)),
                this.rules_of() == rules0,
                this.cached() == cache0,
                this.root() == root0,
            decreases events@.len(),
        {
            let ghost pre = events@;
            let e = events.remove(0);
            proof {
                assert(e == pre[0]);
                assert(events@ =~= pre.drop_first());
                assert(events_view(pre)[0] == (e.0@, e.1@));
                assert(events_view(events@) =~= events_view(pre).drop_first());
            }
            this.handle_event(e.0, e.1);
        }
        proof {
            assert(events_view(events@) =~= Seq::<(Seq<char>, StateV)>::empty());
        }
        this
    }
}

} // verus!
