//! The per-file line classifier: comment token rules, line statistics,
//! and the two-state machine that classifies each line of a file as
//! code, blank or comment.

use vstd::prelude::*;

use crate::text::{
    find_newline, is_prefix_of, is_suffix_of, spec_lines, str_ends_with, str_starts_with, trim,
    trim_spec,
};

verus! {

/// One comment rule of a language: a line-comment prefix, or a pair of
/// block-comment delimiters.
#[derive(Debug, PartialEq, Eq)]
pub enum CommentToken {
    Line(String),
    Block(String, String),
}

/// Mathematical model of a `CommentToken`: the same shape over character
/// sequences.
#[verifier::ext_equal]
pub enum TokenV {
    Line { prefix: Seq<char> },
    Block { open: Seq<char>, close: Seq<char> },
}

impl View for CommentToken {
    type V = TokenV;

    open spec fn view(&self) -> TokenV {
        match self {
            CommentToken::Line(s) => TokenV::Line { prefix: s@ },
            CommentToken::Block(o, c) => TokenV::Block { open: o@, close: c@ },
        }
    }
}

impl Clone for CommentToken {
    fn clone(&self) -> (r: Self)
        ensures
            r@ == self@,
    {
        match self {
            CommentToken::Line(s) => CommentToken::Line(s.clone()),
            CommentToken::Block(o, c) => CommentToken::Block(o.clone(), c.clone()),
        }
    }
}

impl CommentToken {
    /// The line-comment prefix, if this is a line rule.
    pub fn as_line_token(&self) -> (r: Option<&str>)
        ensures
            match r {
                Some(t) => self@ == (TokenV::Line { prefix: t@ }),
                None => self@ is Block,
            },
    {
        match *self {
            CommentToken::Line(ref s) => Some(&**s),
            _ => None,
        }
    }

    /// The open and close delimiters, if this is a block rule.
    pub fn as_block_tokens(&self) -> (r: Option<(&str, &str)>)
        ensures
            match r {
                Some(t) => self@ == (TokenV::Block { open: t.0@, close: t.1@ }),
                None => self@ is Line,
            },
    {
        match *self {
            CommentToken::Block(ref s, ref t) => Some((&**s, &**t)),
            _ => None,
        }
    }

    pub fn is_line(&self) -> (r: bool)
        ensures
            r == (self@ is Line),
    {
        self.as_line_token().is_some()
    }

    pub fn is_block(&self) -> (r: bool)
        ensures
            r == (self@ is Block),
    {
        self.as_block_tokens().is_some()
    }
}

/// Final line statistics of one file.
#[derive(Debug)]
pub struct CodeStat {
    pub code: u64,
    pub blank: u64,
    pub comment: u64,
    pub path: String,
}

/// Mathematical model of a `CodeStat`.
#[verifier::ext_equal]
pub struct StatV {
    pub code: int,
    pub blank: int,
    pub comment: int,
    pub path: Seq<char>,
}

impl View for CodeStat {
    type V = StatV;

    open spec fn view(&self) -> StatV {
        StatV {
            code: self.code as int,
            blank: self.blank as int,
            comment: self.comment as int,
            path: self.path@,
        }
    }
}

impl Clone for CodeStat {
    fn clone(&self) -> (r: Self)
        ensures
            r@ == self@,
    {
        CodeStat {
            code: self.code,
            blank: self.blank,
            comment: self.comment,
            path: self.path.clone(),
        }
    }
}

impl CodeStat {
    /// A fresh statistic for `path`, with all counters at zero.
    pub fn new(path: String) -> (r: Self)
        ensures
            r@ == (StatV { code: 0, blank: 0, comment: 0, path: path@ }),
    {
        Self { code: 0u64, blank: 0u64, comment: 0u64, path }
    }
}

/// The classifier's two modes: outside any block comment, or inside the
/// block opened by `token`.
#[verifier::ext_equal]
pub enum ModeV {
    Normal,
    InBlock { token: TokenV },
}

/// How one line is counted.
pub enum LineClass {
    Code,
    Blank,
    Comment,
}

/// Mathematical model of a classifier context: the running statistics,
/// the rule list and the current mode.
#[verifier::ext_equal]
pub struct CtxV {
    pub stat: StatV,
    pub rules: Seq<TokenV>,
    pub mode: ModeV,
}

/// The rule list of a token vector, as token models.
pub open spec fn rules_view(ts: Seq<CommentToken>) -> Seq<TokenV> {
    ts.map_values(|t: CommentToken| t@)
}

/// `code + blank + comment` of a statistic.
pub open spec fn stat_total(s: StatV) -> int {
    s.code + s.blank + s.comment
}

/// Whether `t` opens a comment on `line`: a line rule whose prefix starts
/// the line, or a block rule whose open delimiter starts the line.
pub open spec fn token_matches_open(t: TokenV, line: Seq<char>) -> bool {
    match t {
        TokenV::Line { prefix } => is_prefix_of(prefix, line),
        TokenV::Block { open, close } => is_prefix_of(open, line),
    }
}

/// The first rule in list order that opens a comment on `line`, if any.
/// List order is the tie-break between rules.
pub open spec fn scan_rules(rules: Seq<TokenV>, line: Seq<char>) -> Option<TokenV>
    decreases rules.len(),
{
    if rules.len() == 0 {
        None
    } else if token_matches_open(rules[0], line) {
        Some(rules[0])
    } else {
        scan_rules(rules.drop_first(), line)
    }
}

/// How a (pre-trimmed) line is counted in mode `mode` under `rules`:
/// inside a block everything is comment; otherwise an empty line is
/// blank, a line opened by some rule is comment, and the rest is code.
pub open spec fn classify_line(mode: ModeV, rules: Seq<TokenV>, line: Seq<char>) -> LineClass {
    match mode {
        ModeV::InBlock { token } => LineClass::Comment,
        ModeV::Normal => if line.len() == 0 {
            LineClass::Blank
        } else {
            match scan_rules(rules, line) {
                Some(t) => LineClass::Comment,
                None => LineClass::Code,
            }
        },
    }
}

/// The mode after a (pre-trimmed) line. A block opens when the line
/// starts with a block rule's open delimiter — the opening line itself
/// never closes it — and is left only when a later line ends with the
/// close delimiter of the rule that opened it; a close token of any
/// other rule does not end the block, and blocks do not nest.
pub open spec fn next_mode(mode: ModeV, rules: Seq<TokenV>, line: Seq<char>) -> ModeV {
    match mode {
        ModeV::InBlock { token } => match token {
            TokenV::Block { open, close } => if is_suffix_of(close, line) {
                ModeV::Normal
            } else {
                mode
            },
            TokenV::Line { prefix } => mode,
        },
        ModeV::Normal => if line.len() == 0 {
            ModeV::Normal
        } else {
            match scan_rules(rules, line) {
                Some(t) => match t {
                    TokenV::Block { open, close } => ModeV::InBlock { token: t },
                    TokenV::Line { prefix } => ModeV::Normal,
                },
                None => ModeV::Normal,
            }
        },
    }
}

/// `stat` with the counter of `c` increased by one.
pub open spec fn bump(stat: StatV, c: LineClass) -> StatV {
    match c {
        LineClass::Code => StatV { code: stat.code + 1, ..stat },
        LineClass::Blank => StatV { blank: stat.blank + 1, ..stat },
        LineClass::Comment => StatV { comment: stat.comment + 1, ..stat },
    }
}

/// One step of the classifier on a (pre-trimmed) line.
pub open spec fn step(ctx: CtxV, line: Seq<char>) -> CtxV {
    CtxV {
        stat: bump(ctx.stat, classify_line(ctx.mode, ctx.rules, line)),
        rules: ctx.rules,
        mode: next_mode(ctx.mode, ctx.rules, line),
    }
}

/// The classifier run over a sequence of raw lines: each line is trimmed,
/// then classified by one step.
pub open spec fn spec_run(ctx: CtxV, lines: Seq<Seq<char>>) -> CtxV
    decreases lines.len(),
{
    if lines.len() == 0 {
        ctx
    } else {
        spec_run(step(ctx, trim_spec(lines[0])), lines.drop_first())
    }
}

/// A step counts exactly one line.
pub proof fn lemma_step_total(ctx: CtxV, line: Seq<char>)
    ensures
        stat_total(step(ctx, line).stat) == stat_total(ctx.stat) + 1,
{
}

/// Exact accounting: a run grows `code + blank + comment` by exactly the
/// number of lines — no line is dropped and none is counted twice.
pub proof fn lemma_run_total(ctx: CtxV, lines: Seq<Seq<char>>)
    ensures
        stat_total(spec_run(ctx, lines).stat) == stat_total(ctx.stat) + lines.len(),
    decreases lines.len(),
{
    if lines.len() > 0 {
        lemma_step_total(ctx, trim_spec(lines[0]));
        lemma_run_total(step(ctx, trim_spec(lines[0])), lines.drop_first());
    }
}

/// A line that trims to empty is counted blank whatever the rules and
/// however the rule lists are ordered — except inside a block comment,
/// where every line, blank or not, is comment.
pub proof fn lemma_blank_line(mode: ModeV, rules: Seq<TokenV>, line: Seq<char>)
    requires
        trim_spec(line).len() == 0,
    ensures
        classify_line(mode, rules, trim_spec(line)) == (match mode {
            ModeV::Normal => LineClass::Blank,
            ModeV::InBlock { token } => LineClass::Comment,
        }),
{
}

/// Rule order decides: if the rules before index `i` do not open a
/// comment on `line` and the rule at `i` does, then the rule at `i` is
/// the one scanning selects — whether it is a line or a block rule.
pub proof fn lemma_scan_at(rules: Seq<TokenV>, line: Seq<char>, i: int)
    requires
        0 <= i < rules.len(),
        token_matches_open(rules[i], line),
        forall|k: int| 0 <= k < i ==> !token_matches_open(rules[k], line),
    ensures
        scan_rules(rules, line) == Some(rules[i]),
    decreases i,
{
    if i > 0 {
        let t = rules.drop_first();
        assert(forall|k: int| 0 <= k < i - 1 ==> t[k] == rules[k + 1] && !token_matches_open(
            t[k],
            line,
        ));
        lemma_scan_at(t, line, i - 1);
    }
}

/// If no rule opens a comment on `line`, scanning selects none.
pub proof fn lemma_scan_none(rules: Seq<TokenV>, line: Seq<char>)
    requires
        forall|k: int| 0 <= k < rules.len() ==> !token_matches_open(rules[k], line),
    ensures
        scan_rules(rules, line) is None,
    decreases rules.len(),
{
    if rules.len() > 0 {
        let t = rules.drop_first();
        assert(forall|k: int| 0 <= k < t.len() ==> t[k] == rules[k + 1] && !token_matches_open(
            t[k],
            line,
        ));
        lemma_scan_none(t, line);
    }
}

/// Rule order determines the outcome: on a nonempty line whose first
/// matching rule stands at index `i`, the line is a comment, and the mode
/// afterwards is the one that rule dictates — a block rule at `i` opens
/// its block even if a line rule further down the list also matches, and
/// a line rule at `i` opens no block even if a block rule follows.
pub proof fn lemma_rule_order(rules: Seq<TokenV>, line: Seq<char>, i: int)
    requires
        line.len() > 0,
        0 <= i < rules.len(),
        token_matches_open(rules[i], line),
        forall|k: int| 0 <= k < i ==> !token_matches_open(rules[k], line),
    ensures
        classify_line(ModeV::Normal, rules, line) == LineClass::Comment,
        next_mode(ModeV::Normal, rules, line) == (match rules[i] {
            TokenV::Block { open, close } => ModeV::InBlock { token: rules[i] },
            TokenV::Line { prefix } => ModeV::Normal,
        }),
{
    lemma_scan_at(rules, line, i);
}

/// The tie-break, stated for one line rule and one block rule that
/// both match a nonempty line, with no earlier match: the line is a
/// comment either way, and whichever rule stands earlier in the list
/// decides the mode — the line rule first leaves the mode normal even
/// though the block rule also matches, and the block rule first opens
/// its block even though the line rule also matches.
pub proof fn lemma_line_block_tiebreak(rules: Seq<TokenV>, line: Seq<char>, i: int, j: int)
    requires
        line.len() > 0,
        0 <= i < rules.len(),
        0 <= j < rules.len(),
        i != j,
        rules[i] is Line,
        token_matches_open(rules[i], line),
        rules[j] is Block,
        token_matches_open(rules[j], line),
        forall|k: int| 0 <= k < i && 0 <= k < j ==> !token_matches_open(rules[k], line),
    ensures
        classify_line(ModeV::Normal, rules, line) == LineClass::Comment,
        i < j ==> next_mode(ModeV::Normal, rules, line) == ModeV::Normal,
        j < i ==> next_mode(ModeV::Normal, rules, line) == (ModeV::InBlock { token: rules[j] }),
{
    if i < j {
        lemma_scan_at(rules, line, i);
    } else {
        lemma_scan_at(rules, line, j);
    }
}

/// Cross-syntax non-interference: a block opened by one rule is not
/// closed by another rule's close token. Even when `other`'s close token
/// ends the line, the block stays open unless the line ends with the
/// opener's own close token, and the line still counts as comment.
pub proof fn lemma_cross_close(
    open: Seq<char>,
    close: Seq<char>,
    other: TokenV,
    rules: Seq<TokenV>,
    line: Seq<char>,
)
    requires
        !is_suffix_of(close, line),
        other is Block,
        is_suffix_of(other->close, line),
    ensures
        next_mode(ModeV::InBlock { token: TokenV::Block { open, close } }, rules, line)
            == (ModeV::InBlock { token: TokenV::Block { open, close } }),
        classify_line(ModeV::InBlock { token: TokenV::Block { open, close } }, rules, line)
            == LineClass::Comment,
{
}

/// Inside a block every line counts as comment, whatever it holds; in
/// particular an unterminated block turns every remaining line into
/// comment without failing.
pub proof fn lemma_in_block_is_comment(token: TokenV, rules: Seq<TokenV>, line: Seq<char>)
    ensures
        classify_line(ModeV::InBlock { token }, rules, line) == LineClass::Comment,
{
}

/// The classifier is a pure function of its starting context and the
/// text: two runs from equal contexts over the same content produce
/// equal statistics.
pub proof fn lemma_classifier_idempotent(ctx1: CtxV, ctx2: CtxV, content: Seq<char>)
    requires
        ctx1 == ctx2,
    ensures
        spec_run(ctx1, spec_lines(content)) == spec_run(ctx2, spec_lines(content)),
{
}

/// The classifier's internal mode.
enum ParserInternalState {
    Normal,
    InBlockComment,
}

/// Lifecycle of one file's classification task.
#[derive(Debug)]
pub enum ParserState {
    Ready,
    Parsing,
    Complete(CodeStat),
    Error(String),
}

/// Mathematical model of a `ParserState`.
#[verifier::ext_equal]
pub enum StateV {
    Ready,
    Parsing,
    Complete(StatV),
    Error(Seq<char>),
}

impl View for ParserState {
    type V = StateV;

    open spec fn view(&self) -> StateV {
        match self {
            ParserState::Ready => StateV::Ready,
            ParserState::Parsing => StateV::Parsing,
            ParserState::Complete(s) => StateV::Complete(s@),
            ParserState::Error(m) => StateV::Error(m@),
        }
    }
}

/// Per-file mutable classifier state: the running statistics, the rule
/// list for the file's extension, the mode, and the rule that opened the
/// active block, if any.
pub struct ParserContext {
    stat: CodeStat,
    comment_tokens: Vec<CommentToken>,
    state: ParserInternalState,
    block_token: Option<CommentToken>,
}

impl View for ParserContext {
    type V = CtxV;

    closed spec fn view(&self) -> CtxV {
        CtxV {
            stat: self.stat@,
            rules: rules_view(self.comment_tokens@),
            mode: match self.state {
                ParserInternalState::Normal => ModeV::Normal,
                ParserInternalState::InBlockComment => ModeV::InBlock {
                    token: match self.block_token {
                        Some(t) => t@,
                        None => TokenV::Line { prefix: Seq::empty() },
                    },
                },
            },
        }
    }
}

impl ParserContext {
    /// Inside a block, the opening rule is recorded and is a block rule.
    pub closed spec fn wf(&self) -> bool {
        self.state is InBlockComment ==> (self.block_token matches Some(t) && t@ is Block)
    }

    /// A fresh context for `path` under `comment_tokens`: zero counters,
    /// normal mode.
    pub fn new(path: &str, comment_tokens: Vec<CommentToken>) -> (r: Self)
        ensures
            r@ == (CtxV {
                stat: StatV { code: 0, blank: 0, comment: 0, path: path@ },
                rules: rules_view(comment_tokens@),
                mode: ModeV::Normal,
            }),
            r.wf(),
    {
        Self {
            stat: CodeStat::new(path.to_owned()),
            comment_tokens,
            state: ParserInternalState::Normal,
            block_token: None,
        }
    }
}

/// A per-file classifier: consumes a file's text and produces its line
/// statistics.
pub trait Parser: Sized {
    /// The context this classifier is in.
    spec fn model(&self) -> CtxV;

    /// The classifier's internal invariant.
    spec fn inv(&self) -> bool;

    /// Classify the whole text: split it into lines, trim each line, and
    /// run the state machine over them. Counts every line exactly once.
    fn parse(self, content: &str) -> (r: CodeStat)
        requires
            self.inv(),
            stat_total(self.model().stat) == 0,
        ensures
            r@ == spec_run(self.model(), spec_lines(content@)).stat,
            r@.code + r@.blank + r@.comment == spec_lines(content@).len(),
    ;

    /// Classify one already-trimmed line: one step of the state machine.
    fn parse_line(&mut self, line: &str)
        requires
            old(self).inv(),
            stat_total(old(self).model().stat) < u64::MAX,
        ensures
            final(self).inv(),
            final(self).model() == step(old(self).model(), line@),
    ;
}

/// The classifier for any language described by an ordered comment-rule
/// list.
pub struct CommonParser {
    context: ParserContext,
}

impl CommonParser {
    /// A parser for the file at `path` under the rules `comment_tokens`.
    pub fn new(path: &str, comment_tokens: Vec<CommentToken>) -> (r: Self)
        ensures
            r.model() == (CtxV {
                stat: StatV { code: 0, blank: 0, comment: 0, path: path@ },
                rules: rules_view(comment_tokens@),
                mode: ModeV::Normal,
            }),
            r.inv(),
    {
        Self { context: ParserContext::new(path, comment_tokens) }
    }

    /// The statistics accumulated so far, surrendering the parser.
    pub fn into_stat(self) -> (r: CodeStat)
        ensures
            r@ == self.model().stat,
    {
        self.context.stat
    }

    fn parse_line_normal(&mut self, line: &str)
        requires
            old(self).context.wf(),
            old(self).context@.mode is Normal,
            stat_total(old(self).context@.stat) < u64::MAX,
        ensures
            final(self).context.wf(),
            final(self).context@ == step(old(self).context@, line@),
    {
        if line.is_empty() {
            self.context.stat.blank = self.context.stat.blank + 1;
            assert(self.context@ =~= step(old(self).context@, line@));
            return;
        }
        let n_tokens = self.context.comment_tokens.len();
        let mut i: usize = 0;
        #[verifier::loop_isolation(false)]
        while i < n_tokens
            invariant
                *self == *old(self),
                i <= n_tokens,
                forall|k: int|
                    0 <= k < i ==> !token_matches_open(old(self).context@.rules[k], line@),
            decreases n_tokens - i,
        {
            let tok = &self.context.comment_tokens[i];
            let opened: bool = match tok {
                CommentToken::Line(t) => str_starts_with(line, t.as_str()),
                CommentToken::Block(s, _e) => str_starts_with(line, s.as_str()),
            };
            assert(opened == token_matches_open(self.context@.rules[i as int], line@));
            if opened {
                let is_block = tok.is_block();
                if is_block {
                    let tok2 = tok.clone();
                    self.context.stat.comment = self.context.stat.comment + 1;
                    self.context.state = ParserInternalState::InBlockComment;
                    self.context.block_token = Some(tok2);
                } else {
                    self.context.stat.comment = self.context.stat.comment + 1;
                }
                proof {
                    lemma_scan_at(old(self).context@.rules, line@, i as int);
                }
                assert(self.context@ =~= step(old(self).context@, line@));
                return;
            }
            i = i + 1;
        }
        self.context.stat.code = self.context.stat.code + 1;
        proof {
            lemma_scan_none(old(self).context@.rules, line@);
        }
        assert(self.context@ =~= step(old(self).context@, line@));
    }

    fn parse_line_in_block_comment(&mut self, line: &str)
        requires
            old(self).context.wf(),
            old(self).context@.mode is InBlock,
            stat_total(old(self).context@.stat) < u64::MAX,
        ensures
            final(self).context.wf(),
            final(self).context@ == step(old(self).context@, line@),
    {
        let exit: bool = match &self.context.block_token {
            Some(CommentToken::Block(_s, e)) => str_ends_with(line, e.as_str()),
            _ => false,
        };
        if exit {
            self.context.state = ParserInternalState::Normal;
        }
        self.context.stat.comment = self.context.stat.comment + 1;
        assert(self.context@ =~= step(old(self).context@, line@));
    }
}

impl Parser for CommonParser {
    closed spec fn model(&self) -> CtxV {
        self.context@
    }

    closed spec fn inv(&self) -> bool {
        self.context.wf()
    }

    fn parse(self, content: &str) -> (r: CodeStat) {
        let mut this = self;
        let ghost m0 = this.context@;
        let ghost all = spec_lines(content@);
        let n = content.unicode_len();
        proof {
            crate::text::lemma_lines_count(content@);
            assert(content@.skip(0) =~= content@);
        }
        let mut pos: usize = 0;
        while pos < n
            invariant
                this.context.wf(),
                pos <= n,
                n == content@.len(),
                all == spec_lines(content@),
                all.len() <= n,
                spec_run(this.context@, spec_lines(content@.skip(pos as int))) == spec_run(
                    m0,
                    all,
                ),
                stat_total(this.context@.stat) + spec_lines(content@.skip(pos as int)).len()
                    == all.len(),
            decreases n - pos,
        {
            let ghost rest = content@.skip(pos as int);
            let ghost mpre = this.context@;
            let k = find_newline(content, pos);
            let line = content.substring_char(pos, k);
            let t = trim(line);
            proof {
                assert forall|m: int| 0 <= m < k as int - pos as int implies rest[m] != '\n' by {
                    assert(rest[m] == content@[m + pos as int]);
                }
                if k < n {
                    assert(rest[k as int - pos as int] == content@[k as int]);
                }
                crate::text::lemma_first_nl_at(rest, k as int - pos as int);
                crate::text::lemma_lines_nonempty(rest);
                assert(usize::MAX <= u64::MAX);
                assert(stat_total(mpre.stat) < u64::MAX);
            }
            this.parse_line(t);
            proof {
                lemma_step_total(mpre, t@);
                let lns = spec_lines(rest);
                assert(line@ == content@.subrange(pos as int, k as int));
                if k < n {
                    assert(rest.subrange(0, k as int - pos as int) =~= content@.subrange(
                        pos as int,
                        k as int,
                    ));
                    assert(rest.skip(k as int - pos as int + 1) =~= content@.skip(k as int + 1));
                    assert(lns == seq![line@] + spec_lines(content@.skip(k as int + 1)));
                    assert(lns[0] == line@);
                    assert(lns.drop_first() =~= spec_lines(content@.skip(k as int + 1)));
                } else {
                    assert(rest =~= content@.subrange(pos as int, k as int));
                    assert(lns == seq![line@]);
                    assert(lns[0] == line@);
                    assert(lns.drop_first() =~= Seq::<Seq<char>>::empty());
                    assert(content@.skip(k as int) =~= Seq::<char>::empty());
                    assert(spec_lines(content@.skip(k as int)) == Seq::<Seq<char>>::empty());
                }
                assert(spec_run(mpre, lns) == spec_run(
                    step(mpre, trim_spec(lns[0])),
                    lns.drop_first(),
                ));
            }
            pos = if k < n {
                k + 1
            } else {
                k
            };
        }
        proof {
            assert(content@.skip(n as int) =~= Seq::<char>::empty());
            assert(spec_lines(content@.skip(n as int)) == Seq::<Seq<char>>::empty());
        }
        this.context.stat
    }

    fn parse_line(&mut self, line: &str) {
        match self.context.state {
            ParserInternalState::Normal => self.parse_line_normal(line),
            ParserInternalState::InBlockComment => self.parse_line_in_block_comment(line),
        }
    }
}

} // verus!

