//! Token-rule configuration: the mapping from a file extension to its
//! ordered comment-rule list, loaded from TOML text of the shape
//! `[ext] line = [...] block = [[open, close], ...]`.
//!
//! The TOML crate parses the text. What a parse yields is a function
//! of the text alone, so its two projections — the table's extension
//! keys, and one extension's rule arrays — carry uninterpreted names;
//! two trusted wrappers hand them out as plain values, and everything
//! from there on — checking, assembly, lookup, merging — is verified
//! against those names.

use vstd::prelude::*;

use crate::parser::{rules_view, CommentToken, TokenV};
use crate::text::str_eq;

verus! {

/// The extension keys of the top-level TOML table of `text`, in table
/// order, or `None` when `text` is not TOML or its root is not a
/// table. What this names is a function of the text alone.
pub uninterp spec fn toml_doc_keys(text: Seq<char>) -> Option<Seq<Seq<char>>>;

/// The payload of the table stored under `ext` in `text`: the `line`
/// array's strings and the `block` array's `[open, close]` pairs, each
/// in array order — or `None` when that entry is missing, is not a
/// table, lacks either array, or holds a malformed element. What this
/// names is a function of the text and the extension alone.
pub uninterp spec fn toml_rule_lists(text: Seq<char>, ext: Seq<char>) -> Option<
    (Seq<Seq<char>>, Seq<(Seq<char>, Seq<char>)>),
>;

/// The character sequences of a string list.
pub open spec fn strings_view(ss: Seq<String>) -> Seq<Seq<char>> {
    ss.map_values(|s: String| s@)
}

/// The character sequences of a string-pair list.
pub open spec fn pairs_view(ps: Seq<(String, String)>) -> Seq<(Seq<char>, Seq<char>)> {
    ps.map_values(|p: (String, String)| (p.0@, p.1@))
}

/// Relies on toml::from_str and toml::Value::as_table: hands out the
/// top-level table's keys. A TOML table keeps its keys pairwise
/// distinct. Returns `Some` exactly when `toml_doc_keys` is `Some`,
/// and then exactly the keys it names.
#[verifier::external_body]
fn doc_keys(text: &str) -> (r: Option<Vec<String>>)
    ensures
        match r {
            Some(ks) => toml_doc_keys(text@) == Some(strings_view(ks@)) && forall|a: int, b: int|
                0 <= a < b < ks@.len() ==> ks@[a]@ != ks@[b]@,
            None => toml_doc_keys(text@) is None,
        },
{
    let v: toml::Value = toml::from_str(text).ok()?;
    let t = v.as_table()?;
    Some(t.keys().cloned().collect())
}

/// Relies on toml::from_str and the toml::Value accessors: for the
/// table under `ext`, hands out the `line` array's strings and the
/// `block` array's delimiter pairs. Returns `Some` exactly when
/// `toml_rule_lists` is `Some`, and then exactly the lists it names.
#[verifier::external_body]
fn rule_lists(text: &str, ext: &str) -> (r: Option<(Vec<String>, Vec<(String, String)>)>)
    ensures
        match r {
            Some(ls) => toml_rule_lists(text@, ext@) == Some(
                (strings_view(ls.0@), pairs_view(ls.1@)),
            ),
            None => toml_rule_lists(text@, ext@) is None,
        },
{
    let v: toml::Value = toml::from_str(text).ok()?;
    let t = v.as_table()?.get(ext)?.as_table()?;
    let line = t.get("line")?.as_array()?.iter().map(
        |x| x.as_str().map(String::from),
    ).collect::<Option<Vec<String>>>()?;
    let block = t.get("block")?.as_array()?.iter().map(
        |p| {
            let a = p.as_array()?;
            Some((a.first()?.as_str()?.to_string(), a.get(1)?.as_str()?.to_string()))
        },
    ).collect::<Option<Vec<(String, String)>>>()?;
    Some((line, block))
}

/// The rule list built from line prefixes and block delimiter pairs:
/// every line rule first, then every block rule, each kept in its
/// configured order — the order is the matching tie-break.
pub fn tokens_from_lists(lines: &Vec<String>, blocks: &Vec<(String, String)>) -> (r: Vec<
    CommentToken,
>)
    ensures
        r@.len() == lines@.len() + blocks@.len(),
        forall|i: int|
            0 <= i < lines@.len() ==> r@[i]@ == (TokenV::Line { prefix: lines@[i]@ }),
        forall|j: int|
            0 <= j < blocks@.len() ==> r@[lines@.len() + j]@ == (TokenV::Block {
                open: blocks@[j].0@,
                close: blocks@[j].1@,
            }),
{
    let mut out: Vec<CommentToken> = Vec::new();
    let nl = lines.len();
    let mut i: usize = 0;
    while i < nl
        invariant
            i <= nl,
            nl == lines@.len(),
            out@.len() == i,
            forall|k: int| 0 <= k < i ==> out@[k]@ == (TokenV::Line { prefix: lines@[k]@ }),
        decreases nl - i,
    {
        out.push(CommentToken::Line(lines[i].clone()));
        i = i + 1;
    }
    let nb = blocks.len();
    let mut j: usize = 0;
    while j < nb
        invariant
            j <= nb,
            nb == blocks@.len(),
            nl == lines@.len(),
            out@.len() == nl + j,
            forall|k: int| 0 <= k < nl ==> out@[k]@ == (TokenV::Line { prefix: lines@[k]@ }),
            forall|k: int|
                0 <= k < j ==> out@[nl + k]@ == (TokenV::Block {
                    open: blocks@[k].0@,
                    close: blocks@[k].1@,
                }),
        decreases nb - j,
    {
        out.push(CommentToken::Block(blocks[j].0.clone(), blocks[j].1.clone()));
        j = j + 1;
    }
    out
}

/// The rule-list views of one extension's named arrays: every line
/// rule first, then every block rule, each in array order.
pub open spec fn token_views_of(
    lines: Seq<Seq<char>>,
    blocks: Seq<(Seq<char>, Seq<char>)>,
) -> Seq<TokenV> {
    lines.map_values(|p: Seq<char>| TokenV::Line { prefix: p }) + blocks.map_values(
        |b: (Seq<char>, Seq<char>)| TokenV::Block { open: b.0, close: b.1 },
    )
}

/// The rule-list views parsed for `ext` from `text`, when its entry is
/// well formed.
pub open spec fn spec_rules_of(text: Seq<char>, ext: Seq<char>) -> Option<Seq<TokenV>> {
    match toml_rule_lists(text, ext) {
        Some(ls) => Some(token_views_of(ls.0, ls.1)),
        None => None,
    }
}

/// Whether `text` parses as a complete token map: a TOML table whose
/// every entry is a well-formed rule table.
pub open spec fn token_map_ok(text: Seq<char>) -> bool {
    match toml_doc_keys(text) {
        Some(ks) => forall|i: int| 0 <= i < ks.len() ==> spec_rules_of(text, ks[i]) is Some,
        None => false,
    }
}

/// The mapping described by the entries of `text` under the keys `ks`.
pub open spec fn map_from_keys(text: Seq<char>, ks: Seq<Seq<char>>) -> Map<
    Seq<char>,
    Seq<TokenV>,
>
    decreases ks.len(),
{
    if ks.len() == 0 {
        Map::empty()
    } else {
        map_from_keys(text, ks.drop_last()).insert(
            ks.last(),
            match spec_rules_of(text, ks.last()) {
                Some(ts) => ts,
                None => Seq::empty(),
            },
        )
    }
}

/// The token map `text` describes — meaningful when
/// `token_map_ok(text)` holds.
pub open spec fn spec_token_map(text: Seq<char>) -> Map<Seq<char>, Seq<TokenV>> {
    match toml_doc_keys(text) {
        Some(ks) => map_from_keys(text, ks),
        None => Map::empty(),
    }
}

/// The mapping an extension-to-rules entry list stands for: later
/// entries win, though a configuration keeps extensions unique so order
/// never matters.
pub open spec fn map_of_entries(entries: Seq<(String, Vec<CommentToken>)>) -> Map<
    Seq<char>,
    Seq<TokenV>,
>
    decreases entries.len(),
{
    if entries.len() == 0 {
        Map::empty()
    } else {
        map_of_entries(entries.drop_last()).insert(
            entries.last().0@,
            rules_view(entries.last().1@),
        )
    }
}

proof fn lemma_entries_found(entries: Seq<(String, Vec<CommentToken>)>, i: int)
    requires
        forall|a: int, b: int| 0 <= a < b < entries.len() ==> entries[a].0@ != entries[b].0@,
        0 <= i < entries.len(),
    ensures
        map_of_entries(entries).contains_key(entries[i].0@),
        map_of_entries(entries)[entries[i].0@] == rules_view(entries[i].1@),
    decreases entries.len(),
{
    if i < entries.len() - 1 {
        lemma_entries_found(entries.drop_last(), i);
        assert(entries.drop_last()[i] == entries[i]);
        assert(entries[i].0@ != entries.last().0@);
    }
}

proof fn lemma_entries_absent(entries: Seq<(String, Vec<CommentToken>)>, p: Seq<char>)
    requires
        forall|a: int| 0 <= a < entries.len() ==> entries[a].0@ != p,
    ensures
        !map_of_entries(entries).contains_key(p),
    decreases entries.len(),
{
    if entries.len() > 0 {
        lemma_entries_absent(entries.drop_last(), p);
    }
}

proof fn lemma_entries_update(
    entries: Seq<(String, Vec<CommentToken>)>,
    i: int,
    e: (String, Vec<CommentToken>),
)
    requires
        forall|a: int, b: int| 0 <= a < b < entries.len() ==> entries[a].0@ != entries[b].0@,
        0 <= i < entries.len(),
        e.0@ == entries[i].0@,
    ensures
        map_of_entries(entries.update(i, e)) =~= map_of_entries(entries).insert(
            e.0@,
            rules_view(e.1@),
        ),
    decreases entries.len(),
{
    let u = entries.update(i, e);
    if i == entries.len() - 1 {
        assert(u.drop_last() =~= entries.drop_last());
        assert(u.last() == e);
    } else {
        assert(u.drop_last() =~= entries.drop_last().update(i, e));
        assert(u.last() == entries.last());
        lemma_entries_update(entries.drop_last(), i, e);
        assert(entries.drop_last()[i] == entries[i]);
        assert(e.0@ != entries.last().0@);
    }
}

/// The extension-to-rules configuration.
pub struct Config {
    pub token_map: Vec<(String, Vec<CommentToken>)>,
}

impl View for Config {
    type V = Map<Seq<char>, Seq<TokenV>>;

    closed spec fn view(&self) -> Map<Seq<char>, Seq<TokenV>> {
        map_of_entries(self.token_map@)
    }
}

fn clone_tokens(ts: &Vec<CommentToken>) -> (r: Vec<CommentToken>)
    ensures
        rules_view(r@) == rules_view(ts@),
{
    let n = ts.len();
    let mut out: Vec<CommentToken> = Vec::new();
    let mut i: usize = 0;
    while i < n
        invariant
            i <= n,
            n == ts@.len(),
            out@.len() == i,
            forall|k: int| 0 <= k < i ==> out@[k]@ == ts@[k]@,
        decreases n - i,
    {
        out.push(ts[i].clone());
        i = i + 1;
    }
    proof {
        assert(rules_view(out@) =~= rules_view(ts@));
    }
    out
}

impl Config {
    /// Extensions of the stored entries are pairwise distinct.
    pub closed spec fn wf(&self) -> bool {
        forall|a: int, b: int|
            0 <= a < b < self.token_map@.len() ==> self.token_map@[a].0@
                != self.token_map@[b].0@
    }

    /// A configuration read from TOML text: `Some` exactly when the
    /// text is a well-formed token map, and then exactly the map it
    /// describes; `None` otherwise.
    pub fn new(config_text: &str) -> (r: Option<Config>)
        ensures
            (r is Some) == token_map_ok(config_text@),
            r matches Some(c) ==> c.wf() && c@ == spec_token_map(config_text@),
    {
        match Self::get_token_map(config_text) {
            Some(m) => {
                proof {
                    let ks = toml_doc_keys(config_text@)->Some_0;
                    lemma_entries_match_names(config_text@, ks, m@);
                }
                Some(Config { token_map: m })
            },
            None => None,
        }
    }

    /// Parse a whole token map from TOML text: one table per
    /// extension, each with its `line` and `block` rule arrays.
    /// Succeeds exactly when the text is such a map; the result then
    /// holds the table's extensions, pairwise distinct and in table
    /// order, each with its line rules first and its block rules after
    /// them, in array order.
    pub fn get_token_map(text: &str) -> (r: Option<Vec<(String, Vec<CommentToken>)>>)
        ensures
            (r is Some) == token_map_ok(text@),
            r matches Some(m) ==> (toml_doc_keys(text@) matches Some(ks) && m@.len() == ks.len()
                && (forall|i: int| 0 <= i < m@.len() ==> m@[i].0@ == ks[i]) && (forall|i: int|
                0 <= i < m@.len() ==> Some(rules_view(m@[i].1@)) == spec_rules_of(text@, ks[i]))
                && (forall|a: int, b: int| 0 <= a < b < m@.len() ==> m@[a].0@ != m@[b].0@)),
    {
        let ks = match doc_keys(text) {
            Some(k) => k,
            None => {
                return None;
            },
        };
        let ghost kv = strings_view(ks@);
        let n = ks.len();
        let mut out: Vec<(String, Vec<CommentToken>)> = Vec::new();
        let mut i: usize = 0;
        while i < n
            invariant
                i <= n,
                n == ks@.len(),
                toml_doc_keys(text@) == Some(kv),
                kv == strings_view(ks@),
                forall|a: int, b: int| 0 <= a < b < n ==> ks@[a]@ != ks@[b]@,
                out@.len() == i,
                forall|k: int| 0 <= k < i ==> out@[k].0@ == kv[k],
                forall|k: int|
                    0 <= k < i ==> Some(rules_view(out@[k].1@)) == spec_rules_of(text@, kv[k]),
            decreases n - i,
        {
            proof {
                assert(kv[i as int] == ks@[i as int]@);
            }
            let (ls, bs) = match rule_lists(text, ks[i].as_str()) {
                Some(p) => p,
                None => {
                    proof {
                        assert(spec_rules_of(text@, kv[i as int]) is None);
                    }
                    return None;
                },
            };
            let ts = tokens_from_lists(&ls, &bs);
            proof {
                let lv = strings_view(ls@);
                let bv = pairs_view(bs@);
                assert forall|p: int|
                    0 <= p < rules_view(ts@).len() implies rules_view(ts@)[p] == token_views_of(
                    lv,
                    bv,
                )[p] by {
                    assert(rules_view(ts@)[p] == ts@[p]@);
                    if p < ls@.len() {
                        assert(ts@[p]@ == (TokenV::Line { prefix: ls@[p]@ }));
                        assert(lv[p] == ls@[p]@);
                        assert(token_views_of(lv, bv)[p] == (TokenV::Line { prefix: lv[p] }));
                    } else {
                        let q = p - ls@.len();
                        assert(ts@[p]@ == (TokenV::Block { open: bs@[q].0@, close: bs@[q].1@ }));
                        assert(bv[q] == (bs@[q].0@, bs@[q].1@));
                        assert(token_views_of(lv, bv)[p] == (TokenV::Block {
                            open: bv[q].0,
                            close: bv[q].1,
                        }));
                    }
                }
                assert(rules_view(ts@) =~= token_views_of(lv, bv));
            }
            out.push((ks[i].clone(), ts));
            i = i + 1;
        }
        proof {
            assert(out@.len() == kv.len());
            assert forall|a: int, b: int|
                0 <= a < b < out@.len() implies out@[a].0@ != out@[b].0@ by {
                assert(kv[a] == ks@[a]@);
                assert(kv[b] == ks@[b]@);
            }
        }
        Some(out)
    }

    /// The rule list configured for extension `ext`, in configured
    /// order, if any.
    pub fn get_comment_tokens(&self, ext: &str) -> (r: Option<Vec<CommentToken>>)
        requires
            self.wf(),
        ensures
            match r {
                Some(ts) => self@.contains_key(ext@) && rules_view(ts@) == self@[ext@],
                None => !self@.contains_key(ext@),
            },
    {
        let n = self.token_map.len();
        let mut i: usize = 0;
        while i < n
            invariant
                i <= n,
                n == self.token_map@.len(),
                self.wf(),
                forall|a: int| 0 <= a < i ==> self.token_map@[a].0@ != ext@,
            decreases n - i,
        {
            if str_eq(self.token_map[i].0.as_str(), ext) {
                proof {
                    lemma_entries_found(self.token_map@, i as int);
                }
                return Some(clone_tokens(&self.token_map[i].1));
            }
            i = i + 1;
        }
        proof {
            lemma_entries_absent(self.token_map@, ext@);
        }
        None
    }

    /// Store the rules `ts` for extension `ext`, replacing any earlier
    /// entry for that extension.
    fn insert_rules(&mut self, ext: String, ts: Vec<CommentToken>)
        requires
            old(self).wf(),
        ensures
            final (self).wf(),
            final (self)@ == old(self)@.insert(ext@, rules_view(ts@)),
    {
        let n = self.token_map.len();
        let mut i: usize = 0;
        while i < n
            invariant
                i <= n,
                n == self.token_map@.len(),
                self == old(self),
                self.wf(),
                forall|a: int| 0 <= a < i ==> self.token_map@[a].0@ != ext@,
            decreases n - i,
        {
            if str_eq(self.token_map[i].0.as_str(), ext.as_str()) {
                let ghost pre = self.token_map@;
                proof {
                    lemma_entries_update(pre, i as int, (ext, ts));
                }
                self.token_map[i] = (ext, ts);
                proof {
                    assert(self.token_map@ == pre.update(i as int, (ext, ts)));
                    assert forall|a: int, b: int|
                        0 <= a < b < self.token_map@.len() implies self.token_map@[a].0@
                        != self.token_map@[b].0@ by {
                        assert(a != i ==> self.token_map@[a] == pre[a]);
                        assert(b != i ==> self.token_map@[b] == pre[b]);
                    }
                }
                return;
            }
            i = i + 1;
        }
        proof {
            lemma_entries_absent(self.token_map@, ext@);
            assert(self.token_map@.push((ext, ts)).drop_last() =~= self.token_map@);
        }
        self.token_map.push((ext, ts));
    }

    /// Merge a parsed token map into this configuration: each entry
    /// replaces any rules already stored for its extension, and among
    /// duplicate entries the later one wins.
    pub fn merge_token_map(&mut self, entries: Vec<(String, Vec<CommentToken>)>)
        requires
            old(self).wf(),
        ensures
            final (self).wf(),
            final (self)@ == old(self)@.union_prefer_right(map_of_entries(entries@)),
    {
        let ghost orig = entries@;
        let mut entries = entries;
        let ghost mut done: int = 0;
        proof {
            assert(orig.take(0) =~= Seq::<(String, Vec<CommentToken>)>::empty());
            assert(old(self)@.union_prefer_right(map_of_entries(orig.take(0))) =~= old(
                self,
            )@);
        }
        while entries.len() > 0
            invariant
                0 <= done <= orig.len(),
                entries@ =~= orig.skip(done),
                self.wf(),
                self@ == old(self)@.union_prefer_right(map_of_entries(orig.take(done))),
            decreases entries@.len(),
        {
            let e = entries.remove(0);
            proof {
                assert(e == orig[done]);
                assert(entries@ =~= orig.skip(done + 1));
            }
            let ghost pre_map = self@;
            self.insert_rules(e.0, e.1);
            proof {
                assert(orig.take(done + 1).drop_last() =~= orig.take(done));
                assert(orig.take(done + 1).last() == orig[done]);
                assert(map_of_entries(orig.take(done + 1)) == map_of_entries(
                    orig.take(done),
                ).insert(orig[done].0@, rules_view(orig[done].1@)));
                assert(old(self)@.union_prefer_right(map_of_entries(orig.take(done + 1)))
                    =~= pre_map.insert(orig[done].0@, rules_view(orig[done].1@)));
            }
            proof {
                done = done + 1;
            }
        }
        proof {
            assert(orig.take(done) =~= orig);
        }
    }

    /// Parse TOML text and merge its token map into this
    /// configuration: when the text is a well-formed token map, its
    /// entries replace the rules of extensions already present and add
    /// the others; malformed text leaves the configuration completely
    /// unchanged.
    pub fn set_comment_token(&mut self, config_text: &str)
        requires
            old(self).wf(),
        ensures
            final (self).wf(),
            token_map_ok(config_text@) ==> final (self)@ == old(self)@.union_prefer_right(
                spec_token_map(config_text@),
            ),
            !token_map_ok(config_text@) ==> final (self)@ == old(self)@,
    {
        match Self::get_token_map(config_text) {
            Some(m) => {
                proof {
                    let ks = toml_doc_keys(config_text@)->Some_0;
                    lemma_entries_match_names(config_text@, ks, m@);
                }
                self.merge_token_map(m);
            },
            None => {},
        }
    }
}

/// An entry list whose keys and rule lists match the named parse of
/// `text` stands for exactly the map the text describes.
proof fn lemma_entries_match_names(
    text: Seq<char>,
    ks: Seq<Seq<char>>,
    entries: Seq<(String, Vec<CommentToken>)>,
)
    requires
        entries.len() == ks.len(),
        forall|i: int| 0 <= i < ks.len() ==> entries[i].0@ == ks[i],
        forall|i: int|
            0 <= i < ks.len() ==> Some(rules_view(entries[i].1@)) == spec_rules_of(text, ks[i]),
    ensures
        map_of_entries(entries) == map_from_keys(text, ks),
    decreases ks.len(),
{
    if ks.len() > 0 {
        let kp = ks.drop_last();
        let ep = entries.drop_last();
        assert(forall|i: int| 0 <= i < kp.len() ==> ep[i] == entries[i] && kp[i] == ks[i]);
        lemma_entries_match_names(text, kp, ep);
        assert(entries.last().0@ == ks.last());
        assert(Some(rules_view(entries.last().1@)) == spec_rules_of(text, ks.last()));
    }
}

} // verus!
