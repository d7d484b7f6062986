//! Memo table of previously computed file statistics, keyed by the
//! file's path. A hit is trusted unconditionally for the path string:
//! the table carries no modification-time or content check, which is a
//! deliberate, documented simplification.

use vstd::prelude::*;

use crate::parser::{CodeStat, StatV};
use crate::text::str_eq;

verus! {

/// The mapping an entry list stands for: later entries win, though the
/// manager keeps paths unique so order never matters.
pub open spec fn cache_map(entries: Seq<CodeStat>) -> Map<Seq<char>, StatV>
    decreases entries.len(),
{
    if entries.len() == 0 {
        Map::empty()
    } else {
        cache_map(entries.drop_last()).insert(entries.last()@.path, entries.last()@)
    }
}

/// Memo table from file path to its computed statistics.
pub struct CacheManager {
    cache: Vec<CodeStat>,
}

impl View for CacheManager {
    type V = Map<Seq<char>, StatV>;

    closed spec fn view(&self) -> Map<Seq<char>, StatV> {
        cache_map(self.cache@)
    }
}

proof fn lemma_cache_map_found(entries: Seq<CodeStat>, i: int)
    requires
        forall|a: int, b: int|
            0 <= a < b < entries.len() ==> entries[a]@.path != entries[b]@.path,
        0 <= i < entries.len(),
    ensures
        cache_map(entries).contains_key(entries[i]@.path),
        cache_map(entries)[entries[i]@.path] == entries[i]@,
    decreases entries.len(),
{
    if i < entries.len() - 1 {
        lemma_cache_map_found(entries.drop_last(), i);
        assert(entries.drop_last()[i] == entries[i]);
        assert(entries[i]@.path != entries.last()@.path);
    }
}

proof fn lemma_cache_map_absent(entries: Seq<CodeStat>, p: Seq<char>)
    requires
        forall|a: int| 0 <= a < entries.len() ==> entries[a]@.path != p,
    ensures
        !cache_map(entries).contains_key(p),
    decreases entries.len(),
{
    if entries.len() > 0 {
        lemma_cache_map_absent(entries.drop_last(), p);
    }
}

proof fn lemma_cache_map_update(entries: Seq<CodeStat>, i: int, s: CodeStat)
    requires
        forall|a: int, b: int|
            0 <= a < b < entries.len() ==> entries[a]@.path != entries[b]@.path,
        0 <= i < entries.len(),
        s@.path == entries[i]@.path,
    ensures
        cache_map(entries.update(i, s)) =~= cache_map(entries).insert(s@.path, s@),
    decreases entries.len(),
{
    let u = entries.update(i, s);
    if i == entries.len() - 1 {
        assert(u.drop_last() =~= entries.drop_last());
        assert(u.last() == s);
    } else {
        assert(u.drop_last() =~= entries.drop_last().update(i, s));
        assert(u.last() == entries.last());
        lemma_cache_map_update(entries.drop_last(), i, s);
        assert(entries.drop_last()[i] == entries[i]);
        assert(s@.path != entries.last()@.path);
    }
}

impl CacheManager {
    /// Paths of the stored entries are pairwise distinct.
    pub closed spec fn wf(&self) -> bool {
        forall|a: int, b: int|
            0 <= a < b < self.cache@.len() ==> self.cache@[a]@.path != self.cache@[b]@.path
    }

    /// An empty cache.
    pub fn new() -> (r: Self)
        ensures
            r@ == Map::<Seq<char>, StatV>::empty(),
            r.wf(),
    {
        Self { cache: Vec::new() }
    }

    /// Look up the statistics previously stored for `path`, if any.
    pub fn get_cache(&self, path: &str) -> (r: Option<CodeStat>)
        requires
            self.wf(),
        ensures
            match r {
                Some(s) => self@.contains_key(path@) && s@ == self@[path@],
                None => !self@.contains_key(path@),
            },
    {
        let n = self.cache.len();
        let mut i: usize = 0;
        while i < n
            invariant
                i <= n,
                n == self.cache@.len(),
                self.wf(),
                forall|a: int| 0 <= a < i ==> self.cache@[a]@.path != path@,
            decreases n - i,
        {
            if str_eq(self.cache[i].path.as_str(), path) {
                proof {
                    lemma_cache_map_found(self.cache@, i as int);
                }
                return Some(self.cache[i].clone());
            }
            i = i + 1;
        }
        proof {
            lemma_cache_map_absent(self.cache@, path@);
        }
        None
    }

    /// Store `code_stat` under its path, replacing any earlier entry for
    /// that path.
    pub fn set_cache(&mut self, code_stat: CodeStat)
        requires
            old(self).wf(),
        ensures
            final (self).wf(),
            final (self)@ == old(self)@.insert(code_stat@.path, code_stat@),
    {
        let n = self.cache.len();
        let mut i: usize = 0;
        while i < n
            invariant
                i <= n,
                n == self.cache@.len(),
                self == old(self),
                self.wf(),
                forall|a: int| 0 <= a < i ==> self.cache@[a]@.path != code_stat@.path,
            decreases n - i,
        {
            if str_eq(self.cache[i].path.as_str(), code_stat.path.as_str()) {
                let ghost pre = self.cache@;
                proof {
                    lemma_cache_map_update(pre, i as int, code_stat);
                }
                self.cache[i] = code_stat;
                proof {
                    assert(self.cache@ == pre.update(i as int, code_stat));
                    assert forall|a: int, b: int|
                        0 <= a < b < self.cache@.len() implies self.cache@[a]@.path
                        != self.cache@[b]@.path by {
                        assert(a != i ==> self.cache@[a] == pre[a]);
                        assert(b != i ==> self.cache@[b] == pre[b]);
                    }
                }
                return;
            }
            i = i + 1;
        }
        proof {
            lemma_cache_map_absent(self.cache@, code_stat@.path);
            assert(self.cache@.push(code_stat).drop_last() =~= self.cache@);
        }
        self.cache.push(code_stat);
    }
}

} // verus!
