//! The known-repository registry: the set of repository paths ever selected
//! by the user. The caller prunes paths that no longer exist before
//! construction and persists `to_json()` whenever an operation reports a
//! membership change — and only then.
use vstd::prelude::*;

use crate::text::str_eq;

verus! {

/// What `serde_json::to_string_pretty` returns for a vector of path strings.
pub uninterp spec fn json_of_paths(v: Seq<Seq<char>>) -> Seq<char>;

/// What `serde_json::from_str::<Vec<String>>` yields for a given text, when
/// it parses; a pure function of the text.
pub uninterp spec fn parsed_paths_of(data: Seq<char>) -> Option<Seq<Seq<char>>>;

/// Relies on serde_json::to_string_pretty: the pretty-printed JSON array of
/// the given strings, a pure function of them.
#[verifier::external_body]
fn render_paths_json(v: &Vec<String>) -> (r: String)
    ensures
        r@ == json_of_paths(v.deep_view()),
{
    match serde_json::to_string_pretty(v) {
        Ok(s) => s,
        Err(_) => String::new(),
    }
}

/// Relies on serde_json::from_str: parses a JSON array of strings, a pure
/// function of the text.
#[verifier::external_body]
fn parse_paths_json(data: &str) -> (r: Option<Vec<String>>)
    ensures
        r.deep_view() == parsed_paths_of(data@),
{
    serde_json::from_str::<Vec<String>>(data).ok()
}

/// The set of path views a stored vector denotes.
pub open spec fn paths_set(s: Seq<String>) -> Set<Seq<char>>
    decreases s.len(),
{
    if s.len() == 0 {
        Set::empty()
    } else {
        paths_set(s.drop_last()).insert(s.last()@)
    }
}

proof fn lemma_paths_set_contains(s: Seq<String>, k: Seq<char>)
    ensures
        paths_set(s).contains(k) <==> exists|p: int| 0 <= p < s.len() && s[p]@ == k,
    decreases s.len(),
{
    if s.len() > 0 {
        lemma_paths_set_contains(s.drop_last(), k);
        if paths_set(s).contains(k) {
            if s.last()@ == k {
                assert(s[s.len() - 1]@ == k);
            } else {
                let p = choose|p: int| 0 <= p < s.drop_last().len() && s.drop_last()[p]@ == k;
                assert(s[p]@ == k);
            }
        }
        if exists|p: int| 0 <= p < s.len() && s[p]@ == k {
            let p = choose|p: int| 0 <= p < s.len() && s[p]@ == k;
            if p < s.len() - 1 {
                assert(s.drop_last()[p]@ == k);
            }
        }
    }
}

/// Persisted set of repository paths, with pairwise-distinct entries.
pub struct KnownReposService {
    pub paths: Vec<String>,
}

impl View for KnownReposService {
    type V = Set<Seq<char>>;

    open spec fn view(&self) -> Set<Seq<char>> {
        paths_set(self.paths@)
    }
}

impl KnownReposService {
    pub open spec fn wf(&self) -> bool {
        forall|p: int, q: int|
            0 <= p < q < self.paths@.len() ==> self.paths@[p]@ != self.paths@[q]@
    }

    pub fn new() -> (r: KnownReposService)
        ensures
            r.wf(),
            r@ == Set::<Seq<char>>::empty(),
            r.paths@.len() == 0,
    {
        KnownReposService { paths: Vec::new() }
    }

    /// Build the registry from loaded paths (the caller has already dropped
    /// the ones that no longer exist); duplicates collapse.
    pub fn from_paths(list: Vec<String>) -> (r: KnownReposService)
        ensures
            r.wf(),
            r@ == paths_set(list@),
    {
        let mut v = list;
        let ghost orig = v@;
        let ghost done: int = 0;
        let mut r = KnownReposService::new();
        while v.len() > 0
            invariant
                0 <= done <= orig.len(),
                v@ =~= orig.subrange(done, orig.len() as int),
                r.wf(),
                r@ == paths_set(orig.subrange(0, done)),
            decreases v@.len(),
        {
            let ghost vseq = v@;
            let x = v.remove(0);
            proof {
                assert(x == orig[done]);
                assert(v@ =~= orig.subrange(done + 1, orig.len() as int)) by {
                    assert(forall|k: int| 0 <= k < v@.len() ==> v@[k] == vseq[k + 1]);
                }
            }
            let _ = r.add(x.as_str());
            proof {
                let cur = orig.subrange(0, done + 1);
                assert(cur.drop_last() =~= orig.subrange(0, done));
                assert(cur.last() == orig[done]);
                done = done + 1;
            }
        }
        proof {
            assert(orig.subrange(0, orig.len() as int) =~= orig);
        }
        r
    }

    pub fn contains(&self, path: &str) -> (r: bool)
        requires
            self.wf(),
        ensures
            r == self@.contains(path@),
    {
        let mut i: usize = 0;
        while i < self.paths.len()
            invariant
                i <= self.paths@.len(),
                forall|p: int| 0 <= p < i ==> self.paths@[p]@ != path@,
            decreases self.paths@.len() - i,
        {
            if str_eq(self.paths[i].as_str(), path) {
                proof {
                    lemma_paths_set_contains(self.paths@, path@);
                }
                return true;
            }
            i += 1;
        }
        proof {
            lemma_paths_set_contains(self.paths@, path@);
        }
        false
    }

    /// Insert a path if absent. The result says whether membership changed;
    /// exactly then the caller persists the registry.
    pub fn add(&mut self, repo_path: &str) -> (changed: bool)
        requires
            old(self).wf(),
        ensures
            final(self).wf(),
            final(self)@ == old(self)@.insert(repo_path@),
            changed == !old(self)@.contains(repo_path@),
    {
        if self.contains(repo_path) {
            proof {
                assert(self@ =~= self@.insert(repo_path@));
            }
            return false;
        }
        proof {
            lemma_paths_set_contains(self.paths@, repo_path@);
        }
        let ghost s0 = self.paths@;
        self.paths.push(repo_path.to_owned());
        proof {
            assert(self.paths@.drop_last() =~= s0);
            assert forall|p: int, q: int|
                0 <= p < q < self.paths@.len() implies self.paths@[p]@ != self.paths@[q]@ by {
                if q < self.paths@.len() - 1 {
                    assert(self.paths@[p] == s0[p] && self.paths@[q] == s0[q]);
                } else {
                    assert(self.paths@[p] == s0[p]);
                }
            }
        }
        true
    }

    /// The current paths, as an unordered list; no side effects.
    pub fn get_all(&self) -> (r: Vec<String>)
        ensures
            r@.len() == self.paths@.len(),
            forall|p: int| 0 <= p < r@.len() ==> r@[p]@ == self.paths@[p]@,
    {
        let mut r: Vec<String> = Vec::new();
        let mut i: usize = 0;
        while i < self.paths.len()
            invariant
                i <= self.paths@.len(),
                r@.len() == i,
                forall|p: int| 0 <= p < i ==> r@[p]@ == self.paths@[p]@,
            decreases self.paths@.len() - i,
        {
            r.push(self.paths[i].clone());
            i += 1;
        }
        r
    }

    /// Remove a path if present. The result says whether membership changed;
    /// exactly then the caller persists the registry.
    pub fn remove(&mut self, repo_path: &str) -> (changed: bool)
        requires
            old(self).wf(),
        ensures
            final(self).wf(),
            final(self)@ == old(self)@.remove(repo_path@),
            changed == old(self)@.contains(repo_path@),
    {
        let ghost s0 = self.paths@;
        let mut i: usize = 0;
        while i < self.paths.len()
            invariant
                self.wf(),
                self.paths@ == s0,
                s0 == old(self).paths@,
                i <= s0.len(),
                forall|p: int| 0 <= p < i ==> s0[p]@ != repo_path@,
            decreases s0.len() - i,
        {
            if str_eq(self.paths[i].as_str(), repo_path) {
                proof {
                    lemma_paths_set_contains(s0, repo_path@);
                }
                self.paths.remove(i);
                proof {
                    lemma_paths_set_remove(s0, i as int);
                    assert(forall|p: int, q: int|
                        0 <= p < q < self.paths@.len() ==> self.paths@[p]@ != self.paths@[q]@);
                }
                return true;
            }
            i += 1;
        }
        proof {
            lemma_paths_set_contains(s0, repo_path@);
            assert(self@ =~= self@.remove(repo_path@));
        }
        false
    }

    /// The registry rendered for persistence: a JSON array of the paths.
    pub fn to_json(&self) -> (r: String)
        ensures
            r@ == json_of_paths(self.paths.deep_view()),
    {
        render_paths_json(&self.paths)
    }

    /// Decode a persisted registry text; corrupt data degrades to no paths.
    pub fn paths_from_json(data: &str) -> (r: Vec<String>)
        ensures
            r.deep_view() == match parsed_paths_of(data@) {
                Option::Some(v) => v,
                Option::None => Seq::<Seq<char>>::empty(),
            },
    {
        match parse_paths_json(data) {
            Option::Some(v) => v,
            Option::None => Vec::new(),
        }
    }
}

/// Removing one entry of a duplicate-free vector removes exactly its path
/// from the denoted set.
proof fn lemma_paths_set_remove(s: Seq<String>, i: int)
    requires
        0 <= i < s.len(),
        forall|p: int, q: int| 0 <= p < q < s.len() ==> s[p]@ != s[q]@,
    ensures
        paths_set(s.remove(i)) == paths_set(s).remove(s[i]@),
        forall|p: int, q: int|
            0 <= p < q < s.remove(i).len() ==> s.remove(i)[p]@ != s.remove(i)[q]@,
    decreases s.len(),
{
    let u = s.remove(i);
    assert(forall|p: int|
        0 <= p < u.len() ==> u[p] == (if p < i {
            s[p]
        } else {
            s[p + 1]
        }));
    if i == s.len() - 1 {
        assert(u =~= s.drop_last());
        lemma_paths_set_contains(s.drop_last(), s[i]@);
        assert(paths_set(u) =~= paths_set(s).remove(s[i]@));
    } else {
        assert(forall|p: int, q: int|
            0 <= p < q < s.drop_last().len() ==> s.drop_last()[p] == s[p] && s.drop_last()[q]
                == s[q]);
        lemma_paths_set_remove(s.drop_last(), i);
        assert(u.drop_last() =~= s.drop_last().remove(i));
        assert(u.last() == s.last());
        assert(s[i]@ != s.last()@);
        assert(paths_set(u) =~= paths_set(s).remove(s[i]@));
    }
}

/// Adding the same path twice is idempotent: the second insertion leaves the
/// set unchanged, so `add` reports no membership change and the caller
/// persists exactly once.
pub proof fn lemma_add_idempotent(s: Set<Seq<char>>, p: Seq<char>)
    ensures
        s.insert(p).insert(p) == s.insert(p),
        s.insert(p).contains(p),
{
    assert(s.insert(p).insert(p) =~= s.insert(p));
}

} // verus!
