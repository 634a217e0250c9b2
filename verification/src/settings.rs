//! Persisted UI settings, as a small string-to-string map. The caller
//! persists the entries after every `set`.
use vstd::prelude::*;

use crate::text::str_eq;

verus! {

/// The mapping a settings vector denotes.
pub open spec fn settings_map(s: Seq<(String, String)>) -> Map<Seq<char>, Seq<char>>
    decreases s.len(),
{
    if s.len() == 0 {
        Map::empty()
    } else {
        settings_map(s.drop_last()).insert(s.last().0@, s.last().1@)
    }
}

pub open spec fn settings_distinct(s: Seq<(String, String)>) -> bool {
    forall|p: int, q: int| 0 <= p < q < s.len() ==> s[p].0@ != s[q].0@
}

proof fn lemma_settings_map_at(s: Seq<(String, String)>, idx: int)
    requires
        settings_distinct(s),
        0 <= idx < s.len(),
    ensures
        settings_map(s).contains_key(s[idx].0@),
        settings_map(s)[s[idx].0@] == s[idx].1@,
    decreases s.len(),
{
    if idx < s.len() - 1 {
        assert(settings_distinct(s.drop_last())) by {
            assert(forall|p: int, q: int|
                0 <= p < q < s.drop_last().len() ==> s.drop_last()[p] == s[p] && s.drop_last()[q]
                    == s[q]);
        }
        lemma_settings_map_at(s.drop_last(), idx);
        assert(s.drop_last()[idx] == s[idx]);
        assert(s[idx].0@ != s.last().0@);
    }
}

proof fn lemma_settings_map_absent(s: Seq<(String, String)>, k: Seq<char>)
    requires
        forall|p: int| 0 <= p < s.len() ==> s[p].0@ != k,
    ensures
        !settings_map(s).contains_key(k),
    decreases s.len(),
{
    if s.len() > 0 {
        assert(forall|p: int|
            0 <= p < s.drop_last().len() ==> s.drop_last()[p] == s[p]);
        lemma_settings_map_absent(s.drop_last(), k);
    }
}

proof fn lemma_settings_map_update(s: Seq<(String, String)>, i: int, pr: (String, String))
    requires
        settings_distinct(s),
        0 <= i < s.len(),
        pr.0@ == s[i].0@,
    ensures
        settings_map(s.update(i, pr)) == settings_map(s).insert(pr.0@, pr.1@),
        settings_distinct(s.update(i, pr)),
    decreases s.len(),
{
    let u = s.update(i, pr);
    assert(settings_distinct(u)) by {
        assert(forall|p: int|
            0 <= p < u.len() ==> u[p].0@ == s[p].0@);
    }
    if i == s.len() - 1 {
        assert(u.drop_last() =~= s.drop_last());
        assert(u.last() == pr);
        assert(settings_map(u) =~= settings_map(s).insert(pr.0@, pr.1@));
    } else {
        assert(settings_distinct(s.drop_last())) by {
            assert(forall|p: int, q: int|
                0 <= p < q < s.drop_last().len() ==> s.drop_last()[p] == s[p] && s.drop_last()[q]
                    == s[q]);
        }
        assert(s.drop_last()[i] == s[i]);
        lemma_settings_map_update(s.drop_last(), i, pr);
        assert(u.drop_last() =~= s.drop_last().update(i, pr));
        assert(u.last() == s.last());
        assert(pr.0@ != s.last().0@);
        assert(settings_map(u) =~= settings_map(s).insert(pr.0@, pr.1@));
    }
}

/// The settings store, with pairwise-distinct keys.
pub struct SettingsService {
    pub entries: Vec<(String, String)>,
}

impl View for SettingsService {
    type V = Map<Seq<char>, Seq<char>>;

    open spec fn view(&self) -> Map<Seq<char>, Seq<char>> {
        settings_map(self.entries@)
    }
}

impl SettingsService {
    pub open spec fn wf(&self) -> bool {
        settings_distinct(self.entries@)
    }

    pub fn new() -> (r: SettingsService)
        ensures
            r.wf(),
            r@ == Map::<Seq<char>, Seq<char>>::empty(),
            r.entries@.len() == 0,
    {
        SettingsService { entries: Vec::new() }
    }

    /// Look one setting up; no side effects.
    pub fn get(&self, key: &str) -> (r: Option<String>)
        requires
            self.wf(),
        ensures
            match r {
                Option::Some(v) => self@.contains_key(key@) && v@ == self@[key@],
                Option::None => !self@.contains_key(key@),
            },
    {
        let mut i: usize = 0;
        while i < self.entries.len()
            invariant
                self.wf(),
                i <= self.entries@.len(),
                forall|p: int| 0 <= p < i ==> self.entries@[p].0@ != key@,
            decreases self.entries@.len() - i,
        {
            if str_eq(self.entries[i].0.as_str(), key) {
                proof {
                    lemma_settings_map_at(self.entries@, i as int);
                }
                return Option::Some(self.entries[i].1.clone());
            }
            i += 1;
        }
        proof {
            lemma_settings_map_absent(self.entries@, key@);
        }
        Option::None
    }

    /// Store one setting; the caller persists the entries afterwards.
    pub fn set(&mut self, key: &str, value: &str)
        requires
            old(self).wf(),
        ensures
            final(self).wf(),
            final(self)@ == old(self)@.insert(key@, value@),
    {
        let ghost s0 = self.entries@;
        let mut i: usize = 0;
        while i < self.entries.len()
            invariant
                self.wf(),
                self.entries@ == s0,
                s0 == old(self).entries@,
                i <= s0.len(),
                forall|p: int| 0 <= p < i ==> s0[p].0@ != key@,
            decreases s0.len() - i,
        {
            if str_eq(self.entries[i].0.as_str(), key) {
                self.entries[i].1 = value.to_owned();
                proof {
                    assert(self.entries@[i as int].1@ == value@);
                    assert(self.entries@ =~= s0.update(
                        i as int,
                        (s0[i as int].0, self.entries@[i as int].1),
                    ));
                    lemma_settings_map_update(s0, i as int, self.entries@[i as int]);
                }
                return ;
            }
            i += 1;
        }
        self.entries.push((key.to_owned(), value.to_owned()));
        proof {
            assert(self.entries@.drop_last() =~= s0);
            assert forall|p: int, q: int|
                0 <= p < q < self.entries@.len() implies self.entries@[p].0@
                != self.entries@[q].0@ by {
                if q < self.entries@.len() - 1 {
                    assert(self.entries@[p] == s0[p] && self.entries@[q] == s0[q]);
                } else {
                    assert(self.entries@[p] == s0[p]);
                }
            }
        }
    }
}

} // verus!
