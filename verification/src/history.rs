//! The usage-history cache: a map from normalized command signatures
//! (`"git <subcommand>"`) to an aggregate frequency and the most recent
//! moment of use, rebuilt from shell history files.
//!
//! Frequencies are stored in twentieths of an occurrence so that the ranking
//! engine's fallback factor (one fifth) and its inflation halving stay exact
//! in integers.
use vstd::prelude::*;

use crate::text::digits_end;
use crate::text::is_digit;
use crate::text::lemma_digits_end;
use crate::text::lemma_nl_end;
use crate::text::lemma_sub_end;
use crate::text::lemma_ws_end;
use crate::text::nl_end;
use crate::text::pat_at;
use crate::text::pat_at_exec;
use crate::text::scan_digits;
use crate::text::scan_nl;
use crate::text::scan_semi;
use crate::text::scan_sub;
use crate::text::scan_ws;
use crate::text::semi_end;
use crate::text::str_eq;
use crate::text::sub_end;
use crate::text::to_chars;
use crate::text::ws_end;

verus! {

/// One occurrence of a signature counts this many stored frequency units.
pub const FREQ_UNIT: u64 = 20;

/// Stored frequencies saturate here (2^36 units), which keeps every score
/// computation inside `u64`.
pub const FREQ_CAP: u64 = 0x10_0000_0000;

/// Aggregate usage of one signature: total frequency (in `FREQ_UNIT` units)
/// and the largest epoch-second timestamp seen (0 when unknown).
#[derive(Clone, Copy, Debug)]
pub struct HistoryEntry {
    pub frequency_units: u64,
    pub last_seen: u64,
}

/// The signature-to-usage map, stored as an association vector with
/// pairwise-distinct keys.
pub struct HistoryCache {
    pub entries: Vec<(String, HistoryEntry)>,
}

/// The map an association vector denotes (later pairs would win, but a
/// well-formed cache has distinct keys).
pub open spec fn entries_map(s: Seq<(String, HistoryEntry)>) -> Map<Seq<char>, HistoryEntry>
    decreases s.len(),
{
    if s.len() == 0 {
        Map::empty()
    } else {
        entries_map(s.drop_last()).insert(s.last().0@, s.last().1)
    }
}

/// Keys are pairwise distinct.
pub open spec fn distinct_keys(s: Seq<(String, HistoryEntry)>) -> bool {
    forall|p: int, q: int| 0 <= p < q < s.len() ==> s[p].0@ != s[q].0@
}

proof fn lemma_entries_map_at(s: Seq<(String, HistoryEntry)>, idx: int)
    requires
        distinct_keys(s),
        0 <= idx < s.len(),
    ensures
        entries_map(s).contains_key(s[idx].0@),
        entries_map(s)[s[idx].0@] == s[idx].1,
    decreases s.len(),
{
    if idx < s.len() - 1 {
        assert(distinct_keys(s.drop_last())) by {
            assert(forall|p: int, q: int|
                0 <= p < q < s.drop_last().len() ==> s.drop_last()[p] == s[p] && s.drop_last()[q]
                    == s[q]);
        }
        lemma_entries_map_at(s.drop_last(), idx);
        assert(s.drop_last()[idx] == s[idx]);
        assert(s[idx].0@ != s.last().0@);
    }
}

proof fn lemma_entries_map_absent(s: Seq<(String, HistoryEntry)>, k: Seq<char>)
    requires
        forall|p: int| 0 <= p < s.len() ==> s[p].0@ != k,
    ensures
        !entries_map(s).contains_key(k),
    decreases s.len(),
{
    if s.len() > 0 {
        assert(forall|p: int|
            0 <= p < s.drop_last().len() ==> s.drop_last()[p] == s[p]);
        lemma_entries_map_absent(s.drop_last(), k);
    }
}

/// The cache after one more sighting of signature `k`: frequency grows by one
/// unit (saturating at the cap) and `last_seen` rises to at least `ts`.
pub open spec fn bumped(m: Map<Seq<char>, HistoryEntry>, k: Seq<char>, ts: u64) -> Map<
    Seq<char>,
    HistoryEntry,
> {
    let f0 = if m.contains_key(k) {
        m[k].frequency_units
    } else {
        0
    };
    let l0 = if m.contains_key(k) {
        m[k].last_seen
    } else {
        0
    };
    let f1 = if f0 + FREQ_UNIT <= FREQ_CAP {
        (f0 + FREQ_UNIT) as u64
    } else {
        FREQ_CAP
    };
    let l1 = if ts > l0 {
        ts
    } else {
        l0
    };
    m.insert(k, HistoryEntry { frequency_units: f1, last_seen: l1 })
}

impl View for HistoryCache {
    type V = Map<Seq<char>, HistoryEntry>;

    open spec fn view(&self) -> Map<Seq<char>, HistoryEntry> {
        entries_map(self.entries@)
    }
}

impl HistoryCache {
    /// Distinct keys, and every stored frequency within the cap.
    pub open spec fn wf(&self) -> bool {
        &&& distinct_keys(self.entries@)
        &&& forall|p: int|
            0 <= p < self.entries@.len() ==> self.entries@[p].1.frequency_units <= FREQ_CAP
    }

    pub fn new() -> (r: HistoryCache)
        ensures
            r.wf(),
            r@ == Map::<Seq<char>, HistoryEntry>::empty(),
            r.entries@.len() == 0,
    {
        HistoryCache { entries: Vec::new() }
    }

    pub fn is_empty(&self) -> (r: bool)
        ensures
            r == (self.entries@.len() == 0),
    {
        self.entries.len() == 0
    }

    /// Look a signature up.
    pub fn get(&self, key: &str) -> (r: Option<&HistoryEntry>)
        requires
            self.wf(),
        ensures
            match r {
                Some(e) => self@.contains_key(key@) && *e == self@[key@],
                None => !self@.contains_key(key@),
            },
    {
        let mut i: usize = 0;
        while i < self.entries.len()
            invariant
                self.wf(),
                i <= self.entries@.len(),
                forall|p: int| 0 <= p < i ==> self.entries@[p].0@ != key@,
            decreases self.entries@.len() - i,
        {
            if str_eq(self.entries[i].0.as_str(), key) {
                proof {
                    lemma_entries_map_at(self.entries@, i as int);
                }
                return Some(&self.entries[i].1);
            }
            i += 1;
        }
        proof {
            lemma_entries_map_absent(self.entries@, key@);
        }
        None
    }

    /// Record one sighting of signature `key` at time `ts` (0: no timestamp).
    pub fn bump(&mut self, key: String, ts: u64)
        requires
            old(self).wf(),
        ensures
            final(self).wf(),
            final(self)@ == bumped(old(self)@, key@, ts),
    {
        let ghost s0 = self.entries@;
        let mut i: usize = 0;
        while i < self.entries.len()
            invariant
                self.wf(),
                self.entries@ == s0,
                s0 == old(self).entries@,
                i <= s0.len(),
                forall|p: int| 0 <= p < i ==> s0[p].0@ != key@,
            decreases s0.len() - i,
        {
            if str_eq(self.entries[i].0.as_str(), key.as_str()) {
                proof {
                    lemma_entries_map_at(s0, i as int);
                }
                let f0 = self.entries[i].1.frequency_units;
                let l0 = self.entries[i].1.last_seen;
                let f1 = if f0 <= FREQ_CAP - FREQ_UNIT {
                    f0 + FREQ_UNIT
                } else {
                    FREQ_CAP
                };
                let l1 = if ts > l0 {
                    ts
                } else {
                    l0
                };
                self.entries[i].1 = HistoryEntry { frequency_units: f1, last_seen: l1 };
                proof {
                    assert(self.entries@ =~= s0.update(
                        i as int,
                        (s0[i as int].0, HistoryEntry { frequency_units: f1, last_seen: l1 }),
                    ));
                    lemma_entries_map_update(
                        s0,
                        i as int,
                        (s0[i as int].0, HistoryEntry { frequency_units: f1, last_seen: l1 }),
                    );
                    assert(self@ =~= bumped(entries_map(s0), key@, ts));
                    assert forall|p: int|
                        0 <= p < self.entries@.len() implies self.entries@[p].1.frequency_units
                        <= FREQ_CAP by {
                        if p != i {
                            assert(self.entries@[p] == s0[p]);
                        }
                    }
                }
                return ;
            }
            i += 1;
        }
        proof {
            lemma_entries_map_absent(s0, key@);
        }
        let l1 = if ts > 0 {
            ts
        } else {
            0
        };
        self.entries.push((key, HistoryEntry { frequency_units: FREQ_UNIT, last_seen: l1 }));
        proof {
            assert(self.entries@.drop_last() =~= s0);
            assert(self@ =~= bumped(entries_map(s0), key@, ts));
            assert forall|p: int, q: int|
                0 <= p < q < self.entries@.len() implies self.entries@[p].0@
                != self.entries@[q].0@ by {
                if q < self.entries@.len() - 1 {
                    assert(self.entries@[p] == s0[p] && self.entries@[q] == s0[q]);
                } else {
                    assert(self.entries@[p] == s0[p]);
                }
            }
            assert forall|p: int|
                0 <= p < self.entries@.len() implies self.entries@[p].1.frequency_units
                <= FREQ_CAP by {
                if p < self.entries@.len() - 1 {
                    assert(self.entries@[p] == s0[p]);
                }
            }
        }
    }

    /// Halve every stored frequency (the ranking engine's inflation reset).
    pub fn halve_frequencies(&mut self)
        requires
            old(self).wf(),
        ensures
            final(self).wf(),
            final(self)@ == halved(old(self)@),
    {
        let ghost s0 = self.entries@;
        let mut i: usize = 0;
        while i < self.entries.len()
            invariant
                self.entries@.len() == s0.len(),
                i <= s0.len(),
                forall|p: int|
                    i <= p < s0.len() ==> self.entries@[p] == s0[p],
                forall|p: int|
                    0 <= p < i ==> self.entries@[p].0 == s0[p].0 && self.entries@[p].1
                        == (HistoryEntry {
                        frequency_units: s0[p].1.frequency_units / 2,
                        last_seen: s0[p].1.last_seen,
                    }),
            decreases s0.len() - i,
        {
            let f = self.entries[i].1.frequency_units;
            let l = self.entries[i].1.last_seen;
            self.entries[i].1 = HistoryEntry { frequency_units: f / 2, last_seen: l };
            i += 1;
        }
        proof {
            assert(s0 == old(self).entries@);
            assert forall|p: int, q: int|
                0 <= p < q < self.entries@.len() implies self.entries@[p].0@
                != self.entries@[q].0@ by {
                assert(self.entries@[p].0 == s0[p].0);
                assert(self.entries@[q].0 == s0[q].0);
                assert(s0[p].0@ != s0[q].0@);
            }
            assert forall|p: int|
                0 <= p < self.entries@.len() implies self.entries@[p].1.frequency_units
                <= FREQ_CAP by {
                assert(s0[p].1.frequency_units <= FREQ_CAP);
                assert(self.entries@[p].1.frequency_units == s0[p].1.frequency_units / 2);
            }
            lemma_halved_pointwise(self.entries@, s0);
        }
    }
}

/// Update at an index whose key stays the same: the map gets that key
/// overwritten and nothing else changes.
proof fn lemma_entries_map_update(s: Seq<(String, HistoryEntry)>, i: int, pr: (String, HistoryEntry))
    requires
        distinct_keys(s),
        0 <= i < s.len(),
        pr.0@ == s[i].0@,
    ensures
        entries_map(s.update(i, pr)) == entries_map(s).insert(pr.0@, pr.1),
        distinct_keys(s.update(i, pr)),
    decreases s.len(),
{
    let u = s.update(i, pr);
    assert(distinct_keys(u)) by {
        assert(forall|p: int|
            0 <= p < u.len() ==> u[p].0@ == s[p].0@);
    }
    if i == s.len() - 1 {
        assert(u.drop_last() =~= s.drop_last());
        assert(u.last() == pr);
        assert(entries_map(u) =~= entries_map(s).insert(pr.0@, pr.1));
    } else {
        assert(distinct_keys(s.drop_last())) by {
            assert(forall|p: int, q: int|
                0 <= p < q < s.drop_last().len() ==> s.drop_last()[p] == s[p] && s.drop_last()[q]
                    == s[q]);
        }
        assert(s.drop_last()[i] == s[i]);
        lemma_entries_map_update(s.drop_last(), i, pr);
        assert(u.drop_last() =~= s.drop_last().update(i, pr));
        assert(u.last() == s.last());
        assert(pr.0@ != s.last().0@);
        assert(entries_map(u) =~= entries_map(s).insert(pr.0@, pr.1));
    }
}

/// Every frequency halved, keys and timestamps untouched.
pub open spec fn halved(m: Map<Seq<char>, HistoryEntry>) -> Map<Seq<char>, HistoryEntry> {
    Map::new(
        |k: Seq<char>| m.contains_key(k),
        |k: Seq<char>|
            HistoryEntry {
                frequency_units: m[k].frequency_units / 2,
                last_seen: m[k].last_seen,
            },
    )
}

proof fn lemma_halved_pointwise(u: Seq<(String, HistoryEntry)>, s: Seq<(String, HistoryEntry)>)
    requires
        u.len() == s.len(),
        forall|p: int|
            0 <= p < s.len() ==> u[p].0 == s[p].0 && u[p].1 == (HistoryEntry {
                frequency_units: s[p].1.frequency_units / 2,
                last_seen: s[p].1.last_seen,
            }),
    ensures
        entries_map(u) == halved(entries_map(s)),
    decreases s.len(),
{
    if s.len() == 0 {
        assert(entries_map(u) =~= halved(entries_map(s)));
    } else {
        assert(forall|p: int|
            0 <= p < s.drop_last().len() ==> u.drop_last()[p] == u[p] && s.drop_last()[p] == s[p]);
        lemma_halved_pointwise(u.drop_last(), s.drop_last());
        assert(u.last().0 == s.last().0 && u.last().1 == (HistoryEntry {
            frequency_units: s.last().1.frequency_units / 2,
            last_seen: s.last().1.last_seen,
        }));
        assert(entries_map(u) =~= halved(entries_map(s)));
    }
}


/// A `git <subcommand>` token starts at `i`: the word `git`, at least one
/// whitespace character, then at least one subcommand character.
pub open spec fn git_token_at(s: Seq<char>, i: int) -> bool {
    &&& pat_at(s, i, "git"@)
    &&& ws_end(s, i + 3) > i + 3
    &&& sub_end(s, ws_end(s, i + 3)) > ws_end(s, i + 3)
}

/// Signature of the token at `i`: `"git "` plus the subcommand.
pub open spec fn token_sig(s: Seq<char>, i: int) -> Seq<char> {
    "git "@ + s.subrange(ws_end(s, i + 3), sub_end(s, ws_end(s, i + 3)))
}

/// First index past the token at `i`.
pub open spec fn token_end(s: Seq<char>, i: int) -> int {
    sub_end(s, ws_end(s, i + 3))
}

pub proof fn lemma_token_bounds(s: Seq<char>, i: int)
    requires
        0 <= i,
        git_token_at(s, i),
    ensures
        i + 3 < token_end(s, i) <= s.len(),
{
    reveal_strlit("git");
    lemma_ws_end(s, i + 3);
    lemma_sub_end(s, ws_end(s, i + 3));
}

/// Start of the first `git <subcommand>` token at or after `from`, if any.
pub open spec fn first_git(s: Seq<char>, from: int) -> Option<int>
    decreases s.len() - from,
    when 0 <= from <= s.len()
{
    if from >= s.len() {
        Option::None
    } else if git_token_at(s, from) {
        Option::Some(from)
    } else {
        first_git(s, from + 1)
    }
}

pub proof fn lemma_first_git(s: Seq<char>, from: int)
    requires
        0 <= from <= s.len(),
    ensures
        match first_git(s, from) {
            Option::Some(i) => from <= i < s.len() && git_token_at(s, i),
            Option::None => true,
        },
    decreases s.len() - from,
{
    if from < s.len() && !git_token_at(s, from) {
        lemma_first_git(s, from + 1);
    }
}

/// The plain-history events of `s` from position `from` on: one event per
/// non-overlapping token occurrence, in text order, never carrying a
/// timestamp.
pub open spec fn plain_events(s: Seq<char>, from: int) -> Seq<(Seq<char>, u64)>
    decreases s.len() - from,
    when 0 <= from <= s.len()
    via plain_events_dec
{
    match first_git(s, from) {
        Option::None => Seq::empty(),
        Option::Some(i) => seq![(token_sig(s, i), 0u64)] + plain_events(s, token_end(s, i)),
    }
}

#[via_fn]
proof fn plain_events_dec(s: Seq<char>, from: int) {
    lemma_first_git(s, from);
    if first_git(s, from) is Some {
        let i = first_git(s, from).unwrap();
        lemma_token_bounds(s, i);
    }
}

/// A sequence of sightings applied to a cache map in order.
pub open spec fn apply_events(
    m: Map<Seq<char>, HistoryEntry>,
    evs: Seq<(Seq<char>, u64)>,
) -> Map<Seq<char>, HistoryEntry>
    decreases evs.len(),
{
    if evs.len() == 0 {
        m
    } else {
        bumped(apply_events(m, evs.drop_last()), evs.last().0, evs.last().1)
    }
}

proof fn lemma_apply_events_cons(
    m: Map<Seq<char>, HistoryEntry>,
    e: (Seq<char>, u64),
    evs: Seq<(Seq<char>, u64)>,
)
    ensures
        apply_events(m, seq![e] + evs) == apply_events(bumped(m, e.0, e.1), evs),
    decreases evs.len(),
{
    if evs.len() == 0 {
        assert((seq![e] + evs).last() == e);
        assert((seq![e] + evs).drop_last() =~= Seq::<(Seq<char>, u64)>::empty());
        assert(apply_events(m, Seq::<(Seq<char>, u64)>::empty()) == m);
        assert(apply_events(m, seq![e] + evs) == bumped(m, e.0, e.1));
        assert(apply_events(bumped(m, e.0, e.1), evs) == bumped(m, e.0, e.1));
    } else {
        lemma_apply_events_cons(m, e, evs.drop_last());
        assert((seq![e] + evs).drop_last() =~= seq![e] + evs.drop_last());
        assert((seq![e] + evs).last() == evs.last());
    }
}

/// Find the first token at or after `from`, handing back its signature as a
/// `String` and the position just past it.
fn find_git_exec(src: &str, s: &Vec<char>, from: usize) -> (r: Option<(String, usize)>)
    requires
        s@ == src@,
        from <= s.len(),
    ensures
        match r {
            Option::Some(p) => {
                &&& first_git(s@, from as int) is Some
                &&& {
                    let i = first_git(s@, from as int).unwrap();
                    &&& p.0@ == token_sig(s@, i)
                    &&& p.1 == token_end(s@, i)
                    &&& from <= i
                    &&& from < p.1 <= s@.len()
                }
            },
            Option::None => first_git(s@, from as int) is None,
        },
{
    let git = to_chars("git");
    proof {
        reveal_strlit("git");
    }
    let mut cur = from;
    while cur < s.len()
        invariant
            s@ == src@,
            git@ == "git"@,
            git@.len() == 3,
            from <= cur <= s.len(),
            first_git(s@, from as int) == first_git(s@, cur as int),
        decreases s.len() - cur,
    {
        if pat_at_exec(s, cur, &git) {
            let a = cur + 3;
            let j = scan_ws(s, a);
            proof {
                lemma_ws_end(s@, a as int);
            }
            let e = scan_sub(s, j);
            if j > a && e > j {
                proof {
                    assert(git_token_at(s@, cur as int));
                    assert(first_git(s@, cur as int) == Option::Some(cur as int));
                }
                let mut sig = "git ".to_owned();
                sig.append(src.substring_char(j, e));
                proof {
                    assert(sig@ == token_sig(s@, cur as int));
                }
                return Option::Some((sig, e));
            } else {
                proof {
                    assert(!git_token_at(s@, cur as int));
                }
            }
        } else {
            proof {
                assert(!git_token_at(s@, cur as int));
            }
        }
        cur += 1;
    }
    Option::None
}

/// Scan plain (bash- or PowerShell-style) history text: every occurrence of
/// a `git <subcommand>` token counts one sighting, with no timestamp.
pub fn parse_plain_history(content: &str, cache: &mut HistoryCache)
    requires
        old(cache).wf(),
    ensures
        final(cache).wf(),
        final(cache)@ == apply_events(old(cache)@, plain_events(content@, 0)),
{
    let s = to_chars(content);
    let mut i: usize = 0;
    loop
        invariant
            cache.wf(),
            s@ == content@,
            i <= s@.len(),
            apply_events(cache@, plain_events(s@, i as int)) == apply_events(
                old(cache)@,
                plain_events(s@, 0),
            ),
        decreases s@.len() - i,
    {
        match find_git_exec(content, &s, i) {
            Option::Some((sig, end)) => {
                let ghost c0 = cache@;
                let ghost tok = first_git(s@, i as int).unwrap();
                cache.bump(sig, 0);
                proof {
                    lemma_apply_events_cons(
                        c0,
                        (token_sig(s@, tok), 0u64),
                        plain_events(s@, token_end(s@, tok)),
                    );
                }
                i = end;
            },
            Option::None => {
                return ;
            },
        }
    }
}


/// Value of a run of decimal digits, most significant first.
pub open spec fn digits_val(ds: Seq<char>) -> int
    decreases ds.len(),
{
    if ds.len() == 0 {
        0
    } else {
        digits_val(ds.drop_last()) * 10 + (ds.last() as u32) - 48
    }
}

proof fn lemma_digits_val_nonneg(ds: Seq<char>)
    requires
        forall|k: int| 0 <= k < ds.len() ==> is_digit(ds[k]),
    ensures
        digits_val(ds) >= 0,
    decreases ds.len(),
{
    if ds.len() > 0 {
        assert(forall|k: int|
            0 <= k < ds.drop_last().len() ==> ds.drop_last()[k] == ds[k]);
        lemma_digits_val_nonneg(ds.drop_last());
        assert(is_digit(ds.last()));
    }
}

/// The timestamp a digit run denotes: its value, or 0 when it does not fit
/// into 64 bits.
pub open spec fn ts_from_digits(ds: Seq<char>) -> u64 {
    if 0 <= digits_val(ds) <= u64::MAX {
        digits_val(ds) as u64
    } else {
        0
    }
}

fn parse_ts(lv: &Vec<char>, d0: usize, de: usize) -> (r: u64)
    requires
        d0 <= de <= lv@.len(),
        forall|k: int| d0 <= k < de ==> is_digit(lv@[k]),
    ensures
        r == ts_from_digits(lv@.subrange(d0 as int, de as int)),
{
    let mut val: u64 = 0;
    let mut over: bool = false;
    let mut k: usize = d0;
    proof {
        assert(lv@.subrange(d0 as int, d0 as int) =~= Seq::<char>::empty());
    }
    while k < de
        invariant
            d0 <= k <= de <= lv@.len(),
            forall|m: int| d0 <= m < de ==> is_digit(lv@[m]),
            !over ==> val == digits_val(lv@.subrange(d0 as int, k as int)),
            over ==> digits_val(lv@.subrange(d0 as int, k as int)) > u64::MAX,
        decreases de - k,
    {
        let ghost pre = lv@.subrange(d0 as int, k as int);
        let ghost cur = lv@.subrange(d0 as int, k as int + 1);
        proof {
            assert(is_digit(lv@[k as int]));
            assert(cur.drop_last() =~= pre);
            assert(cur.last() == lv@[k as int]);
            assert(forall|m: int| 0 <= m < pre.len() ==> is_digit(pre[m]));
            lemma_digits_val_nonneg(pre);
        }
        let c = lv[k];
        let cu = c as u32;
        let d = cu - 48;
        if !over {
            let t = (val as u128) * 10 + (d as u128);
            if t > u64::MAX as u128 {
                over = true;
            } else {
                val = t as u64;
            }
        }
        k += 1;
    }
    proof {
        assert(lv@.subrange(d0 as int, de as int) == lv@.subrange(d0 as int, k as int));
        if !over {
            lemma_digits_val_nonneg(lv@.subrange(d0 as int, k as int));
        }
    }
    if over {
        0
    } else {
        val
    }
}

/// Start of the next line: one past the newline, or the end of the text.
pub open spec fn next_line_start(s: Seq<char>, from: int) -> int
    recommends
        0 <= from <= s.len(),
{
    if nl_end(s, from) < s.len() {
        nl_end(s, from) + 1
    } else {
        nl_end(s, from)
    }
}

/// The event one timestamped history line yields. The line must look like
/// `: <epoch>:<anything>;<command>` and the command part must contain a
/// `git <subcommand>` token; the epoch digits give the timestamp.
pub open spec fn zsh_line_event(line: Seq<char>) -> Option<(Seq<char>, u64)> {
    if line.len() == 0 || line[0] != ':' {
        Option::None
    } else {
        let d0 = ws_end(line, 1);
        let de = digits_end(line, d0);
        if de == d0 || de >= line.len() || line[de] != ':' {
            Option::None
        } else {
            let sc = semi_end(line, de + 1);
            if sc >= line.len() {
                Option::None
            } else {
                match first_git(line, sc + 1) {
                    Option::Some(i) => Option::Some(
                        (token_sig(line, i), ts_from_digits(line.subrange(d0, de))),
                    ),
                    Option::None => Option::None,
                }
            }
        }
    }
}

/// Timestamped-pass events: at most one per line, in line order.
pub open spec fn zsh1_events(s: Seq<char>, from: int) -> Seq<(Seq<char>, u64)>
    decreases s.len() - from,
    when 0 <= from <= s.len()
    via zsh1_events_dec
{
    if from >= s.len() {
        Seq::empty()
    } else {
        let rest = zsh1_events(s, next_line_start(s, from));
        match zsh_line_event(s.subrange(from, nl_end(s, from))) {
            Option::Some(ev) => seq![ev] + rest,
            Option::None => rest,
        }
    }
}

#[via_fn]
proof fn zsh1_events_dec(s: Seq<char>, from: int) {
    if 0 <= from < s.len() {
        lemma_nl_end(s, from);
    }
}

/// Bare-line pass events: one per line that begins with a token, in line
/// order, never carrying a timestamp.
pub open spec fn zsh2_events(s: Seq<char>, from: int) -> Seq<(Seq<char>, u64)>
    decreases s.len() - from,
    when 0 <= from <= s.len()
    via zsh2_events_dec
{
    if from >= s.len() {
        Seq::empty()
    } else {
        let line = s.subrange(from, nl_end(s, from));
        let rest = zsh2_events(s, next_line_start(s, from));
        if git_token_at(line, 0) {
            seq![(token_sig(line, 0), 0u64)] + rest
        } else {
            rest
        }
    }
}

#[via_fn]
proof fn zsh2_events_dec(s: Seq<char>, from: int) {
    if 0 <= from < s.len() {
        lemma_nl_end(s, from);
    }
}

fn zsh_line_event_exec(line_str: &str, lv: &Vec<char>) -> (r: Option<(String, u64)>)
    requires
        lv@ == line_str@,
    ensures
        match r {
            Option::Some(p) => zsh_line_event(lv@) == Option::Some((p.0@, p.1)),
            Option::None => zsh_line_event(lv@) is None,
        },
{
    if lv.len() == 0 || lv[0] != ':' {
        return Option::None;
    }
    let d0 = scan_ws(lv, 1);
    proof {
        lemma_ws_end(lv@, 1);
    }
    let de = scan_digits(lv, d0);
    if de == d0 || de >= lv.len() || lv[de] != ':' {
        return Option::None;
    }
    let sc = scan_semi(lv, de + 1);
    if sc >= lv.len() {
        return Option::None;
    }
    match find_git_exec(line_str, lv, sc + 1) {
        Option::Some((sig, _end)) => {
            proof {
                lemma_digits_end(lv@, d0 as int);
            }
            let ts = parse_ts(lv, d0, de);
            Option::Some((sig, ts))
        },
        Option::None => Option::None,
    }
}

fn line_leading_git(line_str: &str, lv: &Vec<char>) -> (r: Option<String>)
    requires
        lv@ == line_str@,
    ensures
        match r {
            Option::Some(sig) => git_token_at(lv@, 0) && sig@ == token_sig(lv@, 0),
            Option::None => !git_token_at(lv@, 0),
        },
{
    let git = to_chars("git");
    proof {
        reveal_strlit("git");
    }
    if !pat_at_exec(lv, 0, &git) {
        return Option::None;
    }
    let j = scan_ws(lv, 3);
    proof {
        lemma_ws_end(lv@, 3);
    }
    let e = scan_sub(lv, j);
    if j > 3 && e > j {
        let mut sig = "git ".to_owned();
        sig.append(line_str.substring_char(j, e));
        Option::Some(sig)
    } else {
        Option::None
    }
}

/// Both zsh passes applied to a cache map: the timestamped lines first,
/// then the bare lines that begin with a token.
pub open spec fn zsh_applied(m: Map<Seq<char>, HistoryEntry>, s: Seq<char>) -> (Map<
    Seq<char>,
    HistoryEntry,
>) {
    apply_events(apply_events(m, zsh1_events(s, 0)), zsh2_events(s, 0))
}

/// Scan timestamped (zsh-style) history text in two passes: first the
/// timestamped lines, then the bare lines that begin with a token. A line
/// matching both shapes counts twice; that double counting is part of the
/// heuristic.
pub fn parse_zsh_history(content: &str, cache: &mut HistoryCache)
    requires
        old(cache).wf(),
    ensures
        final(cache).wf(),
        final(cache)@ == zsh_applied(old(cache)@, content@),
{
    let s = to_chars(content);
    let ghost target1 = apply_events(old(cache)@, zsh1_events(s@, 0));
    let mut i: usize = 0;
    while i < s.len()
        invariant
            cache.wf(),
            s@ == content@,
            i <= s@.len(),
            target1 == apply_events(old(cache)@, zsh1_events(s@, 0)),
            apply_events(cache@, zsh1_events(s@, i as int)) == target1,
        decreases s@.len() - i,
    {
        let e = scan_nl(&s, i);
        let line_str = content.substring_char(i, e);
        let lv = to_chars(&line_str);
        let ghost nxt = next_line_start(s@, i as int);
        match zsh_line_event_exec(&line_str, &lv) {
            Option::Some((sig, ts)) => {
                let ghost c0 = cache@;
                let ghost ev = (sig@, ts);
                cache.bump(sig, ts);
                proof {
                    lemma_apply_events_cons(c0, ev, zsh1_events(s@, nxt));
                    assert(zsh1_events(s@, i as int) == seq![ev] + zsh1_events(s@, nxt));
                }
            },
            Option::None => {
                proof {
                    assert(zsh1_events(s@, i as int) == zsh1_events(s@, nxt));
                }
            },
        }
        if e < s.len() {
            i = e + 1;
        } else {
            i = e;
        }
    }
    let ghost mid = cache@;
    let ghost target2 = apply_events(mid, zsh2_events(s@, 0));
    proof {
        assert(zsh1_events(s@, s@.len() as int) == Seq::<(Seq<char>, u64)>::empty());
        assert(mid == apply_events(old(cache)@, zsh1_events(s@, 0)));
    }
    let mut i2: usize = 0;
    while i2 < s.len()
        invariant
            cache.wf(),
            s@ == content@,
            i2 <= s@.len(),
            mid == apply_events(old(cache)@, zsh1_events(s@, 0)),
            target2 == apply_events(mid, zsh2_events(s@, 0)),
            apply_events(cache@, zsh2_events(s@, i2 as int)) == target2,
        decreases s@.len() - i2,
    {
        let e = scan_nl(&s, i2);
        let line_str = content.substring_char(i2, e);
        let lv = to_chars(&line_str);
        let ghost nxt = next_line_start(s@, i2 as int);
        match line_leading_git(&line_str, &lv) {
            Option::Some(sig) => {
                let ghost c0 = cache@;
                let ghost ev = (sig@, 0u64);
                cache.bump(sig, 0);
                proof {
                    lemma_apply_events_cons(c0, ev, zsh2_events(s@, nxt));
                    assert(zsh2_events(s@, i2 as int) == seq![ev] + zsh2_events(s@, nxt));
                }
            },
            Option::None => {
                proof {
                    assert(zsh2_events(s@, i2 as int) == zsh2_events(s@, nxt));
                }
            },
        }
        if e < s.len() {
            i2 = e + 1;
        } else {
            i2 = e;
        }
    }
    proof {
        assert(zsh2_events(s@, s@.len() as int) == Seq::<(Seq<char>, u64)>::empty());
    }
}


/// In a well-formed cache every stored frequency respects the cap, seen at
/// the map level.
pub proof fn lemma_wf_map_bounds(s: Seq<(String, HistoryEntry)>)
    requires
        forall|p: int| 0 <= p < s.len() ==> s[p].1.frequency_units <= FREQ_CAP,
    ensures
        forall|k: Seq<char>| #[trigger] entries_map(s).contains_key(k) ==> entries_map(
            s,
        )[k].frequency_units <= FREQ_CAP,
    decreases s.len(),
{
    if s.len() > 0 {
        assert(forall|p: int|
            0 <= p < s.drop_last().len() ==> s.drop_last()[p] == s[p]);
        lemma_wf_map_bounds(s.drop_last());
        assert(s.last().1.frequency_units <= FREQ_CAP);
        assert forall|k: Seq<char>| #[trigger] entries_map(s).contains_key(k) implies entries_map(
            s,
        )[k].frequency_units <= FREQ_CAP by {
            if k != s.last().0@ {
                assert(entries_map(s.drop_last()).contains_key(k));
                assert(entries_map(s)[k] == entries_map(s.drop_last())[k]);
            }
        }
    }
}

} // verus!
