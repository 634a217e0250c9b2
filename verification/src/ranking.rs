//! The ranking engine: a recency/length/frequency composite score per alias,
//! with a one-shot inflation correction when the total crosses a ceiling.
//!
//! All quantities are exact integers: recency multipliers in quarters
//! (16, 8, 2, 1 stand for 4, 2, 1/2, 1/4), command-length factors in 1024ths
//! (`floor(1024 * len^(3/5))`, an integer fifth root), frequencies in
//! twentieths, and scores in half points, so the ceiling halving divides
//! without remainder.
use vstd::prelude::*;

use crate::aliases::AliasView;
use crate::aliases::GitAlias;
use crate::aliases::views_of;
use crate::history::FREQ_CAP;
use crate::history::HistoryCache;
use crate::history::HistoryEntry;
use crate::history::apply_events;
use crate::history::halved;
use crate::history::lemma_wf_map_bounds;
use crate::history::parse_plain_history;
use crate::history::parse_zsh_history;
use crate::history::plain_events;
use crate::history::zsh_applied;
use crate::text::first_token;
use crate::text::first_token_exec;
use crate::CACHE_TTL_SECONDS;

verus! {

/// Recency multiplier within one hour: 4, in quarter points.
pub const MULT_HOUR_Q: u64 = 16;

/// Recency multiplier within one day: 2, in quarter points.
pub const MULT_DAY_Q: u64 = 8;

/// Recency multiplier within one week: 1/2, in quarter points.
pub const MULT_WEEK_Q: u64 = 2;

/// Recency multiplier for anything older or unknown: 1/4, in quarter points.
pub const MULT_OLD_Q: u64 = 1;

pub const SECONDS_HOUR: u64 = 3600;

pub const SECONDS_DAY: u64 = 86400;

pub const SECONDS_WEEK: u64 = 604800;

/// Commands longer than this count as this long in the length factor.
pub const LENGTH_CAP: u64 = 1000000;

/// The recency-band multiplier in quarters. A zero `last_seen` means the
/// moment of use is unknown and lands in the oldest band.
pub open spec fn spec_time_mult_q(now: u64, last_seen: u64) -> u64 {
    if last_seen == 0 {
        MULT_OLD_Q
    } else {
        let elapsed = if now >= last_seen {
            now - last_seen
        } else {
            0
        };
        if elapsed <= SECONDS_HOUR {
            MULT_HOUR_Q
        } else if elapsed <= SECONDS_DAY {
            MULT_DAY_Q
        } else if elapsed <= SECONDS_WEEK {
            MULT_WEEK_Q
        } else {
            MULT_OLD_Q
        }
    }
}

pub fn time_mult_q(now: u64, last_seen: u64) -> (r: u64)
    ensures
        r == spec_time_mult_q(now, last_seen),
{
    if last_seen == 0 {
        return MULT_OLD_Q;
    }
    let elapsed = if now >= last_seen {
        now - last_seen
    } else {
        0
    };
    if elapsed <= SECONDS_HOUR {
        MULT_HOUR_Q
    } else if elapsed <= SECONDS_DAY {
        MULT_DAY_Q
    } else if elapsed <= SECONDS_WEEK {
        MULT_WEEK_Q
    } else {
        MULT_OLD_Q
    }
}

/// Recency banding: a use half an hour ago multiplies by 4, one within a day
/// by 2, one within a week by 1/2, and anything older by 1/4. (An elapsed
/// time of 90000 seconds is already past the one-day band: it lands at 1/2.)
pub proof fn lemma_recency_bands(now: u64)
    requires
        now >= 1000000,
    ensures
        spec_time_mult_q(now, (now - 1800) as u64) == MULT_HOUR_Q,
        spec_time_mult_q(now, (now - 80000) as u64) == MULT_DAY_Q,
        spec_time_mult_q(now, (now - 500000) as u64) == MULT_WEEK_Q,
        spec_time_mult_q(now, (now - 1000000) as u64) == MULT_OLD_Q,
{
}

pub open spec fn pow5(x: int) -> int {
    x * x * x * x * x
}

proof fn lemma_pow5_monotone(a: int, b: int)
    requires
        0 <= a <= b,
    ensures
        pow5(a) <= pow5(b),
{
    assert(a * a <= b * b) by (nonlinear_arith)
        requires
            0 <= a <= b,
    ;
    assert(a * a * (a * a) <= b * b * (b * b)) by (nonlinear_arith)
        requires
            0 <= a * a <= b * b,
    ;
    assert(a * a * (a * a) * a <= b * b * (b * b) * b) by (nonlinear_arith)
        requires
            0 <= a <= b,
            0 <= a * a * (a * a) <= b * b * (b * b),
    ;
    assert(pow5(a) == a * a * (a * a) * a) by (nonlinear_arith);
    assert(pow5(b) == b * b * (b * b) * b) by (nonlinear_arith);
}

/// The scaled cube a length factor approximates the fifth root of:
/// `min(len, cap)^3 * 1024^5`.
pub open spec fn len_target(len: int) -> int {
    let l = if len <= LENGTH_CAP {
        len
    } else {
        LENGTH_CAP as int
    };
    l * l * l * 0x4000000000000
}

/// `r` is `floor(1024 * min(len, cap)^(3/5))`, stated through fifth powers.
pub open spec fn is_len_factor(len: int, r: int) -> bool {
    &&& pow5(r) <= len_target(len)
    &&& len_target(len) < pow5(r + 1)
}

/// The length factor as a function of the command length, in 1024ths.
pub open spec fn spec_len_factor(len: int) -> int {
    choose|r: int| 0 <= r && is_len_factor(len, r)
}

pub proof fn lemma_len_factor_unique(len: int, r1: int, r2: int)
    requires
        0 <= r1,
        0 <= r2,
        is_len_factor(len, r1),
        is_len_factor(len, r2),
    ensures
        r1 == r2,
{
    if r1 < r2 {
        lemma_pow5_monotone(r1 + 1, r2);
    }
    if r2 < r1 {
        lemma_pow5_monotone(r2 + 1, r1);
    }
}

fn pow5_exec(x: u64) -> (r: u128)
    requires
        x <= 0x400000,
    ensures
        r == pow5(x as int),
{
    let x1 = x as u128;
    proof {
        assert(x1 * x1 <= 0x400000 * 0x400000) by (nonlinear_arith)
            requires
                0 <= x1 <= 0x400000,
        ;
    }
    let x2 = x1 * x1;
    proof {
        assert(x2 * x2 <= 0x100000000000 * 0x100000000000) by (nonlinear_arith)
            requires
                0 <= x2 <= 0x100000000000,
        ;
    }
    let x4 = x2 * x2;
    proof {
        assert(x4 * x1 <= 0x10000000000000000000000 * 0x400000) by (nonlinear_arith)
            requires
                0 <= x4 <= 0x10000000000000000000000,
                0 <= x1 <= 0x400000,
        ;
        assert(x4 * x1 == pow5(x as int)) by (nonlinear_arith)
            requires
                x1 == x as int,
                x2 == x1 * x1,
                x4 == x2 * x2,
        ;
    }
    x4 * x1
}

/// Compute the length factor by binary search on fifth powers.
pub fn length_factor_fp(len: usize) -> (r: u64)
    ensures
        r == spec_len_factor(len as int),
        is_len_factor(len as int, r as int),
        r <= 0x400000,
{
    let l: u64 = if len >= 1000000 {
        1000000
    } else {
        len as u64
    };
    proof {
        assert((l as int) * (l as int) * (l as int) <= 1000000000000000000) by (nonlinear_arith)
            requires
                0 <= l <= 1000000,
        ;
    }
    let l1 = l as u128;
    proof {
        assert(l1 * l1 <= 1000000000000) by (nonlinear_arith)
            requires
                0 <= l1 <= 1000000,
        ;
        assert(l1 * l1 * l1 <= 1000000000000000000) by (nonlinear_arith)
            requires
                0 <= l1 <= 1000000,
                l1 * l1 <= 1000000000000,
        ;
    }
    let t: u128 = l1 * l1 * l1 * 0x4000000000000u128;
    let ghost tt = len_target(len as int);
    proof {
        assert(t == tt);
        assert(pow5(0x400000) == 0x400000 * 0x400000 * (0x400000 * 0x400000) * 0x400000)
            by (nonlinear_arith);
        assert(tt < pow5(0x400000));
    }
    let mut lo: u64 = 0;
    let mut hi: u64 = 0x400000;
    while hi - lo > 1
        invariant
            lo < hi <= 0x400000,
            t == tt,
            tt == len_target(len as int),
            pow5(lo as int) <= tt,
            tt < pow5(hi as int),
        decreases hi - lo,
    {
        let mid = lo + (hi - lo) / 2;
        let m5 = pow5_exec(mid);
        if m5 <= t {
            lo = mid;
        } else {
            hi = mid;
        }
    }
    proof {
        assert(hi == lo + 1);
        assert(is_len_factor(len as int, lo as int));
        let picked = spec_len_factor(len as int);
        assert(0 <= picked && is_len_factor(len as int, picked)) by {
            assert(0 <= lo as int && is_len_factor(len as int, lo as int));
        }
        lemma_len_factor_unique(len as int, lo as int, picked);
    }
    lo
}

/// One alias's score in half points: recency quarters times length 1024ths
/// times frequency twentieths make units of 1/81920 point; rounding half up
/// to whole points and doubling gives half points.
pub open spec fn spec_score_half(mult_q: int, len_fp: int, freq_units: int) -> int {
    2 * ((mult_q * len_fp * freq_units + 40960) / 81920)
}

/// Compute one alias's score in half points.
pub fn score_half(mult_q: u64, len_fp: u64, freq_units: u64) -> (r: u64)
    requires
        mult_q <= 16,
        len_fp <= 0x400000,
        freq_units <= FREQ_CAP,
    ensures
        r == spec_score_half(mult_q as int, len_fp as int, freq_units as int),
        r <= 0x800000000000,
        r % 2 == 0,
{
    proof {
        assert(mult_q * len_fp <= 16 * 0x400000) by (nonlinear_arith)
            requires
                0 <= mult_q <= 16,
                0 <= len_fp <= 0x400000,
        ;
    }
    let p: u64 = mult_q * len_fp;
    proof {
        assert(p * freq_units <= 0x4000000 * 0x1000000000) by (nonlinear_arith)
            requires
                0 <= p <= 0x4000000,
                0 <= freq_units <= 0x1000000000,
        ;
    }
    let raw: u64 = p * freq_units;
    let rounded: u64 = (raw + 40960) / 81920;
    2 * rounded
}

/// Doubling the frequency exactly doubles the raw (unrounded) score product;
/// the recency and length factors are untouched.
pub proof fn lemma_score_doubles_with_frequency(mult_q: int, len_fp: int, freq_units: int)
    ensures
        mult_q * len_fp * (2 * freq_units) == 2 * (mult_q * len_fp * freq_units),
{
    assert(mult_q * len_fp * (2 * freq_units) == 2 * (mult_q * len_fp * freq_units))
        by (nonlinear_arith);
}

/// Scoring is monotonic in frequency: with the recency and length factors
/// fixed, a higher frequency never yields a lower score, before and after
/// rounding.
pub proof fn lemma_score_monotone_in_frequency(mult_q: int, len_fp: int, f1: int, f2: int)
    requires
        0 <= mult_q,
        0 <= len_fp,
        0 <= f1 <= f2,
    ensures
        mult_q * len_fp * f1 <= mult_q * len_fp * f2,
        spec_score_half(mult_q, len_fp, f1) <= spec_score_half(mult_q, len_fp, f2),
{
    assert(mult_q * len_fp * f1 <= mult_q * len_fp * f2) by (nonlinear_arith)
        requires
            0 <= mult_q,
            0 <= len_fp,
            0 <= f1 <= f2,
    ;
    assert((mult_q * len_fp * f1 + 40960) / 81920 <= (mult_q * len_fp * f2 + 40960) / 81920)
        by (nonlinear_arith)
        requires
            mult_q * len_fp * f1 <= mult_q * len_fp * f2,
    ;
}


/// Total-score ceiling, in half points (70 000 whole points).
pub const CEILING_HALF: u64 = 140000;

/// The per-alias score mapping, stored as an association vector with
/// pairwise-distinct keys; a later `set` of the same name overwrites.
pub struct ScoreMap {
    pub entries: Vec<(String, u64)>,
}

/// The mapping a score vector denotes.
pub open spec fn score_entries_map(s: Seq<(String, u64)>) -> Map<Seq<char>, int>
    decreases s.len(),
{
    if s.len() == 0 {
        Map::empty()
    } else {
        score_entries_map(s.drop_last()).insert(s.last().0@, s.last().1 as int)
    }
}

pub open spec fn score_distinct(s: Seq<(String, u64)>) -> bool {
    forall|p: int, q: int| 0 <= p < q < s.len() ==> s[p].0@ != s[q].0@
}

proof fn lemma_score_map_at(s: Seq<(String, u64)>, idx: int)
    requires
        score_distinct(s),
        0 <= idx < s.len(),
    ensures
        score_entries_map(s).contains_key(s[idx].0@),
        score_entries_map(s)[s[idx].0@] == s[idx].1 as int,
    decreases s.len(),
{
    if idx < s.len() - 1 {
        assert(score_distinct(s.drop_last())) by {
            assert(forall|p: int, q: int|
                0 <= p < q < s.drop_last().len() ==> s.drop_last()[p] == s[p] && s.drop_last()[q]
                    == s[q]);
        }
        lemma_score_map_at(s.drop_last(), idx);
        assert(s.drop_last()[idx] == s[idx]);
        assert(s[idx].0@ != s.last().0@);
    }
}

proof fn lemma_score_map_absent(s: Seq<(String, u64)>, k: Seq<char>)
    requires
        forall|p: int| 0 <= p < s.len() ==> s[p].0@ != k,
    ensures
        !score_entries_map(s).contains_key(k),
    decreases s.len(),
{
    if s.len() > 0 {
        assert(forall|p: int|
            0 <= p < s.drop_last().len() ==> s.drop_last()[p] == s[p]);
        lemma_score_map_absent(s.drop_last(), k);
    }
}

proof fn lemma_score_map_update(s: Seq<(String, u64)>, i: int, pr: (String, u64))
    requires
        score_distinct(s),
        0 <= i < s.len(),
        pr.0@ == s[i].0@,
    ensures
        score_entries_map(s.update(i, pr)) == score_entries_map(s).insert(pr.0@, pr.1 as int),
        score_distinct(s.update(i, pr)),
    decreases s.len(),
{
    let u = s.update(i, pr);
    assert(score_distinct(u)) by {
        assert(forall|p: int|
            0 <= p < u.len() ==> u[p].0@ == s[p].0@);
    }
    if i == s.len() - 1 {
        assert(u.drop_last() =~= s.drop_last());
        assert(u.last() == pr);
        assert(score_entries_map(u) =~= score_entries_map(s).insert(pr.0@, pr.1 as int));
    } else {
        assert(score_distinct(s.drop_last())) by {
            assert(forall|p: int, q: int|
                0 <= p < q < s.drop_last().len() ==> s.drop_last()[p] == s[p] && s.drop_last()[q]
                    == s[q]);
        }
        assert(s.drop_last()[i] == s[i]);
        lemma_score_map_update(s.drop_last(), i, pr);
        assert(u.drop_last() =~= s.drop_last().update(i, pr));
        assert(u.last() == s.last());
        assert(pr.0@ != s.last().0@);
        assert(score_entries_map(u) =~= score_entries_map(s).insert(pr.0@, pr.1 as int));
    }
}

/// Every value halved, keys untouched.
pub open spec fn half_values(m: Map<Seq<char>, int>) -> Map<Seq<char>, int> {
    Map::new(|k: Seq<char>| m.contains_key(k), |k: Seq<char>| m[k] / 2)
}

proof fn lemma_score_halved_pointwise(u: Seq<(String, u64)>, s: Seq<(String, u64)>)
    requires
        u.len() == s.len(),
        forall|p: int|
            0 <= p < s.len() ==> u[p].0 == s[p].0 && u[p].1 == s[p].1 / 2,
    ensures
        score_entries_map(u) == half_values(score_entries_map(s)),
    decreases s.len(),
{
    if s.len() == 0 {
        assert(score_entries_map(u) =~= half_values(score_entries_map(s)));
    } else {
        assert(forall|p: int|
            0 <= p < s.drop_last().len() ==> u.drop_last()[p] == u[p] && s.drop_last()[p] == s[p]);
        lemma_score_halved_pointwise(u.drop_last(), s.drop_last());
        assert(u.last().0 == s.last().0 && u.last().1 == s.last().1 / 2);
        assert(score_entries_map(u) =~= half_values(score_entries_map(s)));
    }
}

impl View for ScoreMap {
    type V = Map<Seq<char>, int>;

    open spec fn view(&self) -> Map<Seq<char>, int> {
        score_entries_map(self.entries@)
    }
}

impl ScoreMap {
    pub open spec fn wf(&self) -> bool {
        score_distinct(self.entries@)
    }

    pub fn new() -> (r: ScoreMap)
        ensures
            r.wf(),
            r@ == Map::<Seq<char>, int>::empty(),
            r.entries@.len() == 0,
    {
        ScoreMap { entries: Vec::new() }
    }

    pub fn is_empty(&self) -> (r: bool)
        ensures
            r == (self.entries@.len() == 0),
    {
        self.entries.len() == 0
    }

    pub fn get(&self, name: &str) -> (r: Option<u64>)
        requires
            self.wf(),
        ensures
            match r {
                Option::Some(v) => self@.contains_key(name@) && v as int == self@[name@],
                Option::None => !self@.contains_key(name@),
            },
    {
        let mut i: usize = 0;
        while i < self.entries.len()
            invariant
                self.wf(),
                i <= self.entries@.len(),
                forall|p: int| 0 <= p < i ==> self.entries@[p].0@ != name@,
            decreases self.entries@.len() - i,
        {
            if crate::text::str_eq(self.entries[i].0.as_str(), name) {
                proof {
                    lemma_score_map_at(self.entries@, i as int);
                }
                return Option::Some(self.entries[i].1);
            }
            i += 1;
        }
        proof {
            lemma_score_map_absent(self.entries@, name@);
        }
        Option::None
    }

    /// Insert or overwrite one name's score.
    pub fn set(&mut self, name: String, v: u64)
        requires
            old(self).wf(),
        ensures
            final(self).wf(),
            final(self)@ == old(self)@.insert(name@, v as int),
    {
        let ghost s0 = self.entries@;
        let mut i: usize = 0;
        while i < self.entries.len()
            invariant
                self.wf(),
                self.entries@ == s0,
                s0 == old(self).entries@,
                i <= s0.len(),
                forall|p: int| 0 <= p < i ==> s0[p].0@ != name@,
            decreases s0.len() - i,
        {
            if crate::text::str_eq(self.entries[i].0.as_str(), name.as_str()) {
                self.entries[i].1 = v;
                proof {
                    assert(self.entries@ =~= s0.update(i as int, (s0[i as int].0, v)));
                    lemma_score_map_update(s0, i as int, (s0[i as int].0, v));
                }
                return ;
            }
            i += 1;
        }
        self.entries.push((name, v));
        proof {
            assert(self.entries@.drop_last() =~= s0);
            assert forall|p: int, q: int|
                0 <= p < q < self.entries@.len() implies self.entries@[p].0@
                != self.entries@[q].0@ by {
                if q < self.entries@.len() - 1 {
                    assert(self.entries@[p] == s0[p] && self.entries@[q] == s0[q]);
                } else {
                    assert(self.entries@[p] == s0[p]);
                }
            }
        }
    }

    /// Halve every stored score (the inflation correction's second half).
    pub fn halve_values(&mut self)
        requires
            old(self).wf(),
        ensures
            final(self).wf(),
            final(self)@ == half_values(old(self)@),
    {
        let ghost s0 = self.entries@;
        let mut i: usize = 0;
        while i < self.entries.len()
            invariant
                self.entries@.len() == s0.len(),
                i <= s0.len(),
                forall|p: int|
                    i <= p < s0.len() ==> self.entries@[p] == s0[p],
                forall|p: int|
                    0 <= p < i ==> self.entries@[p].0 == s0[p].0 && self.entries@[p].1 == s0[p].1
                        / 2,
            decreases s0.len() - i,
        {
            let v = self.entries[i].1;
            self.entries[i].1 = v / 2;
            i += 1;
        }
        proof {
            assert(s0 == old(self).entries@);
            assert forall|p: int, q: int|
                0 <= p < q < self.entries@.len() implies self.entries@[p].0@
                != self.entries@[q].0@ by {
                assert(self.entries@[p].0 == s0[p].0);
                assert(self.entries@[q].0 == s0[q].0);
                assert(s0[p].0@ != s0[q].0@);
            }
            lemma_score_halved_pointwise(self.entries@, s0);
        }
    }
}

/// The signature an alias is looked up under: `"git "` plus its name.
pub open spec fn sig_of_name(name: Seq<char>) -> Seq<char> {
    "git "@ + name
}

/// The frequency and last-seen signal an alias draws from the cache: a direct
/// match on its name; else one fifth of the entry found under its command's
/// first token; else nothing.
pub open spec fn alias_signal(m: Map<Seq<char>, HistoryEntry>, a: AliasView) -> Option<(int, u64)> {
    if m.contains_key(sig_of_name(a.name)) {
        Option::Some(
            (m[sig_of_name(a.name)].frequency_units as int, m[sig_of_name(a.name)].last_seen),
        )
    } else if m.contains_key(sig_of_name(first_token(a.command))) {
        Option::Some(
            (
                (m[sig_of_name(first_token(a.command))].frequency_units as int) / 5,
                m[sig_of_name(first_token(a.command))].last_seen,
            ),
        )
    } else {
        Option::None
    }
}

/// One alias's score before any ceiling correction, in half points; an alias
/// with no signal scores exactly zero.
pub open spec fn uncapped_half(m: Map<Seq<char>, HistoryEntry>, a: AliasView, now: u64) -> int {
    match alias_signal(m, a) {
        Option::None => 0,
        Option::Some((f, l)) => spec_score_half(
            spec_time_mult_q(now, l) as int,
            spec_len_factor(a.command.len() as int),
            f,
        ),
    }
}

/// The sum of uncapped scores over the whole list, duplicates included.
pub open spec fn total_half(m: Map<Seq<char>, HistoryEntry>, aliases: Seq<AliasView>, now: u64) -> int
    decreases aliases.len(),
{
    if aliases.len() == 0 {
        0
    } else {
        total_half(m, aliases.drop_last(), now) + uncapped_half(m, aliases.last(), now)
    }
}

/// The name-to-score mapping before any correction; a later duplicate name
/// overwrites an earlier one.
pub open spec fn scores_uncapped(
    m: Map<Seq<char>, HistoryEntry>,
    aliases: Seq<AliasView>,
    now: u64,
) -> Map<Seq<char>, int>
    decreases aliases.len(),
{
    if aliases.len() == 0 {
        Map::empty()
    } else {
        scores_uncapped(m, aliases.drop_last(), now).insert(
            aliases.last().name,
            uncapped_half(m, aliases.last(), now),
        )
    }
}

/// What one scoring call returns: the uncapped mapping, every value halved
/// exactly when the uncapped total crossed the ceiling.
pub open spec fn spec_scores_result(
    m: Map<Seq<char>, HistoryEntry>,
    aliases: Seq<AliasView>,
    now: u64,
) -> Map<Seq<char>, int> {
    if total_half(m, aliases, now) > CEILING_HALF {
        half_values(scores_uncapped(m, aliases, now))
    } else {
        scores_uncapped(m, aliases, now)
    }
}

/// What one scoring call leaves in the cache: frequencies halved exactly when
/// the uncapped total crossed the ceiling, untouched otherwise.
pub open spec fn spec_cache_after(
    m: Map<Seq<char>, HistoryEntry>,
    aliases: Seq<AliasView>,
    now: u64,
) -> Map<Seq<char>, HistoryEntry> {
    if total_half(m, aliases, now) > CEILING_HALF {
        halved(m)
    } else {
        m
    }
}

/// The cache a rebuild produces from the history texts that could be read:
/// the timestamped source first, then the plain one, over an empty map.
pub open spec fn rebuilt_map(zsh: Option<Seq<char>>, plain: Option<Seq<char>>) -> Map<
    Seq<char>,
    HistoryEntry,
> {
    let m0 = Map::<Seq<char>, HistoryEntry>::empty();
    let m1 = match zsh {
        Option::Some(z) => zsh_applied(m0, z),
        Option::None => m0,
    };
    match plain {
        Option::Some(pl) => apply_events(m1, plain_events(pl, 0)),
        Option::None => m1,
    }
}

/// Ranks aliases against the usage-history cache. The cache is rebuilt by
/// the caller through `rebuild` whenever `needs_refresh` says so; scoring
/// itself never fails and hands absent data a zero score.
pub struct RankingService {
    pub history_cache: HistoryCache,
    pub last_fetch_time: Option<u64>,
}

impl RankingService {
    pub open spec fn wf(&self) -> bool {
        self.history_cache.wf()
    }

    /// The time-to-live policy: refresh when never refreshed, when stale,
    /// or when the cache is empty.
    pub open spec fn spec_needs_refresh(&self, now: u64) -> bool {
        ||| self.last_fetch_time is None
        ||| (if now >= self.last_fetch_time.unwrap() {
            now - self.last_fetch_time.unwrap()
        } else {
            0
        }) > CACHE_TTL_SECONDS
        ||| self.history_cache.entries@.len() == 0
    }

    pub fn new() -> (r: RankingService)
        ensures
            r.wf(),
            r.history_cache@ == Map::<Seq<char>, HistoryEntry>::empty(),
            r.history_cache.entries@.len() == 0,
            r.last_fetch_time is None,
    {
        RankingService { history_cache: HistoryCache::new(), last_fetch_time: Option::None }
    }

    pub fn needs_refresh(&self, now: u64) -> (r: bool)
        ensures
            r == self.spec_needs_refresh(now),
    {
        match self.last_fetch_time {
            Option::None => true,
            Option::Some(t) => {
                let elapsed = if now >= t {
                    now - t
                } else {
                    0
                };
                elapsed > CACHE_TTL_SECONDS || self.history_cache.is_empty()
            },
        }
    }

    /// Replace the cache wholesale from the history texts the caller could
    /// read, and stamp the refresh instant.
    pub fn rebuild(&mut self, zsh: Option<&str>, plain: Option<&str>, now: u64)
        ensures
            final(self).wf(),
            final(self).history_cache@ == rebuilt_map(zsh.deep_view(), plain.deep_view()),
            final(self).last_fetch_time == Option::Some(now),
    {
        let mut c = HistoryCache::new();
        match zsh {
            Option::Some(z) => parse_zsh_history(z, &mut c),
            Option::None => {},
        }
        match plain {
            Option::Some(pl) => parse_plain_history(pl, &mut c),
            Option::None => {},
        }
        self.history_cache = c;
        self.last_fetch_time = Option::Some(now);
    }

    /// Score every alias in the list against the cache: direct or fallback
    /// frequency signal, recency band, length factor, rounding — and, when
    /// the uncapped total crosses the ceiling, halve both the returned
    /// scores and the cached frequencies.
    pub fn get_scores(&mut self, aliases: &Vec<GitAlias>, now: u64) -> (r: ScoreMap)
        requires
            old(self).wf(),
        ensures
            final(self).wf(),
            r.wf(),
            final(self).last_fetch_time == old(self).last_fetch_time,
            r@ == spec_scores_result(old(self).history_cache@, views_of(aliases@), now),
            final(self).history_cache@ == spec_cache_after(
                old(self).history_cache@,
                views_of(aliases@),
                now,
            ),
    {
        let ghost m = self.history_cache@;
        let ghost avs = views_of(aliases@);
        let mut scores = ScoreMap::new();
        let mut total: u128 = 0;
        let mut idx: usize = 0;
        while idx < aliases.len()
            invariant
                *self == *old(self),
                self.wf(),
                m == self.history_cache@,
                avs == views_of(aliases@),
                scores.wf(),
                idx <= aliases@.len(),
                scores@ == scores_uncapped(m, avs.subrange(0, idx as int), now),
                total as int == total_half(m, avs.subrange(0, idx as int), now),
                total as int <= (idx as int) * 0x1000000000000,
            decreases aliases@.len() - idx,
        {
            let ghost prefix = avs.subrange(0, idx as int);
            let a = &aliases[idx];
            let mut sig = "git ".to_owned();
            sig.append(a.name.as_str());
            let mut freq: u64 = 0;
            let mut last: u64 = 0;
            let mut has: bool = false;
            match self.history_cache.get(sig.as_str()) {
                Option::Some(e) => {
                    freq = e.frequency_units;
                    last = e.last_seen;
                    has = true;
                },
                Option::None => {
                    let base = first_token_exec(a.command.as_str());
                    let mut sig2 = "git ".to_owned();
                    sig2.append(base.as_str());
                    match self.history_cache.get(sig2.as_str()) {
                        Option::Some(e) => {
                            freq = e.frequency_units / 5;
                            last = e.last_seen;
                            has = true;
                        },
                        Option::None => {},
                    }
                },
            }
            let sc: u64;
            if has {
                proof {
                    lemma_wf_map_bounds(self.history_cache.entries@);
                }
                let mq = time_mult_q(now, last);
                let lf = length_factor_fp(a.command.as_str().unicode_len());
                sc = score_half(mq, lf, freq);
            } else {
                sc = 0;
            }
            proof {
                assert(sc as int == uncapped_half(m, avs[idx as int], now));
            }
            scores.set(a.name.clone(), sc);
            total = total + sc as u128;
            idx += 1;
            proof {
                let cur = avs.subrange(0, idx as int);
                assert(cur.drop_last() =~= prefix);
                assert(cur.last() == avs[idx - 1]);
            }
        }
        proof {
            assert(avs.subrange(0, avs.len() as int) =~= avs);
        }
        if total > CEILING_HALF as u128 {
            self.history_cache.halve_frequencies();
            scores.halve_values();
        }
        scores
    }
}

} // verus!
