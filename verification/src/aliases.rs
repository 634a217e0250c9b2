//! Alias records and the aggregator around them: parsing the external
//! tool's raw output into records, sorting them by case-insensitive name,
//! attaching scores, and planning the tool invocations for discovery and
//! mutation.
use vstd::prelude::*;

use crate::history::next_line_start;
use crate::ranking::RankingService;
use crate::ranking::ScoreMap;
use crate::ranking::spec_cache_after;
use crate::ranking::spec_scores_result;
use crate::repos::KnownReposService;
use crate::text::lemma_nl_end;
use crate::text::nl_end;
use crate::text::pat_at;
use crate::text::pat_at_exec;
use crate::text::scan_nl;
use crate::text::to_chars;
use crate::text::trim_exec;
use crate::text::trim_spec;
use crate::text::dec_u64;
use crate::text::dec_spec;
use crate::validate::ValidationResult;
use crate::validate::warnings_spec;
use crate::text::ws_only;

verus! {

/// One discovered alias. Identity is the triple (name, scope, source path);
/// duplicate names across scopes stay distinct records. The score, when
/// attached, is in half points (twice the rounded score), so the ranking
/// engine's inflation halving stays exact in integers.
#[derive(Debug)]
pub struct GitAlias {
    pub name: String,
    pub command: String,
    pub scope: String,
    pub local_path: Option<String>,
    pub score: Option<u64>,
}

/// The mathematical shadow of an alias record: every field as its view.
pub struct AliasView {
    pub name: Seq<char>,
    pub command: Seq<char>,
    pub scope: Seq<char>,
    pub local_path: Option<Seq<char>>,
    pub score: Option<u64>,
}

impl View for GitAlias {
    type V = AliasView;

    open spec fn view(&self) -> AliasView {
        AliasView {
            name: self.name@,
            command: self.command@,
            scope: self.scope@,
            local_path: match self.local_path {
                Option::Some(p) => Option::Some(p@),
                Option::None => Option::None,
            },
            score: self.score,
        }
    }
}

/// The views of a whole list of alias records.
pub open spec fn views_of(s: Seq<GitAlias>) -> Seq<AliasView> {
    Seq::new(s.len(), |i: int| s[i]@)
}


/// What `str::to_lowercase` returns for a given character sequence; the
/// result depends on the characters alone.
pub uninterp spec fn lower_of(s: Seq<char>) -> Seq<char>;

/// Relies on str::to_lowercase: Unicode lowercasing, a pure function of the
/// character sequence.
#[verifier::external_body]
fn lowercase(s: &str) -> (r: String)
    ensures
        r@ == lower_of(s@),
{
    s.to_lowercase()
}

/// Lexicographic order on character sequences, by code point; the empty
/// sequence comes first.
pub open spec fn lex_le(a: Seq<char>, b: Seq<char>) -> bool
    decreases a.len(),
{
    if a.len() == 0 {
        true
    } else if b.len() == 0 {
        false
    } else if a[0] < b[0] {
        true
    } else if b[0] < a[0] {
        false
    } else {
        lex_le(a.drop_first(), b.drop_first())
    }
}

pub proof fn lemma_lex_le_total(a: Seq<char>, b: Seq<char>)
    ensures
        lex_le(a, b) || lex_le(b, a),
    decreases a.len(),
{
    if a.len() > 0 && b.len() > 0 && !(a[0] < b[0]) && !(b[0] < a[0]) {
        lemma_lex_le_total(a.drop_first(), b.drop_first());
    }
}

pub proof fn lemma_lex_le_trans(a: Seq<char>, b: Seq<char>, c: Seq<char>)
    requires
        lex_le(a, b),
        lex_le(b, c),
    ensures
        lex_le(a, c),
    decreases a.len(),
{
    if a.len() > 0 && b.len() > 0 && c.len() > 0 && !(a[0] < b[0]) && !(b[0] < a[0]) && !(b[0]
        < c[0]) && !(c[0] < b[0]) {
        lemma_lex_le_trans(a.drop_first(), b.drop_first(), c.drop_first());
    }
}

/// Decide the lexicographic order on two string slices.
fn lex_le_exec(a: &str, b: &str) -> (r: bool)
    ensures
        r == lex_le(a@, b@),
{
    let na = a.unicode_len();
    let nb = b.unicode_len();
    let mut i: usize = 0;
    proof {
        assert(a@.skip(0) =~= a@);
        assert(b@.skip(0) =~= b@);
    }
    while i < na && i < nb
        invariant
            na == a@.len(),
            nb == b@.len(),
            i <= na,
            i <= nb,
            lex_le(a@, b@) == lex_le(a@.skip(i as int), b@.skip(i as int)),
        decreases na - i,
    {
        let ca = a.get_char(i);
        let cb = b.get_char(i);
        proof {
            assert(a@.skip(i as int)[0] == a@[i as int]);
            assert(b@.skip(i as int)[0] == b@[i as int]);
            assert(a@.skip(i as int).drop_first() =~= a@.skip(i as int + 1));
            assert(b@.skip(i as int).drop_first() =~= b@.skip(i as int + 1));
        }
        if ca < cb {
            return true;
        }
        if cb < ca {
            return false;
        }
        i += 1;
    }
    proof {
        if i >= na {
            assert(a@.skip(i as int).len() == 0);
        } else {
            assert(b@.skip(i as int).len() == 0);
            assert(a@.skip(i as int).len() > 0);
        }
    }
    na <= nb
}

/// The sort key: the lowercased name.
pub open spec fn key_of(a: AliasView) -> Seq<char> {
    lower_of(a.name)
}

/// Stable insertion: the new record goes after every record whose key is at
/// or below its own.
pub open spec fn insert_sorted(x: AliasView, s: Seq<AliasView>) -> Seq<AliasView>
    decreases s.len(),
{
    if s.len() == 0 {
        seq![x]
    } else if lex_le(key_of(s[0]), key_of(x)) {
        seq![s[0]] + insert_sorted(x, s.drop_first())
    } else {
        seq![x] + s
    }
}

/// Insertion sort over the whole list, in input order: a stable sort by
/// case-insensitive name.
pub open spec fn sort_by_name(s: Seq<AliasView>) -> Seq<AliasView>
    decreases s.len(),
{
    if s.len() == 0 {
        Seq::empty()
    } else {
        insert_sorted(s.last(), sort_by_name(s.drop_last()))
    }
}

pub open spec fn sorted_by_name(s: Seq<AliasView>) -> bool {
    forall|i: int, j: int| 0 <= i < j < s.len() ==> lex_le(key_of(s[i]), key_of(s[j]))
}

proof fn lemma_insert_sorted_len(x: AliasView, s: Seq<AliasView>)
    ensures
        insert_sorted(x, s).len() == s.len() + 1,
    decreases s.len(),
{
    if s.len() > 0 && lex_le(key_of(s[0]), key_of(x)) {
        lemma_insert_sorted_len(x, s.drop_first());
    }
}

proof fn lemma_insert_sorted_sorted(x: AliasView, s: Seq<AliasView>)
    requires
        sorted_by_name(s),
    ensures
        sorted_by_name(insert_sorted(x, s)),
    decreases s.len(),
{
    let r = insert_sorted(x, s);
    if s.len() == 0 {
    } else if lex_le(key_of(s[0]), key_of(x)) {
        assert(sorted_by_name(s.drop_first())) by {
            assert(forall|i: int, j: int|
                0 <= i < j < s.drop_first().len() ==> s.drop_first()[i] == s[i + 1]
                    && s.drop_first()[j] == s[j + 1]);
        }
        lemma_insert_sorted_sorted(x, s.drop_first());
        lemma_insert_sorted_len(x, s.drop_first());
        let t = insert_sorted(x, s.drop_first());
        // every key in t is at or above s[0]'s key
        assert forall|j: int| 0 <= j < r.len() implies (j == 0 || lex_le(
            key_of(r[0]),
            key_of(r[j]),
        )) by {
            if j > 0 {
                assert(r[j] == t[j - 1]);
                lemma_insert_in_keys(x, s.drop_first(), j - 1);
                let y = t[j - 1];
                if y == x {
                    assert(lex_le(key_of(s[0]), key_of(x)));
                } else {
                    assert(exists|p: int| 0 <= p < s.drop_first().len() && s.drop_first()[p] == y);
                    let p = choose|p: int|
                        0 <= p < s.drop_first().len() && s.drop_first()[p] == y;
                    assert(s[p + 1] == y);
                    assert(lex_le(key_of(s[0]), key_of(y)));
                }
            }
        }
        assert forall|i: int, j: int| 0 <= i < j < r.len() implies lex_le(
            key_of(r[i]),
            key_of(r[j]),
        ) by {
            if i > 0 {
                assert(r[i] == t[i - 1] && r[j] == t[j - 1]);
            }
        }
    } else {
        lemma_lex_le_total(key_of(s[0]), key_of(x));
        assert forall|i: int, j: int| 0 <= i < j < r.len() implies lex_le(
            key_of(r[i]),
            key_of(r[j]),
        ) by {
            if i == 0 {
                assert(r[0] == x);
                assert(r[j] == s[j - 1]);
                if j - 1 > 0 {
                    assert(lex_le(key_of(s[0]), key_of(s[j - 1])));
                    lemma_lex_le_trans(key_of(x), key_of(s[0]), key_of(s[j - 1]));
                } else {
                    assert(lex_le(key_of(x), key_of(s[0])));
                }
            } else {
                assert(r[i] == s[i - 1] && r[j] == s[j - 1]);
            }
        }
    }
}

/// Every record of an insertion result is the inserted one or one of the
/// originals.
proof fn lemma_insert_in_keys(x: AliasView, s: Seq<AliasView>, j: int)
    requires
        0 <= j < insert_sorted(x, s).len(),
    ensures
        insert_sorted(x, s)[j] == x || exists|p: int| 0 <= p < s.len() && s[p] == insert_sorted(
            x,
            s,
        )[j],
    decreases s.len(),
{
    let r = insert_sorted(x, s);
    if s.len() == 0 {
    } else if lex_le(key_of(s[0]), key_of(x)) {
        if j == 0 {
            assert(r[0] == s[0]);
        } else {
            lemma_insert_in_keys(x, s.drop_first(), j - 1);
            assert(r[j] == insert_sorted(x, s.drop_first())[j - 1]);
            if insert_sorted(x, s.drop_first())[j - 1] != x {
                let p = choose|p: int|
                    0 <= p < s.drop_first().len() && s.drop_first()[p] == insert_sorted(
                        x,
                        s.drop_first(),
                    )[j - 1];
                assert(s[p + 1] == r[j]);
            }
        }
    } else {
        if j > 0 {
            assert(r[j] == s[j - 1]);
        }
    }
}

/// The discovery order is sorted by case-insensitive name; that is the law
/// the aggregator's sort obeys for every input.
pub proof fn lemma_sort_by_name_sorted(s: Seq<AliasView>)
    ensures
        sorted_by_name(sort_by_name(s)),
        sort_by_name(s).len() == s.len(),
    decreases s.len(),
{
    if s.len() > 0 {
        lemma_sort_by_name_sorted(s.drop_last());
        lemma_insert_sorted_sorted(s.last(), sort_by_name(s.drop_last()));
        lemma_insert_sorted_len(s.last(), sort_by_name(s.drop_last()));
    }
}

/// Discovery is deterministic: two runs over inputs with the same views
/// order their records the same way. Together with the sortedness above
/// this is the aggregator's idempotence within one cache window.
pub proof fn lemma_sort_by_name_deterministic(s1: Seq<AliasView>, s2: Seq<AliasView>)
    requires
        s1 == s2,
    ensures
        sort_by_name(s1) == sort_by_name(s2),
{
}

pub proof fn lemma_lex_le_refl(a: Seq<char>)
    ensures
        lex_le(a, a),
    decreases a.len(),
{
    if a.len() > 0 {
        lemma_lex_le_refl(a.drop_first());
    }
}

/// Sorting an already sorted list hands it back unchanged.
pub proof fn lemma_sort_by_name_idempotent(s: Seq<AliasView>)
    ensures
        sort_by_name(sort_by_name(s)) == sort_by_name(s),
{
    lemma_sort_by_name_sorted(s);
    lemma_sorted_fixed_point(sort_by_name(s));
}

proof fn lemma_sorted_fixed_point(t: Seq<AliasView>)
    requires
        sorted_by_name(t),
    ensures
        sort_by_name(t) == t,
    decreases t.len(),
{
    if t.len() > 0 {
        let u = t.drop_last();
        assert(sorted_by_name(u)) by {
            assert(forall|i: int|
                0 <= i < u.len() ==> u[i] == t[i]);
        }
        lemma_sorted_fixed_point(u);
        assert forall|p: int| 0 <= p < u.len() implies lex_le(key_of(u[p]), key_of(t.last())) by {
            assert(u[p] == t[p]);
        }
        lemma_lex_le_refl(key_of(t.last()));
        lemma_insert_at(t.last(), u, u.len() as int);
        assert(sort_by_name(t) == insert_sorted(t.last(), u));
        assert(insert_sorted(t.last(), u) =~= t);
    }
}

/// The sort is a permutation: no record appears or vanishes.
pub proof fn lemma_sort_by_name_permutes(s: Seq<AliasView>)
    ensures
        sort_by_name(s).to_multiset() == s.to_multiset(),
    decreases s.len(),
{
    broadcast use vstd::seq_lib::group_to_multiset_ensures;

    if s.len() > 0 {
        lemma_sort_by_name_permutes(s.drop_last());
        lemma_insert_sorted_multiset(s.last(), sort_by_name(s.drop_last()));
        assert(s.drop_last().push(s.last()) =~= s);
        assert(s.drop_last().push(s.last()).to_multiset() =~= s.drop_last().to_multiset().insert(
            s.last(),
        ));
    }
}

proof fn lemma_insert_sorted_multiset(x: AliasView, s: Seq<AliasView>)
    ensures
        insert_sorted(x, s).to_multiset() == s.to_multiset().insert(x),
    decreases s.len(),
{
    broadcast use vstd::seq_lib::group_to_multiset_ensures;

    if s.len() == 0 {
        assert(seq![x] =~= Seq::<AliasView>::empty().push(x));
        assert(seq![x].to_multiset() =~= s.to_multiset().insert(x));
    } else if lex_le(key_of(s[0]), key_of(x)) {
        lemma_insert_sorted_multiset(x, s.drop_first());
        let t = insert_sorted(x, s.drop_first());
        vstd::seq_lib::lemma_multiset_commutative(seq![s[0]], t);
        assert(seq![s[0]].to_multiset() =~= Seq::<AliasView>::empty().push(s[0]).to_multiset());
        assert((seq![s[0]] + t).to_multiset() =~= t.to_multiset().insert(s[0]));
        vstd::seq_lib::lemma_multiset_commutative(seq![s[0]], s.drop_first());
        assert(seq![s[0]] + s.drop_first() =~= s);
        assert(s.to_multiset() =~= s.drop_first().to_multiset().insert(s[0]));
        assert(insert_sorted(x, s).to_multiset() =~= s.to_multiset().insert(x));
    } else {
        vstd::seq_lib::lemma_multiset_commutative(seq![x], s);
        assert(seq![x].to_multiset() =~= Seq::<AliasView>::empty().push(x).to_multiset());
        assert((seq![x] + s).to_multiset() =~= s.to_multiset().insert(x));
    }
}

/// The position scan an insertion uses: with every key left of `j` at or
/// below the new key and the key at `j` (if any) strictly above it, the
/// insertion lands exactly at `j`.
proof fn lemma_insert_at(x: AliasView, s: Seq<AliasView>, j: int)
    requires
        0 <= j <= s.len(),
        forall|p: int| 0 <= p < j ==> lex_le(key_of(s[p]), key_of(x)),
        j == s.len() || !lex_le(key_of(s[j as int]), key_of(x)),
    ensures
        insert_sorted(x, s) == s.subrange(0, j) + seq![x] + s.subrange(j, s.len() as int),
    decreases s.len(),
{
    if s.len() == 0 {
        assert(insert_sorted(x, s) =~= s.subrange(0, j) + seq![x] + s.subrange(
            j,
            s.len() as int,
        ));
    } else if j == 0 {
        assert(!lex_le(key_of(s[0]), key_of(x)));
        assert(insert_sorted(x, s) =~= s.subrange(0, 0) + seq![x] + s.subrange(0, s.len() as int));
    } else {
        assert(lex_le(key_of(s[0]), key_of(x)));
        let t = s.drop_first();
        assert(forall|p: int| 0 <= p < j - 1 ==> t[p] == s[p + 1]);
        assert(j - 1 == t.len() || t[j - 1] == s[j as int]);
        lemma_insert_at(x, t, j - 1);
        assert(insert_sorted(x, s) == seq![s[0]] + insert_sorted(x, t));
        assert(insert_sorted(x, s) =~= s.subrange(0, j) + seq![x] + s.subrange(j, s.len() as int));
    }
}

/// Where a record with lowercased key `kx` goes in `r`: just after the last
/// leading record whose key is at or below `kx`.
fn insert_position(r: &Vec<GitAlias>, kx: &String) -> (j: usize)
    ensures
        j <= r@.len(),
        forall|p: int| 0 <= p < j ==> lex_le(key_of(views_of(r@)[p]), kx@),
        j == r@.len() || !lex_le(key_of(views_of(r@)[j as int]), kx@),
{
    let mut j: usize = 0;
    while j < r.len()
        invariant
            j <= r@.len(),
            forall|p: int| 0 <= p < j ==> lex_le(key_of(views_of(r@)[p]), kx@),
        decreases r@.len() - j,
    {
        let kj = lowercase(r[j].name.as_str());
        if !lex_le_exec(kj.as_str(), kx.as_str()) {
            proof {
                assert(kj@ == key_of(views_of(r@)[j as int]));
            }
            return j;
        }
        j += 1;
    }
    j
}

/// Sort alias records by case-insensitive name, keeping records with equal
/// keys in their arrival order.
pub fn sort_aliases(list: Vec<GitAlias>) -> (r: Vec<GitAlias>)
    ensures
        views_of(r@) == sort_by_name(views_of(list@)),
{
    let mut v = list;
    let mut r: Vec<GitAlias> = Vec::new();
    let ghost orig = views_of(v@);
    let ghost done: int = 0;
    while v.len() > 0
        invariant
            0 <= done <= orig.len(),
            views_of(v@) =~= orig.subrange(done, orig.len() as int),
            views_of(r@) == sort_by_name(orig.subrange(0, done)),
        decreases v@.len(),
    {
        let ghost pre = views_of(r@);
        let ghost vpre = views_of(v@);
        proof {
            assert(vpre.len() == v@.len());
            assert(done < orig.len());
        }
        let ghost vseq = v@;
        let x = v.remove(0);
        proof {
            assert(x@ == vpre[0]);
            assert(x@ == orig[done]);
            assert forall|k: int| 0 <= k < views_of(v@).len() implies views_of(v@)[k] == orig[done
                + 1 + k] by {
                assert(v@[k] == vseq[k + 1]);
                assert(views_of(v@)[k] == vseq[k + 1]@);
                assert(vpre[k + 1] == vseq[k + 1]@);
                assert(vpre[k + 1] == orig.subrange(done, orig.len() as int)[k + 1]);
            }
            assert(views_of(v@) =~= orig.subrange(done + 1, orig.len() as int));
        }
        let kx = lowercase(x.name.as_str());
        let j = insert_position(&r, &kx);
        proof {
            lemma_insert_at(x@, pre, j as int);
        }
        r.insert(j, x);
        proof {
            let cur = orig.subrange(0, done + 1);
            assert(cur.drop_last() =~= orig.subrange(0, done));
            assert(cur.last() == orig[done]);
            assert(views_of(r@) =~= pre.subrange(0, j as int) + seq![x@] + pre.subrange(
                j as int,
                pre.len() as int,
            ));
            done = done + 1;
        }
    }
    proof {
        assert(orig.subrange(0, orig.len() as int) =~= orig);
        assert(views_of(list@) == orig);
    }
    r
}


/// Index of the first blank at or after `a`, or the length of `s`.
pub open spec fn space_end(s: Seq<char>, a: int) -> int
    decreases s.len() - a,
    when 0 <= a <= s.len()
{
    if a < s.len() && s[a] != ' ' {
        space_end(s, a + 1)
    } else {
        a
    }
}

proof fn lemma_space_end(s: Seq<char>, a: int)
    requires
        0 <= a <= s.len(),
    ensures
        a <= space_end(s, a) <= s.len(),
        space_end(s, a) == s.len() || s[space_end(s, a)] == ' ',
    decreases s.len() - a,
{
    if a < s.len() && s[a] != ' ' {
        lemma_space_end(s, a + 1);
    }
}

fn scan_space(s: &Vec<char>, a: usize) -> (j: usize)
    requires
        a <= s.len(),
    ensures
        j == space_end(s@, a as int),
        a <= j <= s.len(),
{
    proof {
        lemma_space_end(s@, a as int);
    }
    let mut j = a;
    while j < s.len() && s[j] != ' '
        invariant
            a <= j <= s.len(),
            space_end(s@, a as int) == space_end(s@, j as int),
        decreases s.len() - j,
    {
        j += 1;
    }
    j
}

/// A raw output line without its trailing carriage return.
pub open spec fn clean_line(line: Seq<char>) -> Seq<char> {
    if line.len() > 0 && line.last() == '\r' {
        line.drop_last()
    } else {
        line
    }
}

/// The name and command one raw output line yields: the text before the
/// first blank is the key (a leading `alias.` is stripped off), the text
/// after it is the command verbatim; a line without a blank yields nothing.
pub open spec fn line_fields(raw: Seq<char>) -> Option<(Seq<char>, Seq<char>)> {
    let line = clean_line(raw);
    let sp = space_end(line, 0);
    if sp >= line.len() {
        Option::None
    } else {
        let key = line.subrange(0, sp);
        let cmd = line.subrange(sp + 1, line.len() as int);
        let name = if key.len() >= 6 && key.subrange(0, 6) == "alias."@ {
            key.subrange(6, key.len() as int)
        } else {
            key
        };
        Option::Some((name, cmd))
    }
}

/// The alias rows a whole raw output yields, line by line, in order.
pub open spec fn output_rows(
    s: Seq<char>,
    from: int,
    scope: Seq<char>,
    lp: Option<Seq<char>>,
) -> Seq<AliasView>
    decreases s.len() - from,
    when 0 <= from <= s.len()
    via output_rows_dec
{
    if from >= s.len() {
        Seq::empty()
    } else {
        let rest = output_rows(s, next_line_start(s, from), scope, lp);
        match line_fields(s.subrange(from, nl_end(s, from))) {
            Option::Some((n, c)) => seq![
                AliasView {
                    name: n,
                    command: c,
                    scope: scope,
                    local_path: lp,
                    score: Option::None,
                },
            ] + rest,
            Option::None => rest,
        }
    }
}

#[via_fn]
proof fn output_rows_dec(s: Seq<char>, from: int, scope: Seq<char>, lp: Option<Seq<char>>) {
    if 0 <= from < s.len() {
        lemma_nl_end(s, from);
    }
}

fn clone_opt_string(o: &Option<String>) -> (r: Option<String>)
    ensures
        match r {
            Option::Some(x) => o is Some && x@ == o.unwrap()@,
            Option::None => o is None,
        },
{
    match o {
        Option::Some(x) => Option::Some(x.clone()),
        Option::None => Option::None,
    }
}

/// The view of an optional path.
pub open spec fn opt_view(o: Option<String>) -> Option<Seq<char>> {
    match o {
        Option::Some(p) => Option::Some(p@),
        Option::None => Option::None,
    }
}

/// Parse one query's raw line-oriented output into alias records.
pub fn parse_alias_output(output: &str, scope: &str, local_path: &Option<String>) -> (r: Vec<
    GitAlias,
>)
    ensures
        views_of(r@) == output_rows(output@, 0, scope@, opt_view(*local_path)),
{
    let s = to_chars(output);
    let alias_pat = to_chars("alias.");
    proof {
        reveal_strlit("alias.");
    }
    let ghost lpv = opt_view(*local_path);
    let ghost target = output_rows(s@, 0, scope@, lpv);
    let mut r: Vec<GitAlias> = Vec::new();
    let mut i: usize = 0;
    while i < s.len()
        invariant
            s@ == output@,
            alias_pat@ == "alias."@,
            alias_pat@.len() == 6,
            i <= s@.len(),
            lpv == opt_view(*local_path),
            target == output_rows(s@, 0, scope@, lpv),
            views_of(r@) + output_rows(s@, i as int, scope@, lpv) == target,
        decreases s@.len() - i,
    {
        let ghost pre = views_of(r@);
        let e = scan_nl(&s, i);
        let e2 = if e > i && s[e - 1] == '\r' {
            e - 1
        } else {
            e
        };
        let ghost raw = s@.subrange(i as int, e as int);
        let ghost line = s@.subrange(i as int, e2 as int);
        proof {
            if e > i && s@[e - 1] == '\r' {
                assert(raw.last() == s@[e - 1]);
                assert(raw.drop_last() =~= line);
            }
            assert(clean_line(raw) == line);
        }
        let line_str = output.substring_char(i, e2);
        let lv = to_chars(&line_str);
        let sp = scan_space(&lv, 0);
        proof {
            assert(space_end(line, 0) == sp);
        }
        if sp < lv.len() {
            let name_str = if sp >= 6 && pat_at_exec(&lv, 0, &alias_pat) {
                line_str.substring_char(6, sp)
            } else {
                line_str.substring_char(0, sp)
            };
            let cmd_str = line_str.substring_char(sp + 1, lv.len());
            proof {
                let key = line.subrange(0, sp as int);
                if sp >= 6 {
                    assert(key.subrange(0, 6) =~= line.subrange(0, 6));
                    if pat_at(line, 0, "alias."@) {
                        assert(key.subrange(0, 6) == "alias."@);
                        assert(name_str@ =~= key.subrange(6, key.len() as int));
                    } else {
                        assert(key.subrange(0, 6) != "alias."@);
                        assert(name_str@ =~= key);
                    }
                } else {
                    assert(name_str@ =~= key);
                }
                assert(cmd_str@ =~= line.subrange(sp + 1, line.len() as int));
            }
            let rec = GitAlias {
                name: name_str.to_owned(),
                command: cmd_str.to_owned(),
                scope: scope.to_owned(),
                local_path: clone_opt_string(local_path),
                score: Option::None,
            };
            proof {
                assert(line_fields(raw) == Option::Some((name_str@, cmd_str@)));
                assert(rec@ == (AliasView {
                    name: name_str@,
                    command: cmd_str@,
                    scope: scope@,
                    local_path: lpv,
                    score: Option::None,
                }));
            }
            r.push(rec);
            proof {
                assert(views_of(r@) =~= pre.push(rec@));
                let nxt = next_line_start(s@, i as int);
                assert(output_rows(s@, i as int, scope@, lpv) == seq![rec@] + output_rows(
                    s@,
                    nxt,
                    scope@,
                    lpv,
                ));
                assert(views_of(r@) + output_rows(s@, nxt, scope@, lpv) =~= pre + output_rows(
                    s@,
                    i as int,
                    scope@,
                    lpv,
                ));
            }
        } else {
            proof {
                assert(line_fields(raw) is None);
                assert(output_rows(s@, i as int, scope@, lpv) == output_rows(
                    s@,
                    next_line_start(s@, i as int),
                    scope@,
                    lpv,
                ));
            }
        }
        i = if e < s.len() {
            e + 1
        } else {
            e
        };
    }
    proof {
        assert(output_rows(s@, s@.len() as int, scope@, lpv) == Seq::<AliasView>::empty());
        assert(views_of(r@) =~= target);
    }
    r
}

/// The score a record picks out of the mapping: its name's value, or zero.
pub open spec fn score_value(scores: Map<Seq<char>, int>, name: Seq<char>) -> u64 {
    if scores.contains_key(name) {
        scores[name] as u64
    } else {
        0
    }
}

/// The records with their scores attached from the mapping.
pub open spec fn attached(s: Seq<AliasView>, scores: Map<Seq<char>, int>) -> Seq<AliasView> {
    Seq::new(
        s.len(),
        |i: int|
            AliasView {
                name: s[i].name,
                command: s[i].command,
                scope: s[i].scope,
                local_path: s[i].local_path,
                score: Option::Some(score_value(scores, s[i].name)),
            },
    )
}

/// Attach each record's score from the mapping, zero for an absent name.
pub fn attach_scores(list: &mut Vec<GitAlias>, scores: &ScoreMap)
    requires
        scores.wf(),
    ensures
        views_of(final(list)@) == attached(views_of(old(list)@), scores@),
{
    let mut i: usize = 0;
    while i < list.len()
        invariant
            scores.wf(),
            i <= list@.len(),
            list@.len() == old(list)@.len(),
            forall|p: int| i <= p < list@.len() ==> list@[p] == old(list)@[p],
            forall|p: int|
                0 <= p < i ==> views_of(list@)[p] == attached(views_of(old(list)@), scores@)[p],
        decreases list@.len() - i,
    {
        let v: u64 = match scores.get(list[i].name.as_str()) {
            Option::Some(v) => v,
            Option::None => 0,
        };
        proof {
            assert(v == score_value(scores@, list@[i as int].name@));
        }
        let ghost lpre = list@;
        list[i].score = Option::Some(v);
        i += 1;
        proof {
            let ghost att = attached(views_of(old(list)@), scores@);
            assert forall|p: int| 0 <= p < i implies views_of(list@)[p] == att[p] by {
                if p < i - 1 {
                    assert(list@[p] == lpre[p]);
                    assert(views_of(lpre)[p] == att[p]);
                } else {
                    assert(lpre[p] == old(list)@[p]);
                    assert(list@[p].name == lpre[p].name && list@[p].command == lpre[p].command
                        && list@[p].scope == lpre[p].scope && list@[p].local_path
                        == lpre[p].local_path && list@[p].score == Option::Some(v));
                }
            }
        }
    }
    proof {
        assert(views_of(list@) =~= attached(views_of(old(list)@), scores@));
    }
}


/// One external-tool invocation the aggregator wants run: the argument
/// vector after `git`, and an optional working directory.
#[derive(Debug)]
pub struct GitInvocation {
    pub args: Vec<String>,
    pub cwd: Option<String>,
}

/// The views of a vector of strings.
pub open spec fn strs_view(v: Seq<String>) -> Seq<Seq<char>> {
    Seq::new(v.len(), |i: int| v[i]@)
}

pub open spec fn global_wanted(scope: Seq<char>) -> bool {
    scope == "global"@ || scope == "all"@
}

pub open spec fn local_wanted(scope: Seq<char>) -> bool {
    scope == "local"@ || scope == "all"@
}

/// Decide whether a discovery over `scope` issues the global query.
pub fn global_wanted_exec(scope: &str) -> (r: bool)
    ensures
        r == global_wanted(scope@),
{
    crate::text::str_eq(scope, "global") || crate::text::str_eq(scope, "all")
}

/// Which local paths a discovery over `scope` scans: every known repository
/// when the scope is `all` or no path is pinned, else just the pinned one.
pub open spec fn local_scan_paths(
    scope: Seq<char>,
    pinned: Option<Seq<char>>,
    repos: Seq<Seq<char>>,
) -> Seq<Seq<char>> {
    if !local_wanted(scope) {
        Seq::empty()
    } else if scope == "all"@ || pinned is None {
        repos
    } else {
        seq![pinned.unwrap()]
    }
}

/// The discovery argument vector for one configuration scope.
pub open spec fn discovery_args(global: bool) -> Seq<Seq<char>> {
    seq![
        "config"@,
        if global {
            "--global"@
        } else {
            "--local"@
        },
        "--get-regexp"@,
        "^alias\\."@,
    ]
}

/// The argument vector that writes one alias.
pub open spec fn set_args(scope: Seq<char>, name: Seq<char>, command: Seq<char>) -> Seq<Seq<char>> {
    seq!["config"@, "--"@ + scope, "alias."@ + name, command]
}

/// The argument vector that removes one alias.
pub open spec fn unset_args(scope: Seq<char>, name: Seq<char>) -> Seq<Seq<char>> {
    seq!["config"@, "--"@ + scope, "--unset"@, "alias."@ + name]
}

/// The duplicate-alias error text.
pub open spec fn dup_message(name: Seq<char>, scope: Seq<char>) -> Seq<char> {
    "Alias \""@ + name + "\" already exists in "@ + scope + " config"@
}

/// Where a mutation runs: the supplied path, else the pinned one, and only
/// for local scope.
pub open spec fn spec_resolve(
    scope: Seq<char>,
    supplied: Option<Seq<char>>,
    pinned: Option<Seq<char>>,
) -> Option<Seq<char>> {
    if scope == "local"@ {
        if supplied is Some {
            supplied
        } else {
            pinned
        }
    } else {
        Option::None
    }
}

/// The exit-code text of a failure without error output, as debug-formatted.
pub open spec fn code_text(code: Option<i32>) -> Seq<char> {
    match code {
        Option::None => "None"@,
        Option::Some(c) => if c >= 0 {
            "Some("@ + dec_spec(c as int) + ")"@
        } else {
            "Some(-"@ + dec_spec(-(c as int)) + ")"@
        },
    }
}

/// What one finished tool invocation means: not-found is the distinct
/// not-installed error; success hands back trimmed output; exit code 1 of a
/// discovery query means no aliases rather than an error; otherwise the
/// trimmed error output speaks, or the exit code when there is none.
pub open spec fn interpret_spec(
    not_found: bool,
    success: bool,
    code: Option<i32>,
    out: Seq<char>,
    err: Seq<char>,
    get_regexp: bool,
) -> Result<Seq<char>, Seq<char>> {
    if not_found {
        Result::Err("Git is not installed or not found in PATH"@)
    } else if success {
        Result::Ok(trim_spec(out))
    } else if code == Option::Some(1i32) && get_regexp {
        Result::Ok(Seq::empty())
    } else if trim_spec(err).len() == 0 {
        Result::Err("Git command failed with exit code "@ + code_text(code))
    } else {
        Result::Err(trim_spec(err))
    }
}

/// The alias rows one local query slot contributes.
pub open spec fn slot_rows(slot: (Seq<char>, Option<Seq<char>>)) -> Seq<AliasView> {
    match slot.1 {
        Option::Some(o) => output_rows(o, 0, "local"@, Option::Some(slot.0)),
        Option::None => Seq::empty(),
    }
}

/// The rows of all local query slots, in order; a failed slot contributes
/// nothing and never aborts the batch.
pub open spec fn local_rows(slots: Seq<(Seq<char>, Option<Seq<char>>)>) -> Seq<AliasView>
    decreases slots.len(),
{
    if slots.len() == 0 {
        Seq::empty()
    } else {
        local_rows(slots.drop_last()) + slot_rows(slots.last())
    }
}

/// Everything a discovery run turned up: the global query's rows, then the
/// local slots' rows.
pub open spec fn discovered_rows(
    go: Option<Seq<char>>,
    slots: Seq<(Seq<char>, Option<Seq<char>>)>,
) -> Seq<AliasView> {
    (match go {
        Option::Some(o) => output_rows(o, 0, "global"@, Option::None),
        Option::None => Seq::empty(),
    }) + local_rows(slots)
}

/// The views of the local query slots.
pub open spec fn slots_view(s: Seq<(String, Option<String>)>) -> Seq<
    (Seq<char>, Option<Seq<char>>),
> {
    Seq::new(
        s.len(),
        |i: int|
            (
                s[i].0@,
                match s[i].1 {
                    Option::Some(o) => Option::Some(o@),
                    Option::None => Option::None,
                },
            ),
    )
}

/// The alias aggregator: pins an optional local path, remembers selected
/// repositories, and ranks what discovery turns up. The external tool runs
/// outside; this service plans each invocation and interprets its output.
pub struct GitService {
    pub local_path: Option<String>,
    pub known_repos: KnownReposService,
    pub ranking: RankingService,
}

impl GitService {
    pub open spec fn wf(&self) -> bool {
        &&& self.known_repos.wf()
        &&& self.ranking.wf()
    }

    pub fn new() -> (r: GitService)
        ensures
            r.wf(),
            r.local_path is None,
            r.known_repos@ == Set::<Seq<char>>::empty(),
            r.ranking.history_cache.entries@.len() == 0,
            r.ranking.last_fetch_time is None,
    {
        GitService {
            local_path: Option::None,
            known_repos: KnownReposService::new(),
            ranking: RankingService::new(),
        }
    }

    /// Pin (or clear) the local path; a newly pinned path joins the known
    /// repositories. The result says whether the registry must be persisted.
    pub fn set_local_path(&mut self, path: Option<String>) -> (persist: bool)
        requires
            old(self).wf(),
        ensures
            final(self).wf(),
            opt_view(final(self).local_path) == opt_view(path),
            final(self).ranking == old(self).ranking,
            match opt_view(path) {
                Option::Some(p) => final(self).known_repos@ == old(self).known_repos@.insert(p)
                    && persist == !old(self).known_repos@.contains(p),
                Option::None => final(self).known_repos@ == old(self).known_repos@ && persist
                    == false,
            },
    {
        let persist: bool = match &path {
            Option::Some(p) => self.known_repos.add(p.as_str()),
            Option::None => false,
        };
        self.local_path = path;
        persist
    }

    pub fn get_local_path(&self) -> (r: Option<String>)
        ensures
            opt_view(r) == opt_view(self.local_path),
    {
        clone_opt_string(&self.local_path)
    }

    /// Classify one alias command text; same contract as the free validator.
    pub fn validate_command(&self, command: &str) -> (r: ValidationResult)
        ensures
            r.valid == !ws_only(command@),
            ws_only(command@) ==> r.errors.deep_view() == seq!["Command cannot be empty"@]
                && r.warnings@.len() == 0,
            !ws_only(command@) ==> r.errors@.len() == 0 && r.warnings.deep_view() == warnings_spec(
                command@,
            ),
    {
        crate::validate::validate_command(command)
    }

    /// The local paths a discovery over `scope` must query, one invocation
    /// per path.
    pub fn scan_paths(&self, scope: &str) -> (r: Vec<String>)
        ensures
            strs_view(r@) == local_scan_paths(
                scope@,
                opt_view(self.local_path),
                strs_view(self.known_repos.paths@),
            ),
    {
        if crate::text::str_eq(scope, "local") || crate::text::str_eq(scope, "all") {
            let pinned = match &self.local_path {
                Option::Some(_) => true,
                Option::None => false,
            };
            if crate::text::str_eq(scope, "all") || !pinned {
                let r = self.known_repos.get_all();
                proof {
                    assert(strs_view(r@) =~= strs_view(self.known_repos.paths@));
                }
                r
            } else {
                let mut r: Vec<String> = Vec::new();
                match &self.local_path {
                    Option::Some(p) => {
                        r.push(p.clone());
                    },
                    Option::None => {},
                }
                proof {
                    assert(strs_view(r@) =~= seq![opt_view(self.local_path).unwrap()]);
                }
                r
            }
        } else {
            let r: Vec<String> = Vec::new();
            proof {
                assert(strs_view(r@) =~= Seq::<Seq<char>>::empty());
            }
            r
        }
    }

    /// The discovery invocation for one configuration scope.
    pub fn discovery_invocation(global: bool, path: Option<String>) -> (r: GitInvocation)
        ensures
            strs_view(r.args@) == discovery_args(global),
            opt_view(r.cwd) == opt_view(path),
    {
        let mut args: Vec<String> = Vec::new();
        args.push("config".to_owned());
        if global {
            args.push("--global".to_owned());
        } else {
            args.push("--local".to_owned());
        }
        args.push("--get-regexp".to_owned());
        args.push("^alias\\.".to_owned());
        proof {
            assert(strs_view(args@) =~= discovery_args(global));
        }
        GitInvocation { args, cwd: path }
    }

    /// Interpret one finished tool invocation.
    pub fn interpret_git_output(
        not_found: bool,
        success: bool,
        code: Option<i32>,
        stdout: &str,
        stderr: &str,
        get_regexp: bool,
    ) -> (r: Result<String, String>)
        ensures
            match r {
                Result::Ok(o) => interpret_spec(not_found, success, code, stdout@, stderr@, get_regexp)
                    == Result::<Seq<char>, Seq<char>>::Ok(o@),
                Result::Err(e) => interpret_spec(not_found, success, code, stdout@, stderr@, get_regexp)
                    == Result::<Seq<char>, Seq<char>>::Err(e@),
            },
    {
        if not_found {
            return Result::Err("Git is not installed or not found in PATH".to_owned());
        }
        if success {
            return Result::Ok(trim_exec(stdout));
        }
        let code_is_one = match code {
            Option::Some(c) => c == 1i32,
            Option::None => false,
        };
        if code_is_one && get_regexp {
            return Result::Ok(String::new());
        }
        let err_t = trim_exec(stderr);
        if err_t.as_str().unicode_len() == 0 {
            let mut msg = "Git command failed with exit code ".to_owned();
            match code {
                Option::None => {
                    msg.append("None");
                },
                Option::Some(c) => {
                    if c >= 0 {
                        msg.append("Some(");
                        let d = dec_u64(c as u64);
                        msg.append(d.as_str());
                        msg.append(")");
                    } else {
                        msg.append("Some(-");
                        let m: u64 = (-(c as i64)) as u64;
                        proof {
                            assert(m as int == -(c as int));
                        }
                        let d = dec_u64(m);
                        msg.append(d.as_str());
                        msg.append(")");
                    }
                },
            }
            proof {
                assert(trim_spec(stderr@).len() == 0);
                assert(msg@ =~= "Git command failed with exit code "@ + code_text(code));
            }
            return Result::Err(msg);
        }
        proof {
            assert(trim_spec(stderr@).len() != 0);
        }
        Result::Err(err_t)
    }

    /// Where a mutation over `scope` runs.
    pub fn resolve_target(&self, scope: &str, local_path: &Option<String>) -> (r: Option<String>)
        ensures
            opt_view(r) == spec_resolve(scope@, opt_view(*local_path), opt_view(self.local_path)),
    {
        if crate::text::str_eq(scope, "local") {
            match local_path {
                Option::Some(p) => Option::Some(p.clone()),
                Option::None => clone_opt_string(&self.local_path),
            }
        } else {
            Option::None
        }
    }

    /// Plan an alias addition: refused with a descriptive error when the
    /// name already exists among the discovered aliases of the target scope.
    pub fn add_alias(
        &self,
        existing: &Vec<GitAlias>,
        name: &str,
        command: &str,
        scope: &str,
        local_path: &Option<String>,
    ) -> (r: Result<GitInvocation, String>)
        ensures
            match r {
                Result::Ok(inv) => (forall|i: int|
                    0 <= i < existing@.len() ==> existing@[i].name@ != name@) && strs_view(
                    inv.args@,
                ) == set_args(scope@, name@, command@) && opt_view(inv.cwd) == spec_resolve(
                    scope@,
                    opt_view(*local_path),
                    opt_view(self.local_path),
                ),
                Result::Err(e) => (exists|i: int|
                    0 <= i < existing@.len() && existing@[i].name@ == name@) && e@ == dup_message(
                    name@,
                    scope@,
                ),
            },
    {
        let mut i: usize = 0;
        while i < existing.len()
            invariant
                i <= existing@.len(),
                forall|p: int| 0 <= p < i ==> existing@[p].name@ != name@,
            decreases existing@.len() - i,
        {
            if crate::text::str_eq(existing[i].name.as_str(), name) {
                let mut msg = "Alias \"".to_owned();
                msg.append(name);
                msg.append("\" already exists in ");
                msg.append(scope);
                msg.append(" config");
                return Result::Err(msg);
            }
            i += 1;
        }
        let mut flag = "--".to_owned();
        flag.append(scope);
        let mut key = "alias.".to_owned();
        key.append(name);
        let mut args: Vec<String> = Vec::new();
        args.push("config".to_owned());
        args.push(flag);
        args.push(key);
        args.push(command.to_owned());
        proof {
            assert(strs_view(args@) =~= set_args(scope@, name@, command@));
        }
        Result::Ok(GitInvocation { args, cwd: self.resolve_target(scope, local_path) })
    }

    /// Plan an alias update: when the name changed, a best-effort removal of
    /// the old key comes first, then the write of the new one.
    pub fn update_alias(
        &self,
        old_name: &str,
        name: &str,
        command: &str,
        scope: &str,
        local_path: &Option<String>,
    ) -> (r: (Option<GitInvocation>, GitInvocation))
        ensures
            (old_name@ != name@) <==> r.0 is Some,
            match r.0 {
                Option::Some(inv) => strs_view(inv.args@) == unset_args(scope@, old_name@)
                    && opt_view(inv.cwd) == spec_resolve(
                    scope@,
                    opt_view(*local_path),
                    opt_view(self.local_path),
                ),
                Option::None => true,
            },
            strs_view(r.1.args@) == set_args(scope@, name@, command@),
            opt_view(r.1.cwd) == spec_resolve(
                scope@,
                opt_view(*local_path),
                opt_view(self.local_path),
            ),
    {
        let unset: Option<GitInvocation> = if !crate::text::str_eq(old_name, name) {
            let mut flag = "--".to_owned();
            flag.append(scope);
            let mut key = "alias.".to_owned();
            key.append(old_name);
            let mut args: Vec<String> = Vec::new();
            args.push("config".to_owned());
            args.push(flag);
            args.push("--unset".to_owned());
            args.push(key);
            proof {
                assert(strs_view(args@) =~= unset_args(scope@, old_name@));
            }
            Option::Some(GitInvocation { args, cwd: self.resolve_target(scope, local_path) })
        } else {
            Option::None
        };
        let mut flag = "--".to_owned();
        flag.append(scope);
        let mut key = "alias.".to_owned();
        key.append(name);
        let mut args: Vec<String> = Vec::new();
        args.push("config".to_owned());
        args.push(flag);
        args.push(key);
        args.push(command.to_owned());
        proof {
            assert(strs_view(args@) =~= set_args(scope@, name@, command@));
        }
        (unset, GitInvocation { args, cwd: self.resolve_target(scope, local_path) })
    }

    /// Plan an alias removal.
    pub fn delete_alias(&self, name: &str, scope: &str, local_path: &Option<String>) -> (r:
        GitInvocation)
        ensures
            strs_view(r.args@) == unset_args(scope@, name@),
            opt_view(r.cwd) == spec_resolve(scope@, opt_view(*local_path), opt_view(self.local_path)),
    {
        let mut flag = "--".to_owned();
        flag.append(scope);
        let mut key = "alias.".to_owned();
        key.append(name);
        let mut args: Vec<String> = Vec::new();
        args.push("config".to_owned());
        args.push(flag);
        args.push("--unset".to_owned());
        args.push(key);
        proof {
            assert(strs_view(args@) =~= unset_args(scope@, name@));
        }
        GitInvocation { args, cwd: self.resolve_target(scope, local_path) }
    }

    /// Assemble a discovery run from the query outputs the caller gathered:
    /// parse each successful output (a failed one is skipped, never fatal),
    /// sort everything by case-insensitive name, and attach scores.
    pub fn get_aliases(
        &mut self,
        global_output: Option<&str>,
        local_outputs: &Vec<(String, Option<String>)>,
        now: u64,
    ) -> (r: Vec<GitAlias>)
        requires
            old(self).wf(),
        ensures
            final(self).wf(),
            final(self).local_path == old(self).local_path,
            final(self).known_repos == old(self).known_repos,
            final(self).ranking.last_fetch_time == old(self).ranking.last_fetch_time,
            ({
                let rows = discovered_rows(
                    match global_output {
                        Option::Some(o) => Option::Some(o@),
                        Option::None => Option::None,
                    },
                    slots_view(local_outputs@),
                );
                let sorted = sort_by_name(rows);
                &&& views_of(r@) == attached(
                    sorted,
                    spec_scores_result(old(self).ranking.history_cache@, sorted, now),
                )
                &&& final(self).ranking.history_cache@ == spec_cache_after(
                    old(self).ranking.history_cache@,
                    sorted,
                    now,
                )
            }),
    {
        let ghost go = match global_output {
            Option::Some(o) => Option::Some(o@),
            Option::None => Option::<Seq<char>>::None,
        };
        let ghost slots = slots_view(local_outputs@);
        let mut list: Vec<GitAlias> = Vec::new();
        let none_path: Option<String> = Option::None;
        match global_output {
            Option::Some(out) => {
                let mut parsed = parse_alias_output(out, "global", &none_path);
                list.append(&mut parsed);
                proof {
                    assert(views_of(list@) =~= output_rows(out@, 0, "global"@, Option::None));
                }
            },
            Option::None => {},
        }
        let ghost head = views_of(list@);
        let mut idx: usize = 0;
        while idx < local_outputs.len()
            invariant
                slots == slots_view(local_outputs@),
                idx <= local_outputs@.len(),
                views_of(list@) == head + local_rows(slots.subrange(0, idx as int)),
            decreases local_outputs@.len() - idx,
        {
            let ghost pre = views_of(list@);
            match &local_outputs[idx].1 {
                Option::Some(out) => {
                    let lp: Option<String> = Option::Some(local_outputs[idx].0.clone());
                    let mut parsed = parse_alias_output(out.as_str(), "local", &lp);
                    let ghost pv = views_of(parsed@);
                    proof {
                        assert(opt_view(lp) == Option::Some(slots[idx as int].0));
                        assert(pv == slot_rows(slots[idx as int]));
                    }
                    list.append(&mut parsed);
                    proof {
                        assert(views_of(list@) =~= pre + pv);
                    }
                },
                Option::None => {
                    proof {
                        assert(slot_rows(slots[idx as int]) =~= Seq::<AliasView>::empty());
                    }
                },
            }
            idx += 1;
            proof {
                let cur = slots.subrange(0, idx as int);
                assert(cur.drop_last() =~= slots.subrange(0, idx - 1));
                assert(cur.last() == slots[idx - 1]);
                assert(views_of(list@) =~= head + local_rows(cur));
            }
        }
        proof {
            assert(slots.subrange(0, slots.len() as int) =~= slots);
            assert(views_of(list@) == discovered_rows(go, slots));
        }
        let sorted = sort_aliases(list);
        let scores = self.ranking.get_scores(&sorted, now);
        let mut result = sorted;
        attach_scores(&mut result, &scores);
        result
    }
}

} // verus!
