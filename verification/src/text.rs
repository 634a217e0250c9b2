//! Character-level text primitives shared by the command validator and the
//! shell-history scanner: character classes, run scanning, and substring
//! matching, each with an exact specification.
use vstd::prelude::*;

verus! {

/// ASCII whitespace: the separator class the scanners recognise.
pub open spec fn is_ws(c: char) -> bool {
    c == ' ' || c == '\t' || c == '\n' || c == '\r' || c == '\u{b}' || c == '\u{c}'
}

/// The Unicode White_Space class (25 code points), the class `str::trim`
/// and `str::split_whitespace` strip. The scanners for history tokens and
/// dangerous patterns use the narrower ASCII class above instead.
pub open spec fn is_white_space(c: char) -> bool {
    ||| is_ws(c)
    ||| c == '\u{85}'
    ||| c == '\u{a0}'
    ||| c == '\u{1680}'
    ||| ('\u{2000}' <= c && c <= '\u{200a}')
    ||| c == '\u{2028}'
    ||| c == '\u{2029}'
    ||| c == '\u{202f}'
    ||| c == '\u{205f}'
    ||| c == '\u{3000}'
}

/// Word characters: letters, digits and underscore.
pub open spec fn is_word(c: char) -> bool {
    ('a' <= c && c <= 'z') || ('A' <= c && c <= 'Z') || ('0' <= c && c <= '9') || c == '_'
}

/// Characters a history signature's subcommand may contain: word characters
/// or a hyphen.
pub open spec fn is_sub(c: char) -> bool {
    is_word(c) || c == '-'
}

/// Decimal digits.
pub open spec fn is_digit(c: char) -> bool {
    '0' <= c && c <= '9'
}

pub fn ws_char(c: char) -> (r: bool)
    ensures
        r == is_ws(c),
{
    c == ' ' || c == '\t' || c == '\n' || c == '\r' || c == '\u{b}' || c == '\u{c}'
}

pub fn white_space_char(c: char) -> (r: bool)
    ensures
        r == is_white_space(c),
{
    ws_char(c) || c == '\u{85}' || c == '\u{a0}' || c == '\u{1680}' || ('\u{2000}' <= c && c
        <= '\u{200a}') || c == '\u{2028}' || c == '\u{2029}' || c == '\u{202f}' || c
        == '\u{205f}' || c == '\u{3000}'
}

pub fn word_char(c: char) -> (r: bool)
    ensures
        r == is_word(c),
{
    ('a' <= c && c <= 'z') || ('A' <= c && c <= 'Z') || ('0' <= c && c <= '9') || c == '_'
}

pub fn sub_char(c: char) -> (r: bool)
    ensures
        r == is_sub(c),
{
    word_char(c) || c == '-'
}

pub fn digit_char(c: char) -> (r: bool)
    ensures
        r == is_digit(c),
{
    '0' <= c && c <= '9'
}

/// The characters of a string slice as a vector, for index-based scanning.
pub fn to_chars(s: &str) -> (r: Vec<char>)
    ensures
        r@ == s@,
{
    let n = s.unicode_len();
    let mut r: Vec<char> = Vec::new();
    let mut i: usize = 0;
    while i < n
        invariant
            n == s@.len(),
            i <= n,
            r@ == s@.subrange(0, i as int),
        decreases n - i,
    {
        r.push(s.get_char(i));
        i += 1;
        proof {
            assert(r@ =~= s@.subrange(0, i as int));
        }
    }
    proof {
        assert(s@.subrange(0, n as int) =~= s@);
    }
    r
}

/// Character-for-character equality of two string slices.
pub fn str_eq(a: &str, b: &str) -> (r: bool)
    ensures
        r == (a@ == b@),
{
    let na = a.unicode_len();
    let nb = b.unicode_len();
    if na != nb {
        return false;
    }
    let mut i: usize = 0;
    while i < na
        invariant
            na == a@.len(),
            na == b@.len(),
            i <= na,
            forall|k: int| 0 <= k < i ==> a@[k] == b@[k],
        decreases na - i,
    {
        if a.get_char(i) != b.get_char(i) {
            return false;
        }
        i += 1;
    }
    proof {
        assert(a@ =~= b@);
    }
    true
}

/// Index of the first newline at or after `a`, or the length of `s`.
pub open spec fn nl_end(s: Seq<char>, a: int) -> int
    decreases s.len() - a,
    when 0 <= a <= s.len()
{
    if a < s.len() && s[a] != '\n' {
        nl_end(s, a + 1)
    } else {
        a
    }
}

pub proof fn lemma_nl_end(s: Seq<char>, a: int)
    requires
        0 <= a <= s.len(),
    ensures
        a <= nl_end(s, a) <= s.len(),
        forall|m: int| a <= m < nl_end(s, a) ==> s[m] != '\n',
        nl_end(s, a) == s.len() || s[nl_end(s, a)] == '\n',
    decreases s.len() - a,
{
    if a < s.len() && s[a] != '\n' {
        lemma_nl_end(s, a + 1);
    }
}

pub fn scan_nl(s: &Vec<char>, a: usize) -> (j: usize)
    requires
        a <= s.len(),
    ensures
        j == nl_end(s@, a as int),
        a <= j <= s.len(),
{
    proof {
        lemma_nl_end(s@, a as int);
    }
    let mut j = a;
    while j < s.len() && s[j] != '\n'
        invariant
            a <= j <= s.len(),
            nl_end(s@, a as int) == nl_end(s@, j as int),
        decreases s.len() - j,
    {
        j += 1;
    }
    j
}

/// Index of the first semicolon at or after `a`, or the length of `s`.
pub open spec fn semi_end(s: Seq<char>, a: int) -> int
    decreases s.len() - a,
    when 0 <= a <= s.len()
{
    if a < s.len() && s[a] != ';' {
        semi_end(s, a + 1)
    } else {
        a
    }
}

pub proof fn lemma_semi_end(s: Seq<char>, a: int)
    requires
        0 <= a <= s.len(),
    ensures
        a <= semi_end(s, a) <= s.len(),
        semi_end(s, a) == s.len() || s[semi_end(s, a)] == ';',
    decreases s.len() - a,
{
    if a < s.len() && s[a] != ';' {
        lemma_semi_end(s, a + 1);
    }
}

pub fn scan_semi(s: &Vec<char>, a: usize) -> (j: usize)
    requires
        a <= s.len(),
    ensures
        j == semi_end(s@, a as int),
        a <= j <= s.len(),
{
    proof {
        lemma_semi_end(s@, a as int);
    }
    let mut j = a;
    while j < s.len() && s[j] != ';'
        invariant
            a <= j <= s.len(),
            semi_end(s@, a as int) == semi_end(s@, j as int),
        decreases s.len() - j,
    {
        j += 1;
    }
    j
}

/// `pat` occurs in `s` starting at index `i`.
pub open spec fn pat_at(s: Seq<char>, i: int, pat: Seq<char>) -> bool {
    &&& 0 <= i
    &&& i + pat.len() <= s.len()
    &&& s.subrange(i, i + pat.len()) == pat
}

pub fn pat_at_exec(s: &Vec<char>, i: usize, pat: &Vec<char>) -> (r: bool)
    ensures
        r == pat_at(s@, i as int, pat@),
{
    if i > s.len() || s.len() - i < pat.len() {
        return false;
    }
    let mut k: usize = 0;
    while k < pat.len()
        invariant
            i + pat.len() <= s.len(),
            k <= pat.len(),
            forall|m: int| 0 <= m < k ==> s@[i + m] == pat@[m],
        decreases pat.len() - k,
    {
        if s[i + k] != pat[k] {
            proof {
                assert(s@.subrange(i as int, i + pat@.len())[k as int] == s@[i + k]);
            }
            return false;
        }
        k += 1;
    }
    proof {
        assert(s@.subrange(i as int, i + pat@.len()) =~= pat@);
    }
    true
}

/// End of the maximal whitespace run starting at `a`.
pub open spec fn ws_end(s: Seq<char>, a: int) -> int
    decreases s.len() - a,
    when 0 <= a <= s.len()
{
    if a < s.len() && is_ws(s[a]) {
        ws_end(s, a + 1)
    } else {
        a
    }
}

pub proof fn lemma_ws_end(s: Seq<char>, a: int)
    requires
        0 <= a <= s.len(),
    ensures
        a <= ws_end(s, a) <= s.len(),
        forall|k: int| a <= k < ws_end(s, a) ==> is_ws(s[k]),
        ws_end(s, a) == s.len() || !is_ws(s[ws_end(s, a)]),
    decreases s.len() - a,
{
    if a < s.len() && is_ws(s[a]) {
        lemma_ws_end(s, a + 1);
    }
}

/// Scan past the whitespace run starting at `a`.
pub fn scan_ws(s: &Vec<char>, a: usize) -> (j: usize)
    requires
        a <= s.len(),
    ensures
        j == ws_end(s@, a as int),
{
    let mut j = a;
    while j < s.len() && ws_char(s[j])
        invariant
            a <= j <= s.len(),
            ws_end(s@, a as int) == ws_end(s@, j as int),
        decreases s.len() - j,
    {
        j += 1;
    }
    j
}

/// End of the maximal run of Unicode white space starting at `a`.
pub open spec fn white_end(s: Seq<char>, a: int) -> int
    decreases s.len() - a,
    when 0 <= a <= s.len()
{
    if a < s.len() && is_white_space(s[a]) {
        white_end(s, a + 1)
    } else {
        a
    }
}

pub proof fn lemma_white_end(s: Seq<char>, a: int)
    requires
        0 <= a <= s.len(),
    ensures
        a <= white_end(s, a) <= s.len(),
        forall|k: int| a <= k < white_end(s, a) ==> is_white_space(s[k]),
        white_end(s, a) == s.len() || !is_white_space(s[white_end(s, a)]),
    decreases s.len() - a,
{
    if a < s.len() && is_white_space(s[a]) {
        lemma_white_end(s, a + 1);
    }
}

pub fn scan_white(s: &Vec<char>, a: usize) -> (j: usize)
    requires
        a <= s.len(),
    ensures
        j == white_end(s@, a as int),
        a <= j <= s.len(),
{
    proof {
        lemma_white_end(s@, a as int);
    }
    let mut j = a;
    while j < s.len() && white_space_char(s[j])
        invariant
            a <= j <= s.len(),
            white_end(s@, a as int) == white_end(s@, j as int),
        decreases s.len() - j,
    {
        j += 1;
    }
    j
}

/// End of the maximal run of non-white-space characters starting at `a`.
pub open spec fn non_white_end(s: Seq<char>, a: int) -> int
    decreases s.len() - a,
    when 0 <= a <= s.len()
{
    if a < s.len() && !is_white_space(s[a]) {
        non_white_end(s, a + 1)
    } else {
        a
    }
}

pub proof fn lemma_non_white_end(s: Seq<char>, a: int)
    requires
        0 <= a <= s.len(),
    ensures
        a <= non_white_end(s, a) <= s.len(),
    decreases s.len() - a,
{
    if a < s.len() && !is_white_space(s[a]) {
        lemma_non_white_end(s, a + 1);
    }
}

pub fn scan_non_white(s: &Vec<char>, a: usize) -> (j: usize)
    requires
        a <= s.len(),
    ensures
        j == non_white_end(s@, a as int),
        a <= j <= s.len(),
{
    proof {
        lemma_non_white_end(s@, a as int);
    }
    let mut j = a;
    while j < s.len() && !white_space_char(s[j])
        invariant
            a <= j <= s.len(),
            non_white_end(s@, a as int) == non_white_end(s@, j as int),
        decreases s.len() - j,
    {
        j += 1;
    }
    j
}

/// End of the maximal run of subcommand characters starting at `a`.
pub open spec fn sub_end(s: Seq<char>, a: int) -> int
    decreases s.len() - a,
    when 0 <= a <= s.len()
{
    if a < s.len() && is_sub(s[a]) {
        sub_end(s, a + 1)
    } else {
        a
    }
}

pub proof fn lemma_sub_end(s: Seq<char>, a: int)
    requires
        0 <= a <= s.len(),
    ensures
        a <= sub_end(s, a) <= s.len(),
    decreases s.len() - a,
{
    if a < s.len() && is_sub(s[a]) {
        lemma_sub_end(s, a + 1);
    }
}

pub fn scan_sub(s: &Vec<char>, a: usize) -> (j: usize)
    requires
        a <= s.len(),
    ensures
        j == sub_end(s@, a as int),
        a <= j <= s.len(),
{
    proof {
        lemma_sub_end(s@, a as int);
    }
    let mut j = a;
    while j < s.len() && sub_char(s[j])
        invariant
            a <= j <= s.len(),
            sub_end(s@, a as int) == sub_end(s@, j as int),
        decreases s.len() - j,
    {
        j += 1;
    }
    j
}

/// End of the maximal run of decimal digits starting at `a`.
pub open spec fn digits_end(s: Seq<char>, a: int) -> int
    decreases s.len() - a,
    when 0 <= a <= s.len()
{
    if a < s.len() && is_digit(s[a]) {
        digits_end(s, a + 1)
    } else {
        a
    }
}

pub proof fn lemma_digits_end(s: Seq<char>, a: int)
    requires
        0 <= a <= s.len(),
    ensures
        a <= digits_end(s, a) <= s.len(),
        forall|k: int| a <= k < digits_end(s, a) ==> is_digit(s[k]),
    decreases s.len() - a,
{
    if a < s.len() && is_digit(s[a]) {
        lemma_digits_end(s, a + 1);
    }
}

pub fn scan_digits(s: &Vec<char>, a: usize) -> (j: usize)
    requires
        a <= s.len(),
    ensures
        j == digits_end(s@, a as int),
        a <= j <= s.len(),
{
    proof {
        lemma_digits_end(s@, a as int);
    }
    let mut j = a;
    while j < s.len() && digit_char(s[j])
        invariant
            a <= j <= s.len(),
            digits_end(s@, a as int) == digits_end(s@, j as int),
        decreases s.len() - j,
    {
        j += 1;
    }
    j
}

/// Every character of `s` is Unicode white space (true of the empty
/// string): the texts `str::trim` turns empty.
pub open spec fn ws_only(s: Seq<char>) -> bool {
    forall|i: int| 0 <= i < s.len() ==> is_white_space(s[i])
}

pub fn ws_only_exec(s: &str) -> (r: bool)
    ensures
        r == ws_only(s@),
{
    let n = s.unicode_len();
    let mut i: usize = 0;
    while i < n
        invariant
            n == s@.len(),
            i <= n,
            forall|k: int| 0 <= k < i ==> is_white_space(s@[k]),
        decreases n - i,
    {
        if !white_space_char(s.get_char(i)) {
            return false;
        }
        i += 1;
    }
    true
}

/// The first token of `s`, delimited by Unicode white space as
/// `str::split_whitespace` delimits it; empty when `s` is white space only.
pub open spec fn first_token(s: Seq<char>) -> Seq<char> {
    let a = white_end(s, 0);
    s.subrange(a, non_white_end(s, a))
}

pub fn first_token_exec(s: &str) -> (r: String)
    ensures
        r@ == first_token(s@),
{
    let chars = to_chars(s);
    let a = scan_white(&chars, 0);
    let b = scan_non_white(&chars, a);
    s.substring_char(a, b).to_owned()
}


/// The decimal digit characters, least significant last.
pub open spec fn dec_spec(n: int) -> Seq<char>
    decreases n,
    when n >= 0
{
    let digit = "0123456789"@[n % 10];
    if n < 10 {
        seq![digit]
    } else {
        dec_spec(n / 10).push(digit)
    }
}

/// Render an integer in decimal.
pub fn dec_u64(n: u64) -> (r: String)
    ensures
        r@ == dec_spec(n as int),
    decreases n,
{
    let ds = "0123456789";
    proof {
        reveal_strlit("0123456789");
    }
    let d = (n % 10) as usize;
    let dc = ds.substring_char(d, d + 1);
    proof {
        assert(dc@ =~= seq![ds@[d as int]]);
    }
    if n < 10 {
        dc.to_owned()
    } else {
        let mut r = dec_u64(n / 10);
        r.append(dc);
        proof {
            assert(r@ =~= dec_spec((n / 10) as int).push(ds@[(n % 10) as int]));
        }
        r
    }
}

/// How many digits a value renders to.
pub proof fn lemma_dec_len(n: int)
    requires
        n >= 0,
    ensures
        dec_spec(n).len() >= 1,
        n < 10 ==> dec_spec(n).len() == 1,
        n < 100 ==> dec_spec(n).len() <= 2,
        n < 1000 ==> dec_spec(n).len() <= 3,
        n < 10000 ==> dec_spec(n).len() <= 4,
    decreases n,
{
    if n >= 10 {
        lemma_dec_len(n / 10);
    }
}

/// Start of the maximal run of Unicode white space ending at `b` (scanning
/// backwards).
pub open spec fn rtrim_at(s: Seq<char>, b: int) -> int
    decreases b,
    when 0 <= b <= s.len()
{
    if b > 0 && is_white_space(s[b - 1]) {
        rtrim_at(s, b - 1)
    } else {
        b
    }
}

pub proof fn lemma_rtrim_at(s: Seq<char>, b: int)
    requires
        0 <= b <= s.len(),
    ensures
        0 <= rtrim_at(s, b) <= b,
    decreases b,
{
    if b > 0 && is_white_space(s[b - 1]) {
        lemma_rtrim_at(s, b - 1);
    }
}

/// The text with leading and trailing Unicode white space removed, as
/// `str::trim` strips it: empty when white space is all there is.
pub open spec fn trim_spec(s: Seq<char>) -> Seq<char> {
    let a = white_end(s, 0);
    let b = rtrim_at(s, s.len() as int);
    if a < b {
        s.subrange(a, b)
    } else {
        Seq::empty()
    }
}

/// Strip leading and trailing white space.
pub fn trim_exec(s: &str) -> (r: String)
    ensures
        r@ == trim_spec(s@),
{
    let chars = to_chars(s);
    let a = scan_white(&chars, 0);
    proof {
        lemma_rtrim_at(s@, s@.len() as int);
    }
    let mut b = chars.len();
    while b > 0 && white_space_char(chars[b - 1])
        invariant
            0 <= b <= s@.len(),
            chars@ == s@,
            rtrim_at(s@, s@.len() as int) == rtrim_at(s@, b as int),
        decreases b,
    {
        b -= 1;
    }
    if a < b {
        s.substring_char(a, b).to_owned()
    } else {
        String::new()
    }
}

} // verus!
