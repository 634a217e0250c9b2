//! The command validator: a stateless classifier of alias command text
//! against a fixed table of dangerous patterns. Pattern hits are warnings,
//! never errors; only an empty (or whitespace-only) command is an error.
use vstd::prelude::*;

use crate::text::is_word;
use crate::text::is_ws;
use crate::text::pat_at;
use crate::text::pat_at_exec;
use crate::text::scan_ws;
use crate::text::to_chars;
use crate::text::lemma_ws_end;
use crate::text::nl_end;
use crate::text::lemma_nl_end;
use crate::text::scan_nl;
use crate::text::ws_end;
use crate::text::ws_only;
use crate::text::ws_only_exec;
use crate::text::word_char;

verus! {

/// Outcome of validating one alias command text. `valid` is false exactly
/// when `errors` is non-empty; dangerous-pattern hits only ever add warnings.
#[derive(Debug)]
pub struct ValidationResult {
    pub valid: bool,
    pub warnings: Vec<String>,
    pub errors: Vec<String>,
}

/// The flag text occurs at `k`; when `bound` is set, no word character may
/// follow it directly (the matcher's notion of a standalone token).
pub open spec fn flag_at(s: Seq<char>, k: int, flag: Seq<char>, bound: bool) -> bool {
    &&& pat_at(s, k, flag)
    &&& (!bound || k + flag.len() == s.len() || !is_word(s[k + flag.len()]))
}

/// No newline among `s[a..b)`.
pub open spec fn no_newline(s: Seq<char>, a: int, b: int) -> bool {
    forall|m: int| a <= m < b ==> s[m] != '\n'
}

/// Somewhere right of `j` the flag occurs, with the characters strictly
/// between free of newlines.
pub open spec fn gap_flag_somewhere(s: Seq<char>, j: int, flag: Seq<char>, bound: bool) -> bool {
    exists|k: int| j + 1 <= k && no_newline(s, j + 1, k) && flag_at(s, k, flag, bound)
}

/// A dangerous-pattern hit anchored at `i`: the head word at `i`, at least
/// one whitespace character after it, then the flag — either directly after
/// the whitespace run or, when `gap` is allowed, further right with the gap
/// starting in a non-whitespace character and free of newlines.
pub open spec fn danger_match_at(
    s: Seq<char>,
    i: int,
    head: Seq<char>,
    flag: Seq<char>,
    gap: bool,
    bound: bool,
) -> bool {
    &&& pat_at(s, i, head)
    &&& {
        let a = i + head.len();
        let j = ws_end(s, a);
        &&& j > a
        &&& (flag_at(s, j, flag, bound) || (gap && j < s.len() && gap_flag_somewhere(
            s,
            j,
            flag,
            bound,
        )))
    }
}

/// The pattern `head \s+ (gap?) flag` matches somewhere in `s`.
pub open spec fn danger_matches(
    s: Seq<char>,
    head: Seq<char>,
    flag: Seq<char>,
    gap: bool,
    bound: bool,
) -> bool {
    exists|i: int| danger_match_at(s, i, head, flag, gap, bound)
}

proof fn lemma_gap_witness(s: Seq<char>, j: int, k: int, flag: Seq<char>, bound: bool)
    requires
        j + 1 <= k,
        no_newline(s, j + 1, k),
        flag_at(s, k, flag, bound),
    ensures
        gap_flag_somewhere(s, j, flag, bound),
{
    assert(j + 1 <= k && no_newline(s, j + 1, k) && flag_at(s, k, flag, bound));
}

fn flag_at_exec(s: &Vec<char>, k: usize, flag: &Vec<char>, bound: bool) -> (r: bool)
    ensures
        r == flag_at(s@, k as int, flag@, bound),
{
    if !pat_at_exec(s, k, flag) {
        return false;
    }
    if bound {
        let n = s.len();
        proof {
            assert(k + flag@.len() <= n);
        }
        let e = k + flag.len();
        if e < s.len() && word_char(s[e]) {
            return false;
        }
    }
    true
}

/// Scan `s` for a dangerous-pattern hit.
fn find_danger(s: &Vec<char>, head: &Vec<char>, flag: &Vec<char>, gap: bool, bound: bool) -> (r:
    bool)
    requires
        head@.len() >= 1,
        flag@.len() >= 1,
    ensures
        r == danger_matches(s@, head@, flag@, gap, bound),
{
    let mut i: usize = 0;
    while i < s.len()
        invariant
            head@.len() >= 1,
            flag@.len() >= 1,
            i <= s@.len(),
            forall|p: int| 0 <= p < i ==> !danger_match_at(s@, p, head@, flag@, gap, bound),
        decreases s.len() - i,
    {
        if pat_at_exec(s, i, head) {
            let a = i + head.len();
            let j = scan_ws(s, a);
            proof {
                lemma_ws_end(s@, a as int);
            }
            if j > a {
                if flag_at_exec(s, j, flag, bound) {
                    proof {
                        assert(danger_match_at(s@, i as int, head@, flag@, gap, bound));
                    }
                    return true;
                }
                if gap && j < s.len() {
                    let nl = scan_nl(s, j + 1);
                    proof {
                        lemma_nl_end(s@, j + 1);
                    }
                    let mut k = j + 1;
                    while k < s.len() && k <= nl
                        invariant
                            j + 1 <= k <= s.len(),
                            nl == nl_end(s@, j + 1),
                            j < s@.len(),
                            gap,
                            head@.len() >= 1,
                            flag@.len() >= 1,
                            pat_at(s@, i as int, head@),
                            j == ws_end(s@, i + head@.len()),
                            j > i + head@.len(),
                            forall|q: int| j + 1 <= q < k ==> !flag_at(s@, q, flag@, bound),
                        decreases s.len() - k,
                    {
                        if flag_at_exec(s, k, flag, bound) {
                            proof {
                                assert(no_newline(s@, j + 1, k as int)) by {
                                    lemma_nl_end(s@, j + 1);
                                }
                                lemma_gap_witness(s@, j as int, k as int, flag@, bound);
                                assert(danger_match_at(s@, i as int, head@, flag@, gap, bound));
                            }
                            return true;
                        }
                        k += 1;
                    }
                    proof {
                        lemma_nl_end(s@, j + 1);
                        assert forall|q: int|
                            j + 1 <= q && no_newline(s@, j + 1, q) implies !flag_at(
                            s@,
                            q,
                            flag@,
                            bound,
                        ) by {
                            if flag_at(s@, q, flag@, bound) {
                                assert(q + flag@.len() <= s@.len());
                                assert(q < s@.len());
                                if q >= k {
                                    // the loop stopped at the length or at the
                                    // first newline, so q sits past a newline
                                    assert(k >= s@.len() || k > nl);
                                    assert(q > nl_end(s@, j + 1));
                                    assert(s@[nl_end(s@, j + 1)] == '\n');
                                    assert(!no_newline(s@, j + 1, q));
                                }
                            }
                        }
                    }
                }
            }
            proof {
                assert(!danger_match_at(s@, i as int, head@, flag@, gap, bound));
            }
        }
        i += 1;
    }
    proof {
        assert forall|p: int| !danger_match_at(s@, p, head@, flag@, gap, bound) by {
            if danger_match_at(s@, p, head@, flag@, gap, bound) {
                assert(0 <= p && p + head@.len() <= s@.len());
                assert(p < i);
            }
        }
    }
    false
}

/// The ordered warning list the validator produces for command text `s`:
/// each dangerous-pattern row appends its message when it matches, in table
/// order, and a leading `!` always appends the shell-escape caution last.
pub open spec fn warnings_spec(s: Seq<char>) -> Seq<Seq<char>> {
    let w0 = Seq::<Seq<char>>::empty();
    let w1 = if danger_matches(s, "rm"@, "-rf"@, false, false) || danger_matches(
        s,
        "rm"@,
        "-fr"@,
        false,
        false,
    ) || danger_matches(s, "rm"@, "--recursive"@, false, false) {
        w0.push("Contains recursive delete (rm -rf)"@)
    } else {
        w0
    };
    let w2 = if danger_matches(s, "push"@, "--force"@, true, false) {
        w1.push("Contains force push (--force)"@)
    } else {
        w1
    };
    let w3 = if danger_matches(s, "push"@, "-f"@, true, true) {
        w2.push("Contains force push (-f)"@)
    } else {
        w2
    };
    let w4 = if danger_matches(s, "reset"@, "--hard"@, false, false) {
        w3.push("Contains hard reset (reset --hard)"@)
    } else {
        w3
    };
    let w5 = if danger_matches(s, "clean"@, "-fd"@, true, false) {
        w4.push("Contains force clean (clean -fd)"@)
    } else {
        w4
    };
    let w6 = if danger_matches(s, "branch"@, "-D"@, true, false) {
        w5.push("Contains force branch delete (-D)"@)
    } else {
        w5
    };
    if s.len() > 0 && s[0] == '!' {
        w6.push("This is a shell command alias (starts with !). Use with caution."@)
    } else {
        w6
    }
}

/// Classify one alias command text. A whitespace-only command is the single
/// error case; otherwise every dangerous-pattern hit appends its warning in
/// table order, and warnings never make the command invalid.
pub fn validate_command(command: &str) -> (r: ValidationResult)
    ensures
        r.valid == !ws_only(command@),
        ws_only(command@) ==> r.errors.deep_view() == seq!["Command cannot be empty"@]
            && r.warnings@.len() == 0,
        !ws_only(command@) ==> r.errors@.len() == 0 && r.warnings.deep_view() == warnings_spec(
            command@,
        ),
{
    let mut warnings: Vec<String> = Vec::new();
    let mut errors: Vec<String> = Vec::new();
    if ws_only_exec(command) {
        errors.push("Command cannot be empty".to_owned());
        proof {
            assert(errors.deep_view() =~= seq!["Command cannot be empty"@]);
        }
        return ValidationResult { valid: false, warnings, errors };
    }
    let s = to_chars(command);
    proof {
        reveal_strlit("rm");
        reveal_strlit("-rf");
        reveal_strlit("-fr");
        reveal_strlit("--recursive");
        reveal_strlit("push");
        reveal_strlit("--force");
        reveal_strlit("-f");
        reveal_strlit("reset");
        reveal_strlit("--hard");
        reveal_strlit("clean");
        reveal_strlit("-fd");
        reveal_strlit("branch");
        reveal_strlit("-D");
    }
    let ghost w0 = Seq::<Seq<char>>::empty();
    if find_danger(&s, &to_chars("rm"), &to_chars("-rf"), false, false) || find_danger(
        &s,
        &to_chars("rm"),
        &to_chars("-fr"),
        false,
        false,
    ) || find_danger(&s, &to_chars("rm"), &to_chars("--recursive"), false, false) {
        warnings.push("Contains recursive delete (rm -rf)".to_owned());
    }
    let ghost w1 = warnings.deep_view();
    if find_danger(&s, &to_chars("push"), &to_chars("--force"), true, false) {
        warnings.push("Contains force push (--force)".to_owned());
    }
    let ghost w2 = warnings.deep_view();
    if find_danger(&s, &to_chars("push"), &to_chars("-f"), true, true) {
        warnings.push("Contains force push (-f)".to_owned());
    }
    let ghost w3 = warnings.deep_view();
    if find_danger(&s, &to_chars("reset"), &to_chars("--hard"), false, false) {
        warnings.push("Contains hard reset (reset --hard)".to_owned());
    }
    let ghost w4 = warnings.deep_view();
    if find_danger(&s, &to_chars("clean"), &to_chars("-fd"), true, false) {
        warnings.push("Contains force clean (clean -fd)".to_owned());
    }
    let ghost w5 = warnings.deep_view();
    if find_danger(&s, &to_chars("branch"), &to_chars("-D"), true, false) {
        warnings.push("Contains force branch delete (-D)".to_owned());
    }
    let ghost w6 = warnings.deep_view();
    if s.len() > 0 && s[0] == '!' {
        warnings.push("This is a shell command alias (starts with !). Use with caution.".to_owned());
    }
    proof {
        assert(warnings.deep_view() =~= warnings_spec(command@));
    }
    ValidationResult { valid: true, warnings, errors }
}

proof fn lemma_push_keeps_contains(s: Seq<Seq<char>>, x: Seq<char>, y: Seq<char>)
    requires
        s.contains(y),
    ensures
        s.push(x).contains(y),
{
    let idx = choose|i: int| 0 <= i < s.len() && s[i] == y;
    assert(s.push(x)[idx] == y);
}

/// Warnings never flip validity: a command text that contains `reset --hard`
/// anywhere always gets the hard-reset warning, yet is not whitespace-only,
/// so `validate_command` still reports it as valid with no errors.
pub proof fn lemma_hard_reset_warns_but_valid(s: Seq<char>, i: int)
    requires
        0 <= i,
        i + 12 <= s.len(),
        s.subrange(i, i + 12) == "reset --hard"@,
    ensures
        warnings_spec(s).contains("Contains hard reset (reset --hard)"@),
        !ws_only(s),
{
    reveal_strlit("reset --hard");
    reveal_strlit("reset");
    reveal_strlit("--hard");
    let w = s.subrange(i, i + 12);
    assert(s.subrange(i, i + 5) =~= w.subrange(0, 5));
    assert(w.subrange(0, 5) =~= "reset"@);
    assert(pat_at(s, i, "reset"@));
    assert(s[i + 5] == w[5] && w[5] == ' ');
    assert(s[i + 6] == w[6] && w[6] == '-');
    assert(is_ws(s[i + 5]));
    assert(!is_ws(s[i + 6]));
    assert(ws_end(s, i + 6) == i + 6);
    assert(ws_end(s, i + 5) == i + 6);
    assert(s.subrange(i + 6, i + 12) =~= w.subrange(6, 12));
    assert(w.subrange(6, 12) =~= "--hard"@);
    assert(flag_at(s, i + 6, "--hard"@, false));
    assert(danger_match_at(s, i, "reset"@, "--hard"@, false, false));
    assert(danger_matches(s, "reset"@, "--hard"@, false, false));
    assert(s[i] == w[0] && w[0] == 'r');
    assert(!is_ws(s[i]));

    let msg = "Contains hard reset (reset --hard)"@;
    let w0 = Seq::<Seq<char>>::empty();
    let w1 = if danger_matches(s, "rm"@, "-rf"@, false, false) || danger_matches(
        s,
        "rm"@,
        "-fr"@,
        false,
        false,
    ) || danger_matches(s, "rm"@, "--recursive"@, false, false) {
        w0.push("Contains recursive delete (rm -rf)"@)
    } else {
        w0
    };
    let w2 = if danger_matches(s, "push"@, "--force"@, true, false) {
        w1.push("Contains force push (--force)"@)
    } else {
        w1
    };
    let w3 = if danger_matches(s, "push"@, "-f"@, true, true) {
        w2.push("Contains force push (-f)"@)
    } else {
        w2
    };
    let w4 = w3.push(msg);
    assert(w4[w3.len() as int] == msg);
    assert(w4.contains(msg));
    let w5 = if danger_matches(s, "clean"@, "-fd"@, true, false) {
        w4.push("Contains force clean (clean -fd)"@)
    } else {
        w4
    };
    if danger_matches(s, "clean"@, "-fd"@, true, false) {
        lemma_push_keeps_contains(w4, "Contains force clean (clean -fd)"@, msg);
    }
    let w6 = if danger_matches(s, "branch"@, "-D"@, true, false) {
        w5.push("Contains force branch delete (-D)"@)
    } else {
        w5
    };
    if danger_matches(s, "branch"@, "-D"@, true, false) {
        lemma_push_keeps_contains(w5, "Contains force branch delete (-D)"@, msg);
    }
    if s.len() > 0 && s[0] == '!' {
        lemma_push_keeps_contains(w6, "This is a shell command alias (starts with !). Use with caution."@, msg);
    }
    assert(warnings_spec(s).contains(msg));
}

} // verus!
