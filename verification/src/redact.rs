//! Scrubs credential-shaped substrings out of a command line before it is
//! persisted. Two substitution passes run in order over the whole string:
//!
//! 1. Environment-assignment pass: a name that contains one of the uppercase
//!    markers KEY, SECRET, PASS, PASSWORD, POSTGRES or DB (PASSWORD is covered
//!    by its prefix PASS; SECRET preceded by an underscore, as in
//!    GITHUB_SECRET, is covered as well), continued by underscores, uppercase
//!    letters or digits up to a `=`, has everything after the `=` up to the
//!    next whitespace replaced by the placeholder, preserving `NAME=`.
//! 2. Flag-value pass: a short flag `-p` or long flag `--password` preceded by
//!    whitespace, optionally followed by one `=` or one whitespace character
//!    and a value running to the next whitespace, keeps the flag token and has
//!    the value replaced by one space and the placeholder.
//!
//! The scan is ASCII-oriented: marker names, flags and whitespace are ASCII;
//! all other characters pass through or count as value characters.
//!
//! A scrubbed value always runs to the next whitespace; quotes count as
//! value characters rather than ending it. This is deliberate and differs
//! from a quote-delimited reading of the value: stopping at a closing quote
//! would leave whatever directly follows it (`PASS='abc'def` keeps `def`)
//! visible, and a second pass would then scrub differently than the first.
//! Running to whitespace never scrubs less than the quote-delimited reading,
//! and it keeps redaction stable under repetition.
use vstd::prelude::*;

verus! {

/// The fixed literal that replaces a scrubbed value.
pub const REDACTION_PLACEHOLDER: &'static str = "[REDACTED]";

/// The placeholder as a character sequence.
pub open spec fn placeholder() -> Seq<char> {
    seq!['[', 'R', 'E', 'D', 'A', 'C', 'T', 'E', 'D', ']']
}

/// Whitespace, as both passes delimit tokens by it.
pub open spec fn is_ws_char(c: char) -> bool {
    c == ' ' || c == '\t' || c == '\n' || c == '\r'
}

/// A character that may continue an environment-variable name after a marker:
/// uppercase letters, digits and underscore.
pub open spec fn is_env_name_char(c: char) -> bool {
    ('A' <= c && c <= 'Z') || ('0' <= c && c <= '9') || c == '_'
}

/// One of the sensitive markers starts at position `i`.
pub open spec fn marker_at(s: Seq<char>, i: int) -> bool {
    &&& 0 <= i <= s.len()
    &&& {
        ||| (i + 3 <= s.len() && s[i] == 'K' && s[i + 1] == 'E' && s[i + 2] == 'Y')
        ||| (i + 6 <= s.len() && s[i] == 'S' && s[i + 1] == 'E' && s[i + 2] == 'C' && s[i + 3]
            == 'R' && s[i + 4] == 'E' && s[i + 5] == 'T')
        ||| (i + 4 <= s.len() && s[i] == 'P' && s[i + 1] == 'A' && s[i + 2] == 'S' && s[i + 3]
            == 'S')
        ||| (i + 8 <= s.len() && s[i] == 'P' && s[i + 1] == 'O' && s[i + 2] == 'S' && s[i + 3]
            == 'T' && s[i + 4] == 'G' && s[i + 5] == 'R' && s[i + 6] == 'E' && s[i + 7] == 'S')
        ||| (i + 2 <= s.len() && s[i] == 'D' && s[i + 1] == 'B')
    }
}

/// End (exclusive) of the run of environment-name characters starting at `i`.
pub open spec fn env_run_end(s: Seq<char>, i: int) -> int
    recommends
        0 <= i <= s.len(),
    decreases s.len() - i,
{
    if i < 0 || i >= s.len() || !is_env_name_char(s[i]) {
        i
    } else {
        env_run_end(s, i + 1)
    }
}

/// End (exclusive) of the run of non-whitespace characters starting at `i`.
pub open spec fn nonws_run_end(s: Seq<char>, i: int) -> int
    recommends
        0 <= i <= s.len(),
    decreases s.len() - i,
{
    if i < 0 || i >= s.len() || is_ws_char(s[i]) {
        i
    } else {
        nonws_run_end(s, i + 1)
    }
}

/// An environment assignment whose value is to be scrubbed starts at `i`:
/// a marker, continued by name characters up to a `=`.
pub open spec fn env_match_at(s: Seq<char>, i: int) -> bool {
    &&& marker_at(s, i)
    &&& env_run_end(s, i) < s.len()
    &&& s[env_run_end(s, i)] == '='
}

/// The run of environment-name characters neither moves backwards nor leaves
/// the sequence.
pub proof fn lemma_env_run_end_bounds(s: Seq<char>, i: int)
    requires
        0 <= i <= s.len(),
    ensures
        i <= env_run_end(s, i) <= s.len(),
    decreases s.len() - i,
{
    if i < s.len() && is_env_name_char(s[i]) {
        lemma_env_run_end_bounds(s, i + 1);
    }
}

/// The run of non-whitespace characters neither moves backwards nor leaves
/// the sequence.
pub proof fn lemma_nonws_run_end_bounds(s: Seq<char>, i: int)
    requires
        0 <= i <= s.len(),
    ensures
        i <= nonws_run_end(s, i) <= s.len(),
    decreases s.len() - i,
{
    if i < s.len() && !is_ws_char(s[i]) {
        lemma_nonws_run_end_bounds(s, i + 1);
    }
}

/// The environment-assignment pass from position `i` on: copies characters
/// until a match, then keeps `NAME=`, substitutes the placeholder for the
/// value (everything up to the next whitespace), and goes on after it.
pub open spec fn env_scan(s: Seq<char>, i: int) -> Seq<char>
    recommends
        0 <= i <= s.len(),
    decreases s.len() - i,
    via env_scan_decreases
{
    if i < 0 || i >= s.len() {
        Seq::empty()
    } else if env_match_at(s, i) {
        let eq = env_run_end(s, i);
        s.subrange(i, eq + 1) + placeholder() + env_scan(s, nonws_run_end(s, eq + 1))
    } else {
        seq![s[i]] + env_scan(s, i + 1)
    }
}

#[via_fn]
proof fn env_scan_decreases(s: Seq<char>, i: int) {
    if 0 <= i < s.len() && env_match_at(s, i) {
        lemma_env_run_end_bounds(s, i);
        lemma_nonws_run_end_bounds(s, env_run_end(s, i) + 1);
    }
}

/// The word `password` starts at position `w`.
pub open spec fn password_at(s: Seq<char>, w: int) -> bool {
    &&& 0 <= w
    &&& w + 8 <= s.len()
    &&& s[w] == 'p' && s[w + 1] == 'a' && s[w + 2] == 's' && s[w + 3] == 's' && s[w + 4] == 'w'
        && s[w + 5] == 'o' && s[w + 6] == 'r' && s[w + 7] == 'd'
}

/// End (exclusive) of a flag token starting at `i`, or -1 when none starts
/// there. The token is one whitespace character, one or two dashes, and the
/// word `password` or the letter `p` (the longer word preferred).
pub open spec fn flag_head_end(s: Seq<char>, i: int) -> int {
    if !(0 <= i && i + 1 < s.len() && is_ws_char(s[i]) && s[i + 1] == '-') {
        -1
    } else {
        let w = if i + 2 < s.len() && s[i + 2] == '-' {
            i + 3
        } else {
            i + 2
        };
        if password_at(s, w) {
            w + 8
        } else if w < s.len() && s[w] == 'p' {
            w + 1
        } else {
            -1
        }
    }
}

/// Start of the value belonging to a flag token that ends at `h`: one `=` or
/// one whitespace character directly after the token is part of the match.
pub open spec fn flag_value_start(s: Seq<char>, h: int) -> int {
    if 0 <= h < s.len() && (is_ws_char(s[h]) || s[h] == '=') {
        h + 1
    } else {
        h
    }
}

/// The flag-value pass from position `i` on: copies characters until a flag
/// token, then keeps the token, emits one space and the placeholder in place
/// of the value (everything up to the next whitespace), and goes on after it.
pub open spec fn flag_scan(s: Seq<char>, i: int) -> Seq<char>
    recommends
        0 <= i <= s.len(),
    decreases s.len() - i,
    via flag_scan_decreases
{
    if i < 0 || i >= s.len() {
        Seq::empty()
    } else if flag_head_end(s, i) >= 0 {
        let h = flag_head_end(s, i);
        s.subrange(i, h) + seq![' '] + placeholder() + flag_scan(
            s,
            nonws_run_end(s, flag_value_start(s, h)),
        )
    } else {
        seq![s[i]] + flag_scan(s, i + 1)
    }
}

#[via_fn]
proof fn flag_scan_decreases(s: Seq<char>, i: int) {
    if 0 <= i < s.len() && flag_head_end(s, i) >= 0 {
        let h = flag_head_end(s, i);
        assert(i < h <= s.len());
        lemma_nonws_run_end_bounds(s, flag_value_start(s, h));
    }
}

/// Full redaction: the environment-assignment pass, then the flag-value pass.
pub open spec fn spec_redact(s: Seq<char>) -> Seq<char> {
    flag_scan(env_scan(s, 0), 0)
}

fn is_ws_exec(c: char) -> (b: bool)
    ensures
        b == is_ws_char(c),
{
    c == ' ' || c == '\t' || c == '\n' || c == '\r'
}

fn is_env_name_char_exec(c: char) -> (b: bool)
    ensures
        b == is_env_name_char(c),
{
    ('A' <= c && c <= 'Z') || ('0' <= c && c <= '9') || c == '_'
}

fn marker_at_exec(s: &Vec<char>, i: usize) -> (b: bool)
    requires
        i <= s@.len(),
    ensures
        b == marker_at(s@, i as int),
{
    let n = s.len();
    (n - i >= 3 && s[i] == 'K' && s[i + 1] == 'E' && s[i + 2] == 'Y') || (n - i >= 6 && s[i] == 'S'
        && s[i + 1] == 'E' && s[i + 2] == 'C' && s[i + 3] == 'R' && s[i + 4] == 'E' && s[i + 5]
        == 'T') || (n - i >= 4 && s[i] == 'P' && s[i + 1] == 'A' && s[i + 2] == 'S' && s[i + 3]
        == 'S') || (n - i >= 8 && s[i] == 'P' && s[i + 1] == 'O' && s[i + 2] == 'S' && s[i + 3]
        == 'T' && s[i + 4] == 'G' && s[i + 5] == 'R' && s[i + 6] == 'E' && s[i + 7] == 'S') || (n
        - i >= 2 && s[i] == 'D' && s[i + 1] == 'B')
}

fn env_run_end_exec(s: &Vec<char>, i: usize) -> (j: usize)
    requires
        i <= s@.len(),
    ensures
        j == env_run_end(s@, i as int),
        i <= j <= s@.len(),
{
    let mut j = i;
    while j < s.len() && is_env_name_char_exec(s[j])
        invariant
            i <= j <= s@.len(),
            env_run_end(s@, i as int) == env_run_end(s@, j as int),
        decreases s@.len() - j,
    {
        j = j + 1;
    }
    assert(env_run_end(s@, j as int) == j);
    j
}

fn nonws_run_end_exec(s: &Vec<char>, i: usize) -> (j: usize)
    requires
        i <= s@.len(),
    ensures
        j == nonws_run_end(s@, i as int),
        i <= j <= s@.len(),
{
    let mut j = i;
    while j < s.len() && !is_ws_exec(s[j])
        invariant
            i <= j <= s@.len(),
            nonws_run_end(s@, i as int) == nonws_run_end(s@, j as int),
        decreases s@.len() - j,
    {
        j = j + 1;
    }
    assert(nonws_run_end(s@, j as int) == j);
    j
}

fn push_placeholder(out: &mut Vec<char>)
    ensures
        final(out)@ == old(out)@ + placeholder(),
{
    out.push('[');
    out.push('R');
    out.push('E');
    out.push('D');
    out.push('A');
    out.push('C');
    out.push('T');
    out.push('E');
    out.push('D');
    out.push(']');
    assert(out@ =~= old(out)@ + placeholder());
}

fn push_range(out: &mut Vec<char>, s: &Vec<char>, from: usize, to: usize)
    requires
        from <= to <= s@.len(),
    ensures
        final(out)@ == old(out)@ + s@.subrange(from as int, to as int),
{
    let mut k = from;
    while k < to
        invariant
            from <= k <= to <= s@.len(),
            out@ == old(out)@ + s@.subrange(from as int, k as int),
        decreases to - k,
    {
        out.push(s[k]);
        assert(out@ =~= old(out)@ + s@.subrange(from as int, (k + 1) as int));
        k = k + 1;
    }
    assert(out@ =~= old(out)@ + s@.subrange(from as int, to as int));
}

/// The environment-assignment pass over a character vector.
fn env_pass(s: &Vec<char>) -> (out: Vec<char>)
    ensures
        out@ == env_scan(s@, 0),
{
    let mut out: Vec<char> = Vec::new();
    let mut i: usize = 0;
    while i < s.len()
        invariant
            i <= s@.len(),
            env_scan(s@, 0) == out@ + env_scan(s@, i as int),
        decreases s@.len() - i,
    {
        if marker_at_exec(s, i) {
            let eq = env_run_end_exec(s, i);
            if eq < s.len() && s[eq] == '=' {
                push_range(&mut out, s, i, eq + 1);
                push_placeholder(&mut out);
                let next = nonws_run_end_exec(s, eq + 1);
                assert(env_scan(s@, i as int) == s@.subrange(i as int, eq + 1) + placeholder()
                    + env_scan(s@, next as int));
                i = next;
            } else {
                out.push(s[i]);
                i = i + 1;
            }
        } else {
            out.push(s[i]);
            i = i + 1;
        }
    }
    assert(env_scan(s@, i as int) =~= Seq::<char>::empty());
    assert(out@ =~= out@ + env_scan(s@, i as int));
    out
}

fn flag_head_end_exec(s: &Vec<char>, i: usize) -> (r: (bool, usize))
    requires
        i <= s@.len(),
    ensures
        r.0 ==> r.1 as int == flag_head_end(s@, i as int),
        !r.0 ==> flag_head_end(s@, i as int) == -1,
{
    let n = s.len();
    if !(n - i >= 2 && is_ws_exec(s[i]) && s[i + 1] == '-') {
        (false, 0)
    } else {
        let w: usize = if n - i >= 3 && s[i + 2] == '-' {
            i + 3
        } else {
            i + 2
        };
        if n - w >= 8 && s[w] == 'p' && s[w + 1] == 'a' && s[w + 2] == 's' && s[w + 3] == 's'
            && s[w + 4] == 'w' && s[w + 5] == 'o' && s[w + 6] == 'r' && s[w + 7] == 'd' {
            (true, w + 8)
        } else if w < n && s[w] == 'p' {
            (true, w + 1)
        } else {
            (false, 0)
        }
    }
}

/// The flag-value pass over a character vector.
fn flag_pass(s: &Vec<char>) -> (out: Vec<char>)
    ensures
        out@ == flag_scan(s@, 0),
{
    let mut out: Vec<char> = Vec::new();
    let mut i: usize = 0;
    while i < s.len()
        invariant
            i <= s@.len(),
            flag_scan(s@, 0) == out@ + flag_scan(s@, i as int),
        decreases s@.len() - i,
    {
        let (found, hu) = flag_head_end_exec(s, i);
        if found {
            assert(i < hu <= s@.len());
            push_range(&mut out, s, i, hu);
            out.push(' ');
            push_placeholder(&mut out);
            let vs: usize = if hu < s.len() && (is_ws_exec(s[hu]) || s[hu] == '=') {
                hu + 1
            } else {
                hu
            };
            let next = nonws_run_end_exec(s, vs);
            assert(flag_scan(s@, i as int) == s@.subrange(i as int, hu as int) + seq![' ']
                + placeholder() + flag_scan(s@, next as int));
            i = next;
        } else {
            out.push(s[i]);
            i = i + 1;
        }
    }
    assert(flag_scan(s@, i as int) =~= Seq::<char>::empty());
    assert(out@ =~= out@ + flag_scan(s@, i as int));
    out
}

/// The characters of a string slice, in order.
pub fn str_to_chars(s: &str) -> (out: Vec<char>)
    ensures
        out@ == s@,
{
    let n = s.unicode_len();
    let mut out: Vec<char> = Vec::new();
    let mut i: usize = 0;
    while i < n
        invariant
            i <= n,
            n == s@.len(),
            out@ == s@.subrange(0, i as int),
        decreases n - i,
    {
        out.push(s.get_char(i));
        assert(out@ =~= s@.subrange(0, (i + 1) as int));
        i = i + 1;
    }
    assert(out@ =~= s@);
    out
}

/// Relies on `core::iter::Iterator::collect` for `String`: the collected
/// string holds exactly the given characters, in order.
#[verifier::external_body]
pub fn chars_to_string(v: &Vec<char>) -> (out: String)
    ensures
        out@ == v@,
{
    v.iter().collect()
}

/// Scrubs credential-shaped substrings: the environment-assignment pass, then
/// the flag-value pass, each over the full string. Pure and total: it never
/// fails, whatever the content.
pub fn redact_command(cmd: &str) -> (out: String)
    ensures
        out@ == spec_redact(cmd@),
{
    let cs = str_to_chars(cmd);
    let envd = env_pass(&cs);
    let flagd = flag_pass(&envd);
    chars_to_string(&flagd)
}


/// No position of `s` starts an environment-assignment match or a flag
/// token: neither pass has anything to scrub.
pub open spec fn untouched(s: Seq<char>) -> bool {
    forall|i: int| 0 <= i < s.len() ==> !env_match_at(s, i) && flag_head_end(s, i) < 0
}

proof fn lemma_env_scan_untouched(s: Seq<char>, i: int)
    requires
        0 <= i <= s.len(),
        untouched(s),
    ensures
        env_scan(s, i) == s.skip(i),
    decreases s.len() - i,
{
    if i >= s.len() {
        assert(env_scan(s, i) =~= s.skip(i));
    } else {
        lemma_env_scan_untouched(s, i + 1);
        assert(!env_match_at(s, i) && flag_head_end(s, i) < 0);
        assert(env_scan(s, i) =~= s.skip(i));
    }
}

proof fn lemma_flag_scan_untouched(s: Seq<char>, i: int)
    requires
        0 <= i <= s.len(),
        untouched(s),
    ensures
        flag_scan(s, i) == s.skip(i),
    decreases s.len() - i,
{
    if i >= s.len() {
        assert(flag_scan(s, i) =~= s.skip(i));
    } else {
        lemma_flag_scan_untouched(s, i + 1);
        assert(!env_match_at(s, i) && flag_head_end(s, i) < 0);
        assert(flag_scan(s, i) =~= s.skip(i));
    }
}

/// On a command line neither pass touches, redaction is the identity, and
/// therefore redacting twice is the same as redacting once.
pub proof fn lemma_redact_untouched_idempotent(s: Seq<char>)
    requires
        untouched(s),
    ensures
        spec_redact(s) == s,
        spec_redact(spec_redact(s)) == spec_redact(s),
{
    lemma_env_scan_untouched(s, 0);
    assert(s.skip(0) =~= s);
    lemma_flag_scan_untouched(s, 0);
}

} // verus!
