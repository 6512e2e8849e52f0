//! The record codec: the persisted record shape and its newline-delimited
//! wire form, one JSON object per line with the short keys `ts`, `user`,
//! `session`, `shell`, `cmd`, `cwd`, `exit` and `dur`. The codec renames the
//! short keys to the semantic field names; the rest of the crate never sees
//! wire names. Both timestamps and durations are in milliseconds (see
//! `crate::duration`), fixed here at the codec boundary.
//!
//! The codec reads exactly the canonical form it writes: the keys in the
//! fixed order above, no whitespace inside the object, strings with the
//! escapes `\\` `\"` `\n` `\t` `\r`, and plain decimal numbers of at
//! most eighteen digits. Leading and trailing whitespace around the object
//! is tolerated. A line of any other shape — reordered keys, interior
//! spacing, missing fields — counts as malformed; the producer hook emits
//! the canonical form.
//!
//! A line that fails to decode is not fatal: `parse_log_file` reports it in a
//! count and excludes it from the returned records, so one malformed line
//! cannot block a whole sync pass.
use vstd::prelude::*;

verus! {

/// Which shell produced a record.
#[derive(Clone, Copy, PartialEq, Eq, Structural, Debug)]
pub enum ShellKind {
    Bash,
    Zsh,
    Other,
}

/// One logged shell invocation. `timestamp` is milliseconds since the Unix
/// epoch at command completion; `duration_ms` is elapsed wall-clock
/// milliseconds; `session` is a UUID-shaped per-shell-session identifier.
/// `cmd` is the command line as typed: the sync orchestrator redacts it
/// before the record is persisted, never after.
#[derive(Debug, Clone)]
pub struct CommandEntry {
    pub timestamp: u64,
    pub user: String,
    pub session: String,
    pub shell_type: ShellKind,
    pub cmd: String,
    pub cwd: String,
    pub exit_code: i32,
    pub duration_ms: u64,
}

/// The mathematical shape of a record: strings as character sequences.
pub ghost struct RecView {
    pub timestamp: u64,
    pub user: Seq<char>,
    pub session: Seq<char>,
    pub shell_type: ShellKind,
    pub cmd: Seq<char>,
    pub cwd: Seq<char>,
    pub exit_code: i32,
    pub duration_ms: u64,
}

impl DeepView for CommandEntry {
    type V = RecView;

    open spec fn deep_view(&self) -> RecView {
        self.view()
    }
}

impl View for CommandEntry {
    type V = RecView;

    open spec fn view(&self) -> RecView {
        RecView {
            timestamp: self.timestamp,
            user: self.user@,
            session: self.session@,
            shell_type: self.shell_type,
            cmd: self.cmd@,
            cwd: self.cwd@,
            exit_code: self.exit_code,
            duration_ms: self.duration_ms,
        }
    }
}

// ---------------------------------------------------------------------------
// Decimal digits
// ---------------------------------------------------------------------------
pub open spec fn is_digit_char(c: char) -> bool {
    '0' <= c && c <= '9'
}

/// The digit character for a value below ten.
pub open spec fn digit_char(d: int) -> char {
    ((48 + d) as u8) as char
}

/// The numeric value of a digit character.
pub open spec fn digit_val(c: char) -> int {
    c as int - 48
}

/// The decimal digits of `n`, most significant first, no leading zeros.
pub open spec fn dec_digits(n: nat) -> Seq<char>
    decreases n,
{
    if n < 10 {
        seq![digit_char(n as int)]
    } else {
        dec_digits(n / 10) + seq![digit_char((n % 10) as int)]
    }
}

/// The value of a digit sequence read in base ten.
pub open spec fn dec_val(s: Seq<char>) -> nat
    decreases s.len(),
{
    if s.len() == 0 {
        0
    } else {
        dec_val(s.drop_last()) * 10 + (if 0 <= digit_val(s.last()) {
            digit_val(s.last()) as nat
        } else {
            0
        })
    }
}

/// Ten to the `k`.
pub open spec fn pow10(k: nat) -> nat
    decreases k,
{
    if k == 0 {
        1
    } else {
        10 * pow10((k - 1) as nat)
    }
}

/// Reading back the digits of `n` yields `n`, every digit is a digit
/// character, and `n` below `pow10(k)` takes at most `k` digits.
pub proof fn lemma_dec_digits(n: nat)
    ensures
        dec_val(dec_digits(n)) == n,
        dec_digits(n).len() >= 1,
        forall|k: int| 0 <= k < dec_digits(n).len() ==> is_digit_char(#[trigger] dec_digits(n)[k]),
    decreases n,
{
    if n < 10 {
        let d = digit_char(n as int);
        assert(dec_digits(n) == seq![d]);
        assert(seq![d].drop_last() =~= Seq::<char>::empty());
        assert(seq![d].last() == d);
        assert(dec_val(Seq::<char>::empty()) == 0);
        assert((d as int) == 48 + n);
        assert(digit_val(d) == n);
        assert(dec_val(dec_digits(n)) == n);
    } else {
        lemma_dec_digits(n / 10);
        let t = dec_digits(n / 10);
        let d = digit_char((n % 10) as int);
        assert(dec_digits(n) == t + seq![d]);
        assert((t + seq![d]).drop_last() =~= t);
        assert((t + seq![d]).last() == d);
        assert(dec_val(dec_digits(n)) == dec_val(t) * 10 + (n % 10));
        assert(n / 10 * 10 + n % 10 == n) by {
            vstd::arithmetic::div_mod::lemma_fundamental_div_mod(n as int, 10);
        };
    }
}

/// `n` below `pow10(k)` has at most `k` digits.
pub proof fn lemma_dec_digits_len(n: nat, k: nat)
    requires
        k >= 1,
        n < pow10(k),
    ensures
        dec_digits(n).len() <= k,
    decreases k,
{
    if n < 10 {
    } else {
        assert(k >= 2) by {
            if k == 1 {
                assert(pow10(0nat) == 1);
                assert(pow10(1nat) == 10);
            }
        };
        assert(n / 10 < pow10((k - 1) as nat)) by {
            assert(pow10(k) == 10 * pow10((k - 1) as nat));
            vstd::arithmetic::div_mod::lemma_fundamental_div_mod(n as int, 10);
        };
        lemma_dec_digits_len(n / 10, (k - 1) as nat);
    }
}

/// A digit sequence of at most eighteen digits stays below `u64::MAX`.
pub proof fn lemma_dec_val_bound(s: Seq<char>, k: nat)
    requires
        s.len() <= k,
        forall|i: int| 0 <= i < s.len() ==> is_digit_char(#[trigger] s[i]),
    ensures
        dec_val(s) < pow10(k),
    decreases s.len(),
{
    if s.len() == 0 {
        assert(pow10(k) >= 1) by {
            lemma_pow10_pos(k);
        };
    } else {
        assert(k >= 1);
        lemma_dec_val_bound(s.drop_last(), (k - 1) as nat);
        assert(dec_val(s.drop_last()) <= pow10((k - 1) as nat) - 1);
        assert(0 <= digit_val(s.last()) <= 9);
        assert(dec_val(s) <= (pow10((k - 1) as nat) - 1) * 10 + 9) by (nonlinear_arith)
            requires
                dec_val(s.drop_last()) <= pow10((k - 1) as nat) - 1,
                dec_val(s) == dec_val(s.drop_last()) * 10 + digit_val(s.last()),
                0 <= digit_val(s.last()) <= 9,
        ;
        assert(pow10(k) == 10 * pow10((k - 1) as nat));
    }
}

pub proof fn lemma_pow10_pos(k: nat)
    ensures
        pow10(k) >= 1,
    decreases k,
{
    if k > 0 {
        lemma_pow10_pos((k - 1) as nat);
    }
}

/// The largest digit count the parser accepts; values of eighteen decimal
/// digits always fit in a `u64`.
pub const MAX_DEC_DIGITS: usize = 18;

/// Upper bound (exclusive) on numbers the wire format carries: one more
/// digit than `MAX_DEC_DIGITS` allows.
pub open spec fn wire_num_bound() -> nat {
    pow10(18)
}

// ---------------------------------------------------------------------------
// String escaping
// ---------------------------------------------------------------------------
/// How one character is written inside a wire string: quote, backslash and
/// the three common control characters are escaped, everything else is
/// itself.
pub open spec fn esc_char(c: char) -> Seq<char> {
    if c == '"' {
        seq!['\\', '"']
    } else if c == '\\' {
        seq!['\\', '\\']
    } else if c == '\n' {
        seq!['\\', 'n']
    } else if c == '\t' {
        seq!['\\', 't']
    } else if c == '\r' {
        seq!['\\', 'r']
    } else {
        seq![c]
    }
}

/// A whole string in its wire form, without the surrounding quotes.
pub open spec fn esc_str(s: Seq<char>) -> Seq<char>
    decreases s.len(),
{
    if s.len() == 0 {
        Seq::empty()
    } else {
        esc_char(s[0]) + esc_str(s.skip(1))
    }
}

// ---------------------------------------------------------------------------
// Encoding
// ---------------------------------------------------------------------------
/// The wire name of a shell kind.
pub open spec fn shell_name(k: ShellKind) -> Seq<char> {
    match k {
        ShellKind::Bash => "bash"@,
        ShellKind::Zsh => "zsh"@,
        ShellKind::Other => "other"@,
    }
}

/// The decimal form of an `i32`, with a leading minus for negatives.
pub open spec fn dec_i32(v: i32) -> Seq<char> {
    if v < 0 {
        seq!['-'] + dec_digits((-(v as int)) as nat)
    } else {
        dec_digits(v as nat)
    }
}

/// One record in its wire form: a single JSON object line, keys in fixed
/// order.
pub open spec fn spec_encode(r: RecView) -> Seq<char> {
    "{\"ts\":"@ + dec_digits(r.timestamp as nat) + ",\"user\":\""@ + esc_str(r.user)
        + "\",\"session\":\""@ + esc_str(r.session) + "\",\"shell\":\""@ + shell_name(r.shell_type)
        + "\",\"cmd\":\""@ + esc_str(r.cmd) + "\",\"cwd\":\""@ + esc_str(r.cwd) + "\",\"exit\":"@
        + dec_i32(r.exit_code) + ",\"dur\":"@ + dec_digits(r.duration_ms as nat) + "}"@
}

/// Appends the characters of a literal.
fn push_lit(out: &mut Vec<char>, lit: &str)
    ensures
        final(out)@ == old(out)@ + lit@,
{
    let n = lit.unicode_len();
    let mut k: usize = 0;
    while k < n
        invariant
            k <= n,
            n == lit@.len(),
            out@ == old(out)@ + lit@.subrange(0, k as int),
        decreases n - k,
    {
        out.push(lit.get_char(k));
        assert(out@ =~= old(out)@ + lit@.subrange(0, (k + 1) as int));
        k = k + 1;
    }
    assert(out@ =~= old(out)@ + lit@);
}

/// Appends the decimal digits of `n`.
fn push_u64(out: &mut Vec<char>, n: u64)
    ensures
        final(out)@ == old(out)@ + dec_digits(n as nat),
    decreases n,
{
    if n < 10 {
        out.push((48 + n as u8) as char);
        assert(out@ =~= old(out)@ + dec_digits(n as nat));
    } else {
        push_u64(out, n / 10);
        out.push((48 + (n % 10) as u8) as char);
        assert(out@ =~= old(out)@ + dec_digits(n as nat));
    }
}

/// Appends the decimal form of `v`, minus sign included.
fn push_i32(out: &mut Vec<char>, v: i32)
    ensures
        final(out)@ == old(out)@ + dec_i32(v),
{
    if v < 0 {
        out.push('-');
        let m: u64 = (-(v as i64)) as u64;
        push_u64(out, m);
        assert(out@ =~= old(out)@ + dec_i32(v));
    } else {
        push_u64(out, v as u64);
    }
}

/// Appends a string in its escaped wire form.
fn push_escaped(out: &mut Vec<char>, s: &str)
    ensures
        final(out)@ == old(out)@ + esc_str(s@),
{
    let n = s.unicode_len();
    let mut k: usize = 0;
    while k < n
        invariant
            k <= n,
            n == s@.len(),
            out@ == old(out)@ + esc_str(s@.subrange(0, k as int)),
        decreases n - k,
    {
        let c = s.get_char(k);
        if c == '"' {
            out.push('\\');
            out.push('"');
        } else if c == '\\' {
            out.push('\\');
            out.push('\\');
        } else if c == '\n' {
            out.push('\\');
            out.push('n');
        } else if c == '\t' {
            out.push('\\');
            out.push('t');
        } else if c == '\r' {
            out.push('\\');
            out.push('r');
        } else {
            out.push(c);
        }
        proof {
            lemma_esc_str_snoc(s@, k as int);
            assert(out@ =~= old(out)@ + esc_str(s@.subrange(0, k as int)) + esc_char(s@[k as int]));
        }
        k = k + 1;
    }
    assert(s@.subrange(0, n as int) =~= s@);
}

/// Escaping one more character appends its escape.
proof fn lemma_esc_str_snoc(s: Seq<char>, k: int)
    requires
        0 <= k < s.len(),
    ensures
        esc_str(s.subrange(0, k + 1)) == esc_str(s.subrange(0, k)) + esc_char(s[k]),
    decreases k,
{
    if k == 0 {
        let u = s.subrange(0, 1);
        assert(u.len() == 1 && u[0] == s[0]);
        assert(u.skip(1) =~= Seq::<char>::empty());
        assert(esc_str(u.skip(1)) == esc_str(Seq::<char>::empty()));
        assert(esc_str(Seq::<char>::empty()) == Seq::<char>::empty());
        assert(esc_str(u) == esc_char(s[0]) + esc_str(u.skip(1)));
        assert(esc_char(s[0]) + Seq::<char>::empty() =~= esc_char(s[0]));
        assert(esc_str(s.subrange(0, 0)) =~= Seq::<char>::empty());
    } else {
        let t = s.skip(1);
        lemma_esc_str_snoc(t, k - 1);
        assert(s.subrange(0, k + 1).skip(1) =~= t.subrange(0, k));
        assert(s.subrange(0, k).skip(1) =~= t.subrange(0, k - 1));
        assert(s.subrange(0, k + 1)[0] == s[0]);
        assert(s.subrange(0, k)[0] == s[0]);
        assert(esc_str(s.subrange(0, k + 1)) == esc_char(s[0]) + esc_str(t.subrange(0, k)));
        assert(esc_str(s.subrange(0, k)) == esc_char(s[0]) + esc_str(t.subrange(0, k - 1)));
        assert(t[k - 1] == s[k]);
        assert(esc_char(s[0]) + (esc_str(t.subrange(0, k - 1)) + esc_char(t[k - 1])) =~= (esc_char(
            s[0],
        ) + esc_str(t.subrange(0, k - 1))) + esc_char(t[k - 1]));
    }
}

impl CommandEntry {
    /// The wire name of this record's shell kind.
    pub fn shell_wire_name(&self) -> (r: &'static str)
        ensures
            r@ == shell_name(self.shell_type),
    {
        match self.shell_type {
            ShellKind::Bash => "bash",
            ShellKind::Zsh => "zsh",
            ShellKind::Other => "other",
        }
    }
}

/// Encodes one record as one wire-format line (without a trailing newline).
pub fn encode_entry(e: &CommandEntry) -> (out: String)
    ensures
        out@ == spec_encode(e@),
{
    let mut out: Vec<char> = Vec::new();
    push_lit(&mut out, "{\"ts\":");
    push_u64(&mut out, e.timestamp);
    push_lit(&mut out, ",\"user\":\"");
    push_escaped(&mut out, e.user.as_str());
    push_lit(&mut out, "\",\"session\":\"");
    push_escaped(&mut out, e.session.as_str());
    push_lit(&mut out, "\",\"shell\":\"");
    push_lit(&mut out, e.shell_wire_name());
    push_lit(&mut out, "\",\"cmd\":\"");
    push_escaped(&mut out, e.cmd.as_str());
    push_lit(&mut out, "\",\"cwd\":\"");
    push_escaped(&mut out, e.cwd.as_str());
    push_lit(&mut out, "\",\"exit\":");
    push_i32(&mut out, e.exit_code);
    push_lit(&mut out, ",\"dur\":");
    push_u64(&mut out, e.duration_ms);
    push_lit(&mut out, "}");
    assert(out@ =~= spec_encode(e@));
    crate::redact::chars_to_string(&out)
}

// ---------------------------------------------------------------------------
// Parsing
// ---------------------------------------------------------------------------
/// End (exclusive) of the run of whitespace characters starting at `i`.
pub open spec fn ws_run_end(s: Seq<char>, i: int) -> int
    decreases s.len() - i,
{
    if i < 0 || i >= s.len() || !crate::redact::is_ws_char(s[i]) {
        i
    } else {
        ws_run_end(s, i + 1)
    }
}

/// End (exclusive) of the run of digit characters starting at `i`.
pub open spec fn digits_end(s: Seq<char>, i: int) -> int
    decreases s.len() - i,
{
    if i < 0 || i >= s.len() || !is_digit_char(s[i]) {
        i
    } else {
        digits_end(s, i + 1)
    }
}

/// The run of digits stays inside the sequence, every character in it is a
/// digit, and the character after it (if any) is not.
pub proof fn lemma_digits_end(s: Seq<char>, i: int)
    requires
        0 <= i <= s.len(),
    ensures
        i <= digits_end(s, i) <= s.len(),
        forall|k: int| i <= k < digits_end(s, i) ==> is_digit_char(#[trigger] s[k]),
        digits_end(s, i) < s.len() ==> !is_digit_char(s[digits_end(s, i)]),
    decreases s.len() - i,
{
    if i < s.len() && is_digit_char(s[i]) {
        lemma_digits_end(s, i + 1);
    }
}

/// `Some(j)` when the characters of `lit` stand at `i`, where `j` is the
/// position after them.
pub open spec fn expect_at(s: Seq<char>, i: int, lit: Seq<char>) -> Option<int> {
    if 0 <= i && i + lit.len() <= s.len() && s.subrange(i, i + lit.len()) == lit {
        Some(i + lit.len())
    } else {
        None
    }
}

/// An unsigned decimal number at `i`: at least one and at most eighteen
/// digits.
pub open spec fn parse_u64_at(s: Seq<char>, i: int) -> Option<(u64, int)> {
    let e = digits_end(s, i);
    if i < e && e - i <= MAX_DEC_DIGITS {
        Some((dec_val(s.subrange(i, e)) as u64, e))
    } else {
        None
    }
}

/// A signed decimal number at `i` that fits in an `i32`.
pub open spec fn parse_i32_at(s: Seq<char>, i: int) -> Option<(i32, int)> {
    if 0 <= i < s.len() && s[i] == '-' {
        let e = digits_end(s, i + 1);
        if i + 1 < e && e - i - 1 <= MAX_DEC_DIGITS && dec_val(s.subrange(i + 1, e))
            <= 0x8000_0000 {
            Some(((-(dec_val(s.subrange(i + 1, e)) as int)) as i32, e))
        } else {
            None
        }
    } else {
        let e = digits_end(s, i);
        if i < e && e - i <= MAX_DEC_DIGITS && dec_val(s.subrange(i, e)) <= 0x7fff_ffff {
            Some((dec_val(s.subrange(i, e)) as i32, e))
        } else {
            None
        }
    }
}

/// The character an escape code stands for, if it is a valid code.
pub open spec fn unesc(c: char) -> Option<char> {
    if c == '"' {
        Some('"')
    } else if c == '\\' {
        Some('\\')
    } else if c == 'n' {
        Some('\n')
    } else if c == 't' {
        Some('\t')
    } else if c == 'r' {
        Some('\r')
    } else {
        None
    }
}

/// A wire string body starting at `i` (after its opening quote): characters
/// and escapes up to and including the closing quote. Yields the unescaped
/// characters and the position after the closing quote.
pub open spec fn parse_str_at(s: Seq<char>, i: int) -> Option<(Seq<char>, int)>
    decreases s.len() - i,
{
    if i < 0 || i >= s.len() {
        None
    } else if s[i] == '"' {
        Some((Seq::empty(), i + 1))
    } else if s[i] == '\\' {
        if i + 1 < s.len() && unesc(s[i + 1]) is Some {
            match parse_str_at(s, i + 2) {
                Some((t, e)) => Some((seq![unesc(s[i + 1]).unwrap()] + t, e)),
                None => None,
            }
        } else {
            None
        }
    } else {
        match parse_str_at(s, i + 1) {
            Some((t, e)) => Some((seq![s[i]] + t, e)),
            None => None,
        }
    }
}

pub open spec fn is_hex_char(c: char) -> bool {
    ('0' <= c && c <= '9') || ('a' <= c && c <= 'f') || ('A' <= c && c <= 'F')
}

/// A UUID-shaped identifier: 8-4-4-4-12 hexadecimal digits joined by dashes.
pub open spec fn is_uuid_seq(t: Seq<char>) -> bool {
    &&& t.len() == 36
    &&& forall|k: int|
        0 <= k < 36 ==> (if k == 8 || k == 13 || k == 18 || k == 23 {
            t[k] == '-'
        } else {
            is_hex_char(#[trigger] t[k])
        })
}

/// The shell kind a wire name stands for; unknown names map to `Other`.
pub open spec fn shell_of(t: Seq<char>) -> ShellKind {
    if t == "bash"@ {
        ShellKind::Bash
    } else if t == "zsh"@ {
        ShellKind::Zsh
    } else {
        ShellKind::Other
    }
}

/// Only whitespace from `i` to the end.
pub open spec fn tail_blank(s: Seq<char>, i: int) -> bool {
    forall|k: int| i <= k < s.len() ==> crate::redact::is_ws_char(#[trigger] s[k])
}

/// One wire line as a record: leading whitespace, the object with its keys in
/// canonical order, trailing whitespace. `None` when the line is malformed,
/// a number is out of range, or the session is not UUID-shaped.
pub open spec fn spec_parse_line(s: Seq<char>) -> Option<RecView> {
    match expect_at(s, ws_run_end(s, 0), "{\"ts\":"@) {
        None => None,
        Some(p1) => match parse_u64_at(s, p1) {
            None => None,
            Some((ts, p2)) => match expect_at(s, p2, ",\"user\":\""@) {
                None => None,
                Some(p3) => match parse_str_at(s, p3) {
                    None => None,
                    Some((user, p4)) => match expect_at(s, p4, ",\"session\":\""@) {
                        None => None,
                        Some(p5) => match parse_str_at(s, p5) {
                            None => None,
                            Some((session, p6)) => match expect_at(s, p6, ",\"shell\":\""@) {
                                None => None,
                                Some(p7) => match parse_str_at(s, p7) {
                                    None => None,
                                    Some((shell, p8)) => match expect_at(s, p8, ",\"cmd\":\""@) {
                                        None => None,
                                        Some(p9) => match parse_str_at(s, p9) {
                                            None => None,
                                            Some((cmd, p10)) => match expect_at(
                                                s,
                                                p10,
                                                ",\"cwd\":\""@,
                                            ) {
                                                None => None,
                                                Some(p11) => match parse_str_at(s, p11) {
                                                    None => None,
                                                    Some((cwd, p12)) => match expect_at(
                                                        s,
                                                        p12,
                                                        ",\"exit\":"@,
                                                    ) {
                                                        None => None,
                                                        Some(p13) => match parse_i32_at(s, p13) {
                                                            None => None,
                                                            Some((exit, p14)) => match expect_at(
                                                                s,
                                                                p14,
                                                                ",\"dur\":"@,
                                                            ) {
                                                                None => None,
                                                                Some(p15) => match parse_u64_at(
                                                                    s,
                                                                    p15,
                                                                ) {
                                                                    None => None,
                                                                    Some((dur, p16)) => match expect_at(
                                                                        s,
                                                                        p16,
                                                                        "}"@,
                                                                    ) {
                                                                        None => None,
                                                                        Some(p17) => if tail_blank(
                                                                            s,
                                                                            p17,
                                                                        ) && is_uuid_seq(session) {
                                                                            Some(
                                                                                RecView {
                                                                                    timestamp: ts,
                                                                                    user: user,
                                                                                    session: session,
                                                                                    shell_type: shell_of(
                                                                                        shell,
                                                                                    ),
                                                                                    cmd: cmd,
                                                                                    cwd: cwd,
                                                                                    exit_code: exit,
                                                                                    duration_ms: dur,
                                                                                },
                                                                            )
                                                                        } else {
                                                                            None
                                                                        },
                                                                    },
                                                                },
                                                            },
                                                        },
                                                    },
                                                },
                                            },
                                        },
                                    },
                                },
                            },
                        },
                    },
                },
            },
        },
    }
}

/// The numeric value of the parser's bound.
pub proof fn lemma_pow10_18()
    ensures
        pow10(18) == 1_000_000_000_000_000_000,
{
    reveal_with_fuel(pow10, 19);
}

fn ws_run_end_exec(s: &Vec<char>, i: usize) -> (j: usize)
    requires
        i <= s@.len(),
    ensures
        j == ws_run_end(s@, i as int),
        i <= j <= s@.len(),
{
    let mut j = i;
    while j < s.len() && (s[j] == ' ' || s[j] == '\t' || s[j] == '\n' || s[j] == '\r')
        invariant
            i <= j <= s@.len(),
            ws_run_end(s@, i as int) == ws_run_end(s@, j as int),
        decreases s@.len() - j,
    {
        j = j + 1;
    }
    assert(ws_run_end(s@, j as int) == j);
    j
}

fn digits_end_exec(s: &Vec<char>, i: usize) -> (j: usize)
    requires
        i <= s@.len(),
    ensures
        j == digits_end(s@, i as int),
        i <= j <= s@.len(),
{
    let mut j = i;
    while j < s.len() && ('0' <= s[j] && s[j] <= '9')
        invariant
            i <= j <= s@.len(),
            digits_end(s@, i as int) == digits_end(s@, j as int),
        decreases s@.len() - j,
    {
        j = j + 1;
    }
    assert(digits_end(s@, j as int) == j);
    j
}

/// Checks for the characters of `lit` at `i`; `Some` holds the position after
/// them.
fn expect_lit(s: &Vec<char>, i: usize, lit: &str) -> (r: Option<usize>)
    requires
        i <= s@.len(),
    ensures
        match r {
            Some(j) => expect_at(s@, i as int, lit@) == Some(j as int) && i <= j <= s@.len(),
            None => expect_at(s@, i as int, lit@) is None,
        },
{
    let n = lit.unicode_len();
    let slen = s.len();
    if slen - i < n {
        assert(expect_at(s@, i as int, lit@) is None);
        return None;
    }
    let mut k: usize = 0;
    while k < n
        invariant
            k <= n,
            n == lit@.len(),
            slen == s@.len(),
            i + n <= slen,
            s@.subrange(i as int, i + k as int) == lit@.subrange(0, k as int),
        decreases n - k,
    {
        if s[i + k] != lit.get_char(k) {
            assert(s@.subrange(i as int, i + lit@.len())[k as int] != lit@[k as int]);
            assert(expect_at(s@, i as int, lit@) is None);
            return None;
        }
        assert(s@.subrange(i as int, i + (k + 1) as int) =~= lit@.subrange(0, (k + 1) as int));
        k = k + 1;
    }
    assert(s@.subrange(i as int, i + n as int) =~= lit@);
    Some(i + n)
}

/// An unsigned decimal number at `i`.
fn parse_u64_exec(s: &Vec<char>, i: usize) -> (r: Option<(u64, usize)>)
    requires
        i <= s@.len(),
    ensures
        match r {
            Some((v, j)) => parse_u64_at(s@, i as int) == Some((v, j as int)) && i <= j
                <= s@.len(),
            None => parse_u64_at(s@, i as int) is None,
        },
{
    let e = digits_end_exec(s, i);
    proof {
        lemma_digits_end(s@, i as int);
    }
    if e == i || e - i > MAX_DEC_DIGITS {
        return None;
    }
    let mut val: u64 = 0;
    let mut j: usize = i;
    while j < e
        invariant
            i <= j <= e <= s@.len(),
            e - i <= MAX_DEC_DIGITS,
            e == digits_end(s@, i as int),
            forall|k: int| i <= k < e ==> is_digit_char(#[trigger] s@[k]),
            val == dec_val(s@.subrange(i as int, j as int)),
            val < pow10((j - i) as nat),
        decreases e - j,
    {
        let c = s[j];
        assert(is_digit_char(c));
        let d: u64 = (c as u32) as u64 - 48;
        proof {
            lemma_pow10_18();
            lemma_dec_val_bound(s@.subrange(i as int, j as int), 17);
            assert(pow10(17) * 10 == pow10(18));
            assert(val * 10 + d < pow10(18)) by (nonlinear_arith)
                requires
                    val < pow10(17nat),
                    d <= 9,
                    pow10(17nat) * 10 == pow10(18nat),
            ;
            let t = s@.subrange(i as int, (j + 1) as int);
            assert(t.drop_last() =~= s@.subrange(i as int, j as int));
            assert(t.last() == s@[j as int]);
            assert(dec_val(t) == val * 10 + d);
            lemma_dec_val_bound(t, (j + 1 - i) as nat);
        }
        val = val * 10 + d;
        j = j + 1;
    }
    assert(s@.subrange(i as int, e as int) == s@.subrange(i as int, j as int));
    proof {
        lemma_dec_val_bound(s@.subrange(i as int, e as int), 18);
        lemma_pow10_18();
    }
    Some((val, e))
}

/// A signed decimal number at `i` that fits in an `i32`.
fn parse_i32_exec(s: &Vec<char>, i: usize) -> (r: Option<(i32, usize)>)
    requires
        i <= s@.len(),
    ensures
        match r {
            Some((v, j)) => parse_i32_at(s@, i as int) == Some((v, j as int)) && i <= j
                <= s@.len(),
            None => parse_i32_at(s@, i as int) is None,
        },
{
    if i < s.len() && s[i] == '-' {
        match parse_u64_exec(s, i + 1) {
            Some((m, e)) => {
                proof {
                    lemma_digits_end(s@, i + 1);
                    lemma_dec_val_bound(
                        s@.subrange(i + 1, digits_end(s@, i + 1)),
                        MAX_DEC_DIGITS as nat,
                    );
                    lemma_pow10_18();
                }
                if m <= 0x8000_0000 {
                    let v: i32 = (-(m as i64)) as i32;
                    Some((v, e))
                } else {
                    None
                }
            },
            None => None,
        }
    } else {
        match parse_u64_exec(s, i) {
            Some((m, e)) => {
                proof {
                    lemma_digits_end(s@, i as int);
                    lemma_dec_val_bound(
                        s@.subrange(i as int, digits_end(s@, i as int)),
                        MAX_DEC_DIGITS as nat,
                    );
                    lemma_pow10_18();
                }
                if m <= 0x7fff_ffff {
                    Some((m as i32, e))
                } else {
                    None
                }
            },
            None => None,
        }
    }
}

/// A wire string body at `i` (after its opening quote), unescaped, up to and
/// including the closing quote.
fn parse_str_exec(s: &Vec<char>, i: usize) -> (r: Option<(Vec<char>, usize)>)
    requires
        i <= s@.len(),
    ensures
        match r {
            Some(p) => parse_str_at(s@, i as int) == Some((p.0@, p.1 as int)) && i <= p.1
                <= s@.len(),
            None => parse_str_at(s@, i as int) is None,
        },
{
    let mut acc: Vec<char> = Vec::new();
    let mut j: usize = i;
    loop
        invariant
            i <= j <= s@.len(),
            parse_str_at(s@, i as int) == (match parse_str_at(s@, j as int) {
                Some((t, e)) => Some((acc@ + t, e)),
                None => None::<(Seq<char>, int)>,
            }),
        decreases s@.len() - j,
    {
        if j >= s.len() {
            return None;
        }
        let c = s[j];
        if c == '"' {
            assert(parse_str_at(s@, j as int) == Some((Seq::<char>::empty(), j + 1 as int)));
            assert(acc@ + Seq::<char>::empty() =~= acc@);
            return Some((acc, j + 1));
        } else if c == '\\' {
            if j + 1 < s.len() {
                let code = s[j + 1];
                let u: Option<char> = if code == '"' {
                    Some('"')
                } else if code == '\\' {
                    Some('\\')
                } else if code == 'n' {
                    Some('\n')
                } else if code == 't' {
                    Some('\t')
                } else if code == 'r' {
                    Some('\r')
                } else {
                    None
                };
                assert(u == unesc(code));
                match u {
                    Some(d) => {
                        proof {
                            if parse_str_at(s@, (j + 2) as int) is Some {
                                let (t, e) = parse_str_at(s@, (j + 2) as int).unwrap();
                                assert(acc@ + (seq![d] + t) =~= (acc@ + seq![d]) + t);
                            }
                        }
                        acc.push(d);
                        j = j + 2;
                    },
                    None => {
                        return None;
                    },
                }
            } else {
                return None;
            }
        } else {
            proof {
                if parse_str_at(s@, (j + 1) as int) is Some {
                    let (t, e) = parse_str_at(s@, (j + 1) as int).unwrap();
                    assert(acc@ + (seq![c] + t) =~= (acc@ + seq![c]) + t);
                }
            }
            acc.push(c);
            j = j + 1;
        }
    }
}

/// Whether a character vector is a UUID-shaped identifier.
pub fn is_uuid_chars(t: &Vec<char>) -> (b: bool)
    ensures
        b == is_uuid_seq(t@),
{
    if t.len() != 36 {
        return false;
    }
    let mut k: usize = 0;
    while k < 36
        invariant
            k <= 36,
            t@.len() == 36,
            forall|m: int|
                0 <= m < k ==> (if m == 8 || m == 13 || m == 18 || m == 23 {
                    t@[m] == '-'
                } else {
                    is_hex_char(#[trigger] t@[m])
                }),
        decreases 36 - k,
    {
        let c = t[k];
        if k == 8 || k == 13 || k == 18 || k == 23 {
            if c != '-' {
                return false;
            }
        } else {
            if !(('0' <= c && c <= '9') || ('a' <= c && c <= 'f') || ('A' <= c && c <= 'F')) {
                return false;
            }
        }
        k = k + 1;
    }
    true
}

/// Whether a character vector holds exactly the characters of `lit`.
fn eq_lit(v: &Vec<char>, lit: &str) -> (b: bool)
    ensures
        b == (v@ == lit@),
{
    let n = lit.unicode_len();
    if v.len() != n {
        return false;
    }
    let mut k: usize = 0;
    while k < n
        invariant
            k <= n,
            n == lit@.len() == v@.len(),
            v@.subrange(0, k as int) == lit@.subrange(0, k as int),
        decreases n - k,
    {
        if v[k] != lit.get_char(k) {
            assert(v@[k as int] != lit@[k as int]);
            return false;
        }
        assert(v@.subrange(0, (k + 1) as int) =~= lit@.subrange(0, (k + 1) as int));
        k = k + 1;
    }
    assert(v@.subrange(0, n as int) =~= v@);
    assert(lit@.subrange(0, n as int) =~= lit@);
    true
}

/// The shell kind a wire name stands for; unknown names map to `Other`.
pub fn shell_kind_of(s: &str) -> (k: ShellKind)
    ensures
        k == shell_of(s@),
{
    let v = crate::redact::str_to_chars(s);
    shell_of_exec(&v)
}

fn shell_of_exec(v: &Vec<char>) -> (k: ShellKind)
    ensures
        k == shell_of(v@),
{
    if eq_lit(v, "bash") {
        ShellKind::Bash
    } else if eq_lit(v, "zsh") {
        ShellKind::Zsh
    } else {
        ShellKind::Other
    }
}

fn tail_blank_exec(s: &Vec<char>, i: usize) -> (b: bool)
    requires
        i <= s@.len(),
    ensures
        b == tail_blank(s@, i as int),
{
    let mut k = i;
    while k < s.len()
        invariant
            i <= k <= s@.len(),
            forall|m: int| i <= m < k ==> crate::redact::is_ws_char(#[trigger] s@[m]),
        decreases s@.len() - k,
    {
        let c = s[k];
        if !(c == ' ' || c == '\t' || c == '\n' || c == '\r') {
            return false;
        }
        k = k + 1;
    }
    true
}

/// Decodes one wire line into a record; `None` when the line is malformed.
pub fn parse_line(line: &str) -> (r: Option<CommandEntry>)
    ensures
        match r {
            Some(e) => spec_parse_line(line@) == Some(e@),
            None => spec_parse_line(line@) is None,
        },
{
    let cs = crate::redact::str_to_chars(line);
    parse_line_chars(&cs)
}

/// `parse_line` over an already split character vector.
pub fn parse_line_chars(cs: &Vec<char>) -> (r: Option<CommandEntry>)
    ensures
        match r {
            Some(e) => spec_parse_line(cs@) == Some(e@),
            None => spec_parse_line(cs@) is None,
        },
{
    let i0 = ws_run_end_exec(cs, 0);
    let p1 = match expect_lit(cs, i0, "{\"ts\":") {
        Some(p) => p,
        None => {
            return None;
        },
    };
    let (ts, p2) = match parse_u64_exec(cs, p1) {
        Some(x) => x,
        None => {
            return None;
        },
    };
    let p3 = match expect_lit(cs, p2, ",\"user\":\"") {
        Some(p) => p,
        None => {
            return None;
        },
    };
    let (user, p4) = match parse_str_exec(cs, p3) {
        Some(x) => x,
        None => {
            return None;
        },
    };
    let p5 = match expect_lit(cs, p4, ",\"session\":\"") {
        Some(p) => p,
        None => {
            return None;
        },
    };
    let (session, p6) = match parse_str_exec(cs, p5) {
        Some(x) => x,
        None => {
            return None;
        },
    };
    let p7 = match expect_lit(cs, p6, ",\"shell\":\"") {
        Some(p) => p,
        None => {
            return None;
        },
    };
    let (shell, p8) = match parse_str_exec(cs, p7) {
        Some(x) => x,
        None => {
            return None;
        },
    };
    let p9 = match expect_lit(cs, p8, ",\"cmd\":\"") {
        Some(p) => p,
        None => {
            return None;
        },
    };
    let (cmd, p10) = match parse_str_exec(cs, p9) {
        Some(x) => x,
        None => {
            return None;
        },
    };
    let p11 = match expect_lit(cs, p10, ",\"cwd\":\"") {
        Some(p) => p,
        None => {
            return None;
        },
    };
    let (cwd, p12) = match parse_str_exec(cs, p11) {
        Some(x) => x,
        None => {
            return None;
        },
    };
    let p13 = match expect_lit(cs, p12, ",\"exit\":") {
        Some(p) => p,
        None => {
            return None;
        },
    };
    let (exit, p14) = match parse_i32_exec(cs, p13) {
        Some(x) => x,
        None => {
            return None;
        },
    };
    let p15 = match expect_lit(cs, p14, ",\"dur\":") {
        Some(p) => p,
        None => {
            return None;
        },
    };
    let (dur, p16) = match parse_u64_exec(cs, p15) {
        Some(x) => x,
        None => {
            return None;
        },
    };
    let p17 = match expect_lit(cs, p16, "}") {
        Some(p) => p,
        None => {
            return None;
        },
    };
    if !tail_blank_exec(cs, p17) {
        return None;
    }
    if !is_uuid_chars(&session) {
        return None;
    }
    let shell_kind = shell_of_exec(&shell);
    Some(
        CommandEntry {
            timestamp: ts,
            user: crate::redact::chars_to_string(&user),
            session: crate::redact::chars_to_string(&session),
            shell_type: shell_kind,
            cmd: crate::redact::chars_to_string(&cmd),
            cwd: crate::redact::chars_to_string(&cwd),
            exit_code: exit,
            duration_ms: dur,
        },
    )
}

// ---------------------------------------------------------------------------
// Whole-log parsing
// ---------------------------------------------------------------------------
/// Position of the first newline at or after `i`, or the end.
pub open spec fn line_end(s: Seq<char>, i: int) -> int
    decreases s.len() - i,
{
    if i < 0 || i >= s.len() || s[i] == '\n' {
        i
    } else {
        line_end(s, i + 1)
    }
}

pub proof fn lemma_line_end_bounds(s: Seq<char>, i: int)
    requires
        0 <= i <= s.len(),
    ensures
        i <= line_end(s, i) <= s.len(),
    decreases s.len() - i,
{
    if i < s.len() && s[i] != '\n' {
        lemma_line_end_bounds(s, i + 1);
    }
}

/// The newline-separated lines of `s` from position `i` on.
pub open spec fn lines_from(s: Seq<char>, i: int) -> Seq<Seq<char>>
    recommends
        0 <= i <= s.len(),
    decreases s.len() - i,
    via lines_from_decreases
{
    if i < 0 || i > s.len() {
        Seq::empty()
    } else {
        let e = line_end(s, i);
        if e >= s.len() {
            seq![s.subrange(i, s.len() as int)]
        } else {
            seq![s.subrange(i, e)] + lines_from(s, e + 1)
        }
    }
}

#[via_fn]
proof fn lines_from_decreases(s: Seq<char>, i: int) {
    if 0 <= i <= s.len() {
        lemma_line_end_bounds(s, i);
    }
}

/// The lines of a whole log.
pub open spec fn spec_lines(s: Seq<char>) -> Seq<Seq<char>> {
    lines_from(s, 0)
}

/// A line of nothing but whitespace, which the parser skips.
pub open spec fn line_blank(l: Seq<char>) -> bool {
    tail_blank(l, 0)
}

/// The records of the well-formed lines, in order.
pub open spec fn valid_records(ls: Seq<Seq<char>>) -> Seq<RecView>
    decreases ls.len(),
{
    if ls.len() == 0 {
        Seq::empty()
    } else if line_blank(ls[0]) {
        valid_records(ls.skip(1))
    } else {
        match spec_parse_line(ls[0]) {
            Some(v) => seq![v] + valid_records(ls.skip(1)),
            None => valid_records(ls.skip(1)),
        }
    }
}

/// How many lines are neither blank nor well-formed.
pub open spec fn malformed_count(ls: Seq<Seq<char>>) -> nat
    decreases ls.len(),
{
    if ls.len() == 0 {
        0
    } else if line_blank(ls[0]) {
        malformed_count(ls.skip(1))
    } else {
        match spec_parse_line(ls[0]) {
            Some(v) => malformed_count(ls.skip(1)),
            None => 1 + malformed_count(ls.skip(1)),
        }
    }
}

/// The records of a whole log in its view form: what `parse_log_file`
/// returns, record for record.
pub open spec fn spec_log_records(s: Seq<char>) -> Seq<RecView> {
    valid_records(spec_lines(s))
}

/// How many lines of a whole log fail to decode.
pub open spec fn spec_log_malformed(s: Seq<char>) -> nat {
    malformed_count(spec_lines(s))
}

fn line_end_exec(s: &Vec<char>, i: usize) -> (j: usize)
    requires
        i <= s@.len(),
    ensures
        j == line_end(s@, i as int),
        i <= j <= s@.len(),
{
    let mut j = i;
    while j < s.len() && s[j] != '\n'
        invariant
            i <= j <= s@.len(),
            line_end(s@, i as int) == line_end(s@, j as int),
        decreases s@.len() - j,
    {
        j = j + 1;
    }
    assert(line_end(s@, j as int) == j);
    j
}

fn copy_range(s: &Vec<char>, from: usize, to: usize) -> (out: Vec<char>)
    requires
        from <= to <= s@.len(),
    ensures
        out@ == s@.subrange(from as int, to as int),
{
    let mut out: Vec<char> = Vec::new();
    let mut k = from;
    while k < to
        invariant
            from <= k <= to <= s@.len(),
            out@ == s@.subrange(from as int, k as int),
        decreases to - k,
    {
        out.push(s[k]);
        assert(out@ =~= s@.subrange(from as int, (k + 1) as int));
        k = k + 1;
    }
    out
}

/// Decodes the content of a rotated log: newline-delimited wire lines. Blank
/// lines are skipped; a line that fails to decode is counted and excluded,
/// never fatal. Returns the records in log order and the count of malformed
/// lines.
pub fn parse_log_file(content: &str) -> (r: (Vec<CommandEntry>, usize))
    ensures
        r.0.deep_view() == spec_log_records(content@),
        r.1 == spec_log_malformed(content@),
        r.0@.len() + r.1 <= content@.len(),
        content@.len() <= usize::MAX,
{
    proof {
        lemma_records_bound(content@, 0);
    }
    let cs = crate::redact::str_to_chars(content);
    assert(cs.len() == cs@.len());
    let mut entries: Vec<CommandEntry> = Vec::new();
    let mut malformed: usize = 0;
    let mut i: usize = 0;
    let mut done: bool = false;
    while !done
        invariant
            i <= cs@.len(),
            cs@ == content@,
            !done ==> spec_log_records(content@) == entries.deep_view() + valid_records(
                lines_from(cs@, i as int),
            ),
            !done ==> spec_log_malformed(content@) == malformed + malformed_count(
                lines_from(cs@, i as int),
            ),
            !done ==> malformed <= i,
            done ==> spec_log_records(content@) == entries.deep_view(),
            done ==> spec_log_malformed(content@) == malformed,
        decreases cs@.len() - i, (if done {
            0int
        } else {
            1int
        }),
    {
        let e = line_end_exec(&cs, i);
        let line = copy_range(&cs, i, e);
        let ghost ls = lines_from(cs@, i as int);
        proof {
            assert(ls[0] == line@);
            if e < cs@.len() {
                assert(ls == seq![line@] + lines_from(cs@, e + 1));
                assert(ls.skip(1) =~= lines_from(cs@, e + 1));
            } else {
                assert(ls =~= seq![line@]);
                assert(ls.skip(1) =~= Seq::<Seq<char>>::empty());
                assert(valid_records(ls.skip(1)) =~= Seq::<RecView>::empty());
                assert(malformed_count(ls.skip(1)) == 0);
            }
        }
        if tail_blank_exec(&line, 0) {
            assert(line_blank(line@));
        } else {
            match parse_line_chars(&line) {
                Some(entry) => {
                    proof {
                        assert(entries.deep_view() + (seq![entry@] + valid_records(ls.skip(1)))
                            =~= (entries.deep_view() + seq![entry@]) + valid_records(ls.skip(1)));
                    }
                    let ghost pre = entries.deep_view();
                    entries.push(entry);
                    proof {
                        assert(entries.deep_view() =~= pre + seq![entry@]);
                    }
                },
                None => {
                    assert(line@.len() >= 1 && e > i) by {
                        assert(!line_blank(line@));
                    };
                    malformed = malformed + 1;
                },
            }
        }
        if e < cs.len() {
            i = e + 1;
        } else {
            done = true;
        }
    }
    (entries, malformed)
}

/// A decoded number is below `wire_num_bound()`, so every decoded record's
/// timestamp and duration are too.
pub proof fn lemma_parse_line_bounds(l: Seq<char>)
    ensures
        spec_parse_line(l) is Some ==> spec_parse_line(l).unwrap().timestamp < wire_num_bound()
            && spec_parse_line(l).unwrap().duration_ms < wire_num_bound(),
{
    if spec_parse_line(l) is Some {
        let p1 = expect_at(l, ws_run_end(l, 0), "{\"ts\":"@).unwrap();
        lemma_parse_u64_bound(l, p1);
        let p2 = parse_u64_at(l, p1).unwrap().1;
        let p3 = expect_at(l, p2, ",\"user\":\""@).unwrap();
        let p4 = parse_str_at(l, p3).unwrap().1;
        let p5 = expect_at(l, p4, ",\"session\":\""@).unwrap();
        let p6 = parse_str_at(l, p5).unwrap().1;
        let p7 = expect_at(l, p6, ",\"shell\":\""@).unwrap();
        let p8 = parse_str_at(l, p7).unwrap().1;
        let p9 = expect_at(l, p8, ",\"cmd\":\""@).unwrap();
        let p10 = parse_str_at(l, p9).unwrap().1;
        let p11 = expect_at(l, p10, ",\"cwd\":\""@).unwrap();
        let p12 = parse_str_at(l, p11).unwrap().1;
        let p13 = expect_at(l, p12, ",\"exit\":"@).unwrap();
        let p14 = parse_i32_at(l, p13).unwrap().1;
        let p15 = expect_at(l, p14, ",\"dur\":"@).unwrap();
        lemma_parse_u64_bound(l, p15);
    }
}

/// A number the parser accepts is below `wire_num_bound()`.
pub proof fn lemma_parse_u64_bound(s: Seq<char>, i: int)
    ensures
        parse_u64_at(s, i) is Some ==> parse_u64_at(s, i).unwrap().0 < wire_num_bound(),
{
    if parse_u64_at(s, i) is Some {
        let e = digits_end(s, i);
        if 0 <= i <= s.len() {
            lemma_digits_end(s, i);
            lemma_dec_val_bound(s.subrange(i, e), MAX_DEC_DIGITS as nat);
            lemma_pow10_18();
        } else {
            assert(e == i);
        }
    }
}

/// Every record of a log is bounded as `lemma_parse_line_bounds` says.
pub proof fn lemma_log_records_bounds(ls: Seq<Seq<char>>)
    ensures
        forall|k: int|
            0 <= k < valid_records(ls).len() ==> (#[trigger] valid_records(ls)[k]).timestamp
                < wire_num_bound() && valid_records(ls)[k].duration_ms < wire_num_bound(),
    decreases ls.len(),
{
    if ls.len() > 0 {
        lemma_log_records_bounds(ls.skip(1));
        lemma_parse_line_bounds(ls[0]);
    }
}

/// The records and the malformed lines of a log never outnumber its
/// characters: each comes from a line holding at least one character.
pub proof fn lemma_records_bound(s: Seq<char>, i: int)
    requires
        0 <= i <= s.len(),
    ensures
        valid_records(lines_from(s, i)).len() + malformed_count(lines_from(s, i)) <= s.len() - i,
    decreases s.len() - i,
{
    lemma_line_end_bounds(s, i);
    let e = line_end(s, i);
    let ls = lines_from(s, i);
    let l = ls[0];
    if e < s.len() {
        lemma_records_bound(s, e + 1);
        assert(ls.skip(1) =~= lines_from(s, e + 1));
    } else {
        assert(ls =~= seq![s.subrange(i, s.len() as int)]);
        assert(ls.skip(1) =~= Seq::<Seq<char>>::empty());
    }
    if !line_blank(l) {
        assert(exists|k: int| 0 <= k < l.len() && !crate::redact::is_ws_char(l[k]));
        assert(l.len() >= 1);
        assert(e - i >= 1);
    } else {
        assert(valid_records(ls).len() == valid_records(ls.skip(1)).len());
    }
}

// ---------------------------------------------------------------------------
// Round trip
// ---------------------------------------------------------------------------
/// A record the wire format can carry faithfully: numbers inside the
/// parser's digit budget and a UUID-shaped session.
pub open spec fn wire_encodable(r: RecView) -> bool {
    &&& r.timestamp < wire_num_bound()
    &&& r.duration_ms < wire_num_bound()
    &&& is_uuid_seq(r.session)
}

/// A run of digits bounded on both sides is exactly what `digits_end`
/// finds.
proof fn lemma_digits_end_exact(s: Seq<char>, i: int, j: int)
    requires
        0 <= i <= j <= s.len(),
        forall|k: int| i <= k < j ==> is_digit_char(#[trigger] s[k]),
        j == s.len() || !is_digit_char(s[j]),
    ensures
        digits_end(s, i) == j,
    decreases j - i,
{
    if i < j {
        lemma_digits_end_exact(s, i + 1, j);
    }
}

/// The digits of `n` written at `i` and delimited by a non-digit parse back
/// as `n`.
proof fn lemma_parse_u64_digits(s: Seq<char>, i: int, n: nat)
    requires
        n < wire_num_bound(),
        0 <= i,
        i + dec_digits(n).len() <= s.len(),
        s.subrange(i, i + dec_digits(n).len()) == dec_digits(n),
        i + dec_digits(n).len() == s.len() || !is_digit_char(s[i + dec_digits(n).len()]),
    ensures
        parse_u64_at(s, i) == Some((n as u64, i + dec_digits(n).len())),
{
    let d = dec_digits(n);
    lemma_dec_digits(n);
    lemma_dec_digits_len(n, 18);
    lemma_pow10_18();
    assert forall|k: int| i <= k < i + d.len() implies is_digit_char(#[trigger] s[k]) by {
        assert(s[k] == d[k - i]);
    }
    lemma_digits_end_exact(s, i, i + d.len());
    assert(s.subrange(i, i + d.len()) == d);
    assert(dec_val(s.subrange(i, digits_end(s, i))) == n);
}

/// An escaped string written at `i` and closed by a quote parses back to
/// the original characters, ending after the quote.
proof fn lemma_parse_escaped(s: Seq<char>, i: int, t: Seq<char>)
    requires
        0 <= i,
        i + esc_str(t).len() + 1 <= s.len(),
        s.subrange(i, i + esc_str(t).len() + 1) == esc_str(t) + seq!['"'],
    ensures
        parse_str_at(s, i) == Some((t, i + esc_str(t).len() + 1)),
    decreases t.len(),
{
    let e = esc_str(t);
    if t.len() == 0 {
        assert(e =~= Seq::<char>::empty());
        assert(s[i] == (e + seq!['"'])[0]);
        assert(s[i] == '"');
    } else {
        let c = t[0];
        let t2 = t.skip(1);
        let e2 = esc_str(t2);
        assert(e == esc_char(c) + e2);
        let w = esc_char(c).len();
        assert(s.subrange(i + w, i + e.len() + 1) =~= e2 + seq!['"']) by {
            assert forall|k: int| 0 <= k < e2.len() + 1 implies s.subrange(
                i + w,
                i + e.len() + 1,
            )[k] == (e2 + seq!['"'])[k] by {
                assert(s.subrange(i, i + e.len() + 1)[w + k] == (e + seq!['"'])[w + k]);
            }
        }
        lemma_parse_escaped(s, i + w, t2);
        assert(s[i] == (e + seq!['"'])[0]);
        assert(s[i] == esc_char(c)[0]);
        if c == '"' || c == '\\' || c == '\n' || c == '\t' || c == '\r' {
            assert(w == 2);
            assert(s[i] == '\\');
            assert(s[i + 1] == (e + seq!['"'])[1]);
            assert(s[i + 1] == esc_char(c)[1]);
            assert(unesc(s[i + 1]) == Some(c));
            assert(parse_str_at(s, i) == Some((seq![c] + t2, i + e.len() + 1)));
        } else {
            assert(w == 1);
            assert(s[i] == c);
            assert(s[i] != '"' && s[i] != '\\');
            assert(parse_str_at(s, i) == Some((seq![c] + t2, i + e.len() + 1)));
        }
        assert(seq![c] + t2 =~= t);
    }
}


/// The digits of `x` (sign included) written at `i` and delimited by a
/// non-digit parse back as `x`.
proof fn lemma_parse_i32_digits(s: Seq<char>, i: int, x: i32)
    requires
        0 <= i,
        i + dec_i32(x).len() <= s.len(),
        s.subrange(i, i + dec_i32(x).len()) == dec_i32(x),
        i + dec_i32(x).len() == s.len() || !is_digit_char(s[i + dec_i32(x).len()]),
    ensures
        parse_i32_at(s, i) == Some((x, i + dec_i32(x).len())),
{
    lemma_pow10_18();
    if x < 0 {
        let mag = (-(x as int)) as nat;
        let d = dec_digits(mag);
        lemma_dec_digits(mag);
        lemma_dec_digits_len(mag, 18);
        assert(dec_i32(x) == seq!['-'] + d);
        assert(s[i] == (seq!['-'] + d)[0]);
        assert(s[i] == '-');
        assert(s.subrange(i + 1, i + 1 + d.len()) =~= d) by {
            assert forall|k: int| 0 <= k < d.len() implies s.subrange(i + 1, i + 1 + d.len())[k]
                == d[k] by {
                assert(s.subrange(i, i + dec_i32(x).len())[1 + k] == (seq!['-'] + d)[1 + k]);
            }
        }
        assert forall|k: int| i + 1 <= k < i + 1 + d.len() implies is_digit_char(
            #[trigger] s[k],
        ) by {
            assert(s.subrange(i + 1, i + 1 + d.len())[k - i - 1] == d[k - i - 1]);
        }
        lemma_digits_end_exact(s, i + 1, i + 1 + d.len());
        assert(dec_val(s.subrange(i + 1, digits_end(s, i + 1))) == mag);
        assert(mag <= 0x8000_0000);
    } else {
        let mag = x as nat;
        let d = dec_digits(mag);
        lemma_dec_digits(mag);
        lemma_dec_digits_len(mag, 18);
        assert(dec_i32(x) == d);
        assert forall|k: int| i <= k < i + d.len() implies is_digit_char(#[trigger] s[k]) by {
            assert(s.subrange(i, i + d.len())[k - i] == d[k - i]);
        }
        assert(s[i] == d[0]);
        assert(is_digit_char(s[i]));
        assert(s[i] != '-');
        lemma_digits_end_exact(s, i, i + d.len());
        assert(dec_val(s.subrange(i, digits_end(s, i))) == mag);
        assert(mag <= 0x7fff_ffff);
    }
}

/// Escaping leaves a sequence without special characters alone.
proof fn lemma_esc_str_plain(t: Seq<char>)
    requires
        forall|k: int|
            0 <= k < t.len() ==> #[trigger] t[k] != '"' && t[k] != '\\' && t[k] != '\n' && t[k]
                != '\t' && t[k] != '\r',
    ensures
        esc_str(t) == t,
    decreases t.len(),
{
    if t.len() == 0 {
        assert(esc_str(t) =~= t);
    } else {
        lemma_esc_str_plain(t.skip(1));
        assert(esc_char(t[0]) == seq![t[0]]);
        assert(esc_str(t) =~= t);
    }
}

/// The middle piece of a three-way split sits at its own offsets.
proof fn lemma_mid(c: Seq<char>, m: Seq<char>, t: Seq<char>, s: Seq<char>)
    requires
        s == c + (m + t),
    ensures
        s.subrange(c.len() as int, c.len() as int + m.len() as int) == m,
        s.len() == c.len() + m.len() + t.len(),
{
    assert(s.subrange(c.len() as int, c.len() as int + m.len() as int) =~= m);
}

/// Concatenation is associative.
proof fn lemma_assoc(a: Seq<char>, b: Seq<char>, c: Seq<char>)
    ensures
        (a + b) + c == a + (b + c),
{
    assert((a + b) + c =~= a + (b + c));
}

/// The parser-aligned segments of an encoded line, numbered from one:
/// alternating literal keys and field values, each quoted string carrying
/// its closing quote.
spec fn rt_seg(v: RecView, k: int) -> Seq<char> {
    let q: Seq<char> = seq!['"'];
    if k == 1 {
        "{\"ts\":"@
    } else if k == 2 {
        dec_digits(v.timestamp as nat)
    } else if k == 3 {
        ",\"user\":\""@
    } else if k == 4 {
        esc_str(v.user) + q
    } else if k == 5 {
        ",\"session\":\""@
    } else if k == 6 {
        esc_str(v.session) + q
    } else if k == 7 {
        ",\"shell\":\""@
    } else if k == 8 {
        shell_name(v.shell_type) + q
    } else if k == 9 {
        ",\"cmd\":\""@
    } else if k == 10 {
        esc_str(v.cmd) + q
    } else if k == 11 {
        ",\"cwd\":\""@
    } else if k == 12 {
        esc_str(v.cwd) + q
    } else if k == 13 {
        ",\"exit\":"@
    } else if k == 14 {
        dec_i32(v.exit_code)
    } else if k == 15 {
        ",\"dur\":"@
    } else if k == 16 {
        dec_digits(v.duration_ms as nat)
    } else if k == 17 {
        "}"@
    } else {
        Seq::empty()
    }
}

/// The segments in front of segment `k`, concatenated.
spec fn rt_pre(v: RecView, k: int) -> Seq<char>
    decreases k,
{
    if k <= 1 {
        Seq::empty()
    } else {
        rt_pre(v, k - 1) + rt_seg(v, k - 1)
    }
}

/// The segments from `k` on, concatenated.
spec fn rt_suf(v: RecView, k: int) -> Seq<char>
    decreases 18 - k,
{
    if k > 17 {
        Seq::empty()
    } else {
        rt_seg(v, k) + rt_suf(v, k + 1)
    }
}

/// The encoded line split at segment `k`: what is in front of it, the
/// segment itself, and everything after.
spec fn rt_framed(v: RecView, k: int) -> bool {
    spec_encode(v) == rt_pre(v, k) + (rt_seg(v, k) + rt_suf(v, k + 1))
}

/// The one decomposition the step lemmas share: the encoded line splits at
/// every segment.
#[verifier::rlimit(100)]
#[verifier::spinoff_prover]
proof fn lemma_rt_frame(v: RecView)
    ensures
        rt_framed(v, 1),
        rt_framed(v, 2),
        rt_framed(v, 3),
        rt_framed(v, 4),
        rt_framed(v, 5),
        rt_framed(v, 6),
        rt_framed(v, 7),
        rt_framed(v, 8),
        rt_framed(v, 9),
        rt_framed(v, 10),
        rt_framed(v, 11),
        rt_framed(v, 12),
        rt_framed(v, 13),
        rt_framed(v, 14),
        rt_framed(v, 15),
        rt_framed(v, 16),
        rt_framed(v, 17),
{
    reveal_strlit("\",\"session\":\"");
    reveal_strlit(",\"session\":\"");
    reveal_strlit("\",\"shell\":\"");
    reveal_strlit(",\"shell\":\"");
    reveal_strlit("\",\"cmd\":\"");
    reveal_strlit(",\"cmd\":\"");
    reveal_strlit("\",\"cwd\":\"");
    reveal_strlit(",\"cwd\":\"");
    reveal_strlit("\",\"exit\":");
    reveal_strlit(",\"exit\":");
    let s = spec_encode(v);
    let q: Seq<char> = seq!['"'];
    let l1 = "{\"ts\":"@;
    let lu = ",\"user\":\""@;
    let lse = ",\"session\":\""@;
    let lsh = ",\"shell\":\""@;
    let lc = ",\"cmd\":\""@;
    let lw = ",\"cwd\":\""@;
    let lx = ",\"exit\":"@;
    let ldu = ",\"dur\":"@;
    let rb = "}"@;
    assert("\",\"session\":\""@ =~= q + lse);
    assert("\",\"shell\":\""@ =~= q + lsh);
    assert("\",\"cmd\":\""@ =~= q + lc);
    assert("\",\"cwd\":\""@ =~= q + lw);
    assert("\",\"exit\":"@ =~= q + lx);
    let dts = dec_digits(v.timestamp as nat);
    let eu = esc_str(v.user);
    let ese = esc_str(v.session);
    let sh = shell_name(v.shell_type);
    let ec = esc_str(v.cmd);
    let ew = esc_str(v.cwd);
    let dx = dec_i32(v.exit_code);
    let ddu = dec_digits(v.duration_ms as nat);
    // the encoder's own left-nested prefixes
    let a1 = l1 + dts;
    let a2 = a1 + lu;
    let a3 = a2 + eu;
    let a4 = a3 + (q + lse);
    let a5 = a4 + ese;
    let a6 = a5 + (q + lsh);
    let a7 = a6 + sh;
    let a8 = a7 + (q + lc);
    let a9 = a8 + ec;
    let a10 = a9 + (q + lw);
    let a11 = a10 + ew;
    let a12 = a11 + (q + lx);
    let a13 = a12 + dx;
    let a14 = a13 + ldu;
    let a15 = a14 + ddu;
    assert(s == a15 + rb);
    // the suffixes from each segment on, with every string carrying its
    // closing quote
    assert(rt_suf(v, 18) =~= Seq::<char>::empty());
    assert(rt_suf(v, 17) =~= rb);
    let t16 = ddu + rt_suf(v, 17);
    assert(rt_suf(v, 16) == t16);
    let t15 = ldu + t16;
    assert(rt_suf(v, 15) == t15);
    let t14 = dx + t15;
    assert(rt_suf(v, 14) == t14);
    let t13 = lx + t14;
    assert(rt_suf(v, 13) == t13);
    let t12 = (ew + q) + t13;
    assert(rt_suf(v, 12) == t12);
    let t11 = lw + t12;
    assert(rt_suf(v, 11) == t11);
    let t10 = (ec + q) + t11;
    assert(rt_suf(v, 10) == t10);
    let t9 = lc + t10;
    assert(rt_suf(v, 9) == t9);
    let t8 = (sh + q) + t9;
    assert(rt_suf(v, 8) == t8);
    let t7 = lsh + t8;
    assert(rt_suf(v, 7) == t7);
    let t6 = (ese + q) + t7;
    assert(rt_suf(v, 6) == t6);
    let t5 = lse + t6;
    assert(rt_suf(v, 5) == t5);
    let t4 = (eu + q) + t5;
    assert(rt_suf(v, 4) == t4);
    let t3 = lu + t4;
    assert(rt_suf(v, 3) == t3);
    let t2 = dts + t3;
    assert(rt_suf(v, 2) == t2);
    // regroup the encoder's nesting into the suffix chain, one
    // associativity step at a time
    lemma_assoc(a14, ddu, rt_suf(v, 17));
    assert(s == a14 + t16);
    lemma_assoc(a13, ldu, t16);
    assert(s == a13 + t15);
    lemma_assoc(a12, dx, t15);
    assert(s == a12 + t14);
    lemma_assoc(a11, q + lx, t14);
    lemma_assoc(q, lx, t14);
    assert(s == a11 + (q + t13));
    lemma_assoc(a10, ew, q + t13);
    lemma_assoc(ew, q, t13);
    assert(s == a10 + t12);
    lemma_assoc(a9, q + lw, t12);
    lemma_assoc(q, lw, t12);
    assert(s == a9 + (q + t11));
    lemma_assoc(a8, ec, q + t11);
    lemma_assoc(ec, q, t11);
    assert(s == a8 + t10);
    lemma_assoc(a7, q + lc, t10);
    lemma_assoc(q, lc, t10);
    assert(s == a7 + (q + t9));
    lemma_assoc(a6, sh, q + t9);
    lemma_assoc(sh, q, t9);
    assert(s == a6 + t8);
    lemma_assoc(a5, q + lsh, t8);
    lemma_assoc(q, lsh, t8);
    assert(s == a5 + (q + t7));
    lemma_assoc(a4, ese, q + t7);
    lemma_assoc(ese, q, t7);
    assert(s == a4 + t6);
    lemma_assoc(a3, q + lse, t6);
    lemma_assoc(q, lse, t6);
    assert(s == a3 + (q + t5));
    lemma_assoc(a2, eu, q + t5);
    lemma_assoc(eu, q, t5);
    assert(s == a2 + t4);
    lemma_assoc(a1, lu, t4);
    assert(s == a1 + t3);
    lemma_assoc(l1, dts, t3);
    assert(s == l1 + t2);
    // the prefixes in front of each segment
    assert(rt_pre(v, 1) =~= Seq::<char>::empty());
    assert(rt_pre(v, 2) =~= l1);
    assert(rt_pre(v, 3) =~= a1);
    assert(rt_pre(v, 4) =~= a2);
    let c4 = a2 + (eu + q);
    assert(rt_pre(v, 5) =~= c4);
    lemma_assoc(a2, eu + q, t5);
    assert(s == c4 + t5);
    let c5 = c4 + lse;
    assert(rt_pre(v, 6) =~= c5);
    lemma_assoc(c4, lse, t6);
    assert(s == c5 + t6);
    let c6 = c5 + (ese + q);
    assert(rt_pre(v, 7) =~= c6);
    lemma_assoc(c5, ese + q, t7);
    assert(s == c6 + t7);
    let c7 = c6 + lsh;
    assert(rt_pre(v, 8) =~= c7);
    lemma_assoc(c6, lsh, t8);
    assert(s == c7 + t8);
    let c8 = c7 + (sh + q);
    assert(rt_pre(v, 9) =~= c8);
    lemma_assoc(c7, sh + q, t9);
    assert(s == c8 + t9);
    let c9 = c8 + lc;
    assert(rt_pre(v, 10) =~= c9);
    lemma_assoc(c8, lc, t10);
    assert(s == c9 + t10);
    let c10 = c9 + (ec + q);
    assert(rt_pre(v, 11) =~= c10);
    lemma_assoc(c9, ec + q, t11);
    assert(s == c10 + t11);
    let c11 = c10 + lw;
    assert(rt_pre(v, 12) =~= c11);
    lemma_assoc(c10, lw, t12);
    assert(s == c11 + t12);
    let c12 = c11 + (ew + q);
    assert(rt_pre(v, 13) =~= c12);
    lemma_assoc(c11, ew + q, t13);
    assert(s == c12 + t13);
    let c13 = c12 + lx;
    assert(rt_pre(v, 14) =~= c13);
    lemma_assoc(c12, lx, t14);
    assert(s == c13 + t14);
    let c14 = c13 + dx;
    assert(rt_pre(v, 15) =~= c14);
    lemma_assoc(c13, dx, t15);
    assert(s == c14 + t15);
    let c15 = c14 + ldu;
    assert(rt_pre(v, 16) =~= c15);
    lemma_assoc(c14, ldu, t16);
    assert(s == c15 + t16);
    let c16 = c15 + ddu;
    assert(rt_pre(v, 17) =~= c16);
    lemma_assoc(c15, ddu, rt_suf(v, 17));
    assert(s == c16 + rt_suf(v, 17));
    // and each split, in the frame's own terms
    assert(Seq::<char>::empty() + (l1 + t2) =~= l1 + t2);
    assert(rt_framed(v, 1));
    assert(rt_framed(v, 2));
    assert(rt_framed(v, 3));
    assert(rt_framed(v, 4));
    assert(rt_framed(v, 5));
    assert(rt_framed(v, 6));
    assert(rt_framed(v, 7));
    assert(rt_framed(v, 8));
    assert(rt_framed(v, 9));
    assert(rt_framed(v, 10));
    assert(rt_framed(v, 11));
    assert(rt_framed(v, 12));
    assert(rt_framed(v, 13));
    assert(rt_framed(v, 14));
    assert(rt_framed(v, 15));
    assert(rt_framed(v, 16));
    assert(rb + rt_suf(v, 18) =~= rb);
    assert(rt_framed(v, 17));
}

/// What the parser finds at each position of an encoded line: the front
/// half, through the session.
spec fn rt_steps_front(v: RecView) -> bool {
    let s = spec_encode(v);
    &&& ws_run_end(s, 0) == 0
    &&& expect_at(s, 0, "{\"ts\":"@) == Some(rt_pre(v, 2).len() as int)
    &&& parse_u64_at(s, rt_pre(v, 2).len() as int) == Some(
        (v.timestamp, rt_pre(v, 3).len() as int),
    )
    &&& expect_at(s, rt_pre(v, 3).len() as int, ",\"user\":\""@) == Some(
        rt_pre(v, 4).len() as int,
    )
    &&& parse_str_at(s, rt_pre(v, 4).len() as int) == Some((v.user, rt_pre(v, 5).len() as int))
    &&& expect_at(s, rt_pre(v, 5).len() as int, ",\"session\":\""@) == Some(
        rt_pre(v, 6).len() as int,
    )
    &&& parse_str_at(s, rt_pre(v, 6).len() as int) == Some(
        (v.session, rt_pre(v, 7).len() as int),
    )
}

/// What the parser finds at each position of an encoded line: the back
/// half, from the shell on.
spec fn rt_steps_back(v: RecView) -> bool {
    let s = spec_encode(v);
    &&& expect_at(s, rt_pre(v, 7).len() as int, ",\"shell\":\""@) == Some(
        rt_pre(v, 8).len() as int,
    )
    &&& parse_str_at(s, rt_pre(v, 8).len() as int) == Some(
        (shell_name(v.shell_type), rt_pre(v, 9).len() as int),
    )
    &&& shell_of(shell_name(v.shell_type)) == v.shell_type
    &&& expect_at(s, rt_pre(v, 9).len() as int, ",\"cmd\":\""@) == Some(
        rt_pre(v, 10).len() as int,
    )
    &&& parse_str_at(s, rt_pre(v, 10).len() as int) == Some((v.cmd, rt_pre(v, 11).len() as int))
    &&& expect_at(s, rt_pre(v, 11).len() as int, ",\"cwd\":\""@) == Some(
        rt_pre(v, 12).len() as int,
    )
    &&& parse_str_at(s, rt_pre(v, 12).len() as int) == Some((v.cwd, rt_pre(v, 13).len() as int))
    &&& expect_at(s, rt_pre(v, 13).len() as int, ",\"exit\":"@) == Some(
        rt_pre(v, 14).len() as int,
    )
    &&& parse_i32_at(s, rt_pre(v, 14).len() as int) == Some(
        (v.exit_code, rt_pre(v, 15).len() as int),
    )
    &&& expect_at(s, rt_pre(v, 15).len() as int, ",\"dur\":"@) == Some(
        rt_pre(v, 16).len() as int,
    )
    &&& parse_u64_at(s, rt_pre(v, 16).len() as int) == Some(
        (v.duration_ms, rt_pre(v, 17).len() as int),
    )
    &&& expect_at(s, rt_pre(v, 17).len() as int, "}"@) == Some(rt_pre(v, 18).len() as int)
    &&& rt_pre(v, 18).len() == s.len()
    &&& tail_blank(s, s.len() as int)
}

#[verifier::rlimit(100)]
#[verifier::spinoff_prover]
proof fn lemma_rt_steps_front(v: RecView)
    requires
        wire_encodable(v),
    ensures
        rt_steps_front(v),
{
    reveal_strlit("{\"ts\":");
    reveal_strlit(",\"user\":\"");
    reveal_strlit(",\"session\":\"");
    reveal_strlit(",\"shell\":\"");
    lemma_rt_frame(v);
    lemma_dec_digits(v.timestamp as nat);
    let s = spec_encode(v);
    // no leading whitespace
    lemma_mid(rt_pre(v, 1), rt_seg(v, 1), rt_suf(v, 2), s);
    assert(s[0] == "{\"ts\":"@[0]);
    assert(s[0] == '{');
    assert(ws_run_end(s, 0) == 0);
    // the timestamp key and value
    assert(expect_at(s, 0, "{\"ts\":"@) == Some(rt_pre(v, 2).len() as int));
    lemma_mid(rt_pre(v, 2), rt_seg(v, 2), rt_suf(v, 3), s);
    lemma_mid(rt_pre(v, 3), rt_seg(v, 3), rt_suf(v, 4), s);
    assert(s[rt_pre(v, 3).len() as int] == ",\"user\":\""@[0]);
    assert(!is_digit_char(s[rt_pre(v, 3).len() as int]));
    lemma_parse_u64_digits(s, rt_pre(v, 2).len() as int, v.timestamp as nat);
    assert(parse_u64_at(s, rt_pre(v, 2).len() as int) == Some(
        (v.timestamp, rt_pre(v, 3).len() as int),
    ));
    // the user
    assert(expect_at(s, rt_pre(v, 3).len() as int, ",\"user\":\""@) == Some(
        rt_pre(v, 4).len() as int,
    ));
    lemma_mid(rt_pre(v, 4), rt_seg(v, 4), rt_suf(v, 5), s);
    lemma_parse_escaped(s, rt_pre(v, 4).len() as int, v.user);
    assert(parse_str_at(s, rt_pre(v, 4).len() as int) == Some(
        (v.user, rt_pre(v, 5).len() as int),
    ));
    // the session
    lemma_mid(rt_pre(v, 5), rt_seg(v, 5), rt_suf(v, 6), s);
    assert(expect_at(s, rt_pre(v, 5).len() as int, ",\"session\":\""@) == Some(
        rt_pre(v, 6).len() as int,
    ));
    lemma_mid(rt_pre(v, 6), rt_seg(v, 6), rt_suf(v, 7), s);
    lemma_parse_escaped(s, rt_pre(v, 6).len() as int, v.session);
    assert(parse_str_at(s, rt_pre(v, 6).len() as int) == Some(
        (v.session, rt_pre(v, 7).len() as int),
    ));
}

#[verifier::rlimit(100)]
#[verifier::spinoff_prover]
proof fn lemma_rt_steps_back(v: RecView)
    requires
        wire_encodable(v),
    ensures
        rt_steps_back(v),
{
    reveal_strlit(",\"shell\":\"");
    reveal_strlit(",\"cmd\":\"");
    reveal_strlit(",\"cwd\":\"");
    reveal_strlit(",\"exit\":");
    reveal_strlit(",\"dur\":");
    reveal_strlit("}");
    reveal_strlit("bash");
    reveal_strlit("zsh");
    reveal_strlit("other");
    lemma_rt_frame(v);
    lemma_dec_digits(v.duration_ms as nat);
    let s = spec_encode(v);
    let sh = shell_name(v.shell_type);
    // the shell
    lemma_mid(rt_pre(v, 7), rt_seg(v, 7), rt_suf(v, 8), s);
    assert(expect_at(s, rt_pre(v, 7).len() as int, ",\"shell\":\""@) == Some(
        rt_pre(v, 8).len() as int,
    ));
    assert(forall|k: int|
        0 <= k < sh.len() ==> #[trigger] sh[k] != '"' && sh[k] != '\\' && sh[k] != '\n' && sh[k]
            != '\t' && sh[k] != '\r');
    lemma_esc_str_plain(sh);
    lemma_mid(rt_pre(v, 8), rt_seg(v, 8), rt_suf(v, 9), s);
    lemma_parse_escaped(s, rt_pre(v, 8).len() as int, sh);
    assert(parse_str_at(s, rt_pre(v, 8).len() as int) == Some(
        (sh, rt_pre(v, 9).len() as int),
    ));
    assert(shell_of(sh) == v.shell_type);
    // the command
    lemma_mid(rt_pre(v, 9), rt_seg(v, 9), rt_suf(v, 10), s);
    assert(expect_at(s, rt_pre(v, 9).len() as int, ",\"cmd\":\""@) == Some(
        rt_pre(v, 10).len() as int,
    ));
    lemma_mid(rt_pre(v, 10), rt_seg(v, 10), rt_suf(v, 11), s);
    lemma_parse_escaped(s, rt_pre(v, 10).len() as int, v.cmd);
    assert(parse_str_at(s, rt_pre(v, 10).len() as int) == Some(
        (v.cmd, rt_pre(v, 11).len() as int),
    ));
    // the directory
    lemma_mid(rt_pre(v, 11), rt_seg(v, 11), rt_suf(v, 12), s);
    assert(expect_at(s, rt_pre(v, 11).len() as int, ",\"cwd\":\""@) == Some(
        rt_pre(v, 12).len() as int,
    ));
    lemma_mid(rt_pre(v, 12), rt_seg(v, 12), rt_suf(v, 13), s);
    lemma_parse_escaped(s, rt_pre(v, 12).len() as int, v.cwd);
    assert(parse_str_at(s, rt_pre(v, 12).len() as int) == Some(
        (v.cwd, rt_pre(v, 13).len() as int),
    ));
    // the exit status
    lemma_mid(rt_pre(v, 13), rt_seg(v, 13), rt_suf(v, 14), s);
    assert(expect_at(s, rt_pre(v, 13).len() as int, ",\"exit\":"@) == Some(
        rt_pre(v, 14).len() as int,
    ));
    lemma_mid(rt_pre(v, 14), rt_seg(v, 14), rt_suf(v, 15), s);
    lemma_mid(rt_pre(v, 15), rt_seg(v, 15), rt_suf(v, 16), s);
    assert(s[rt_pre(v, 15).len() as int] == ",\"dur\":"@[0]);
    assert(!is_digit_char(s[rt_pre(v, 15).len() as int]));
    lemma_parse_i32_digits(s, rt_pre(v, 14).len() as int, v.exit_code);
    assert(parse_i32_at(s, rt_pre(v, 14).len() as int) == Some(
        (v.exit_code, rt_pre(v, 15).len() as int),
    ));
    // the duration
    assert(expect_at(s, rt_pre(v, 15).len() as int, ",\"dur\":"@) == Some(
        rt_pre(v, 16).len() as int,
    ));
    lemma_mid(rt_pre(v, 16), rt_seg(v, 16), rt_suf(v, 17), s);
    lemma_mid(rt_pre(v, 17), rt_seg(v, 17), rt_suf(v, 18), s);
    assert(s[rt_pre(v, 17).len() as int] == "}"@[0]);
    assert(!is_digit_char(s[rt_pre(v, 17).len() as int]));
    lemma_parse_u64_digits(s, rt_pre(v, 16).len() as int, v.duration_ms as nat);
    assert(parse_u64_at(s, rt_pre(v, 16).len() as int) == Some(
        (v.duration_ms, rt_pre(v, 17).len() as int),
    ));
    // the closing brace ends the line
    assert(rt_suf(v, 18) =~= Seq::<char>::empty());
    assert(rt_pre(v, 18).len() == s.len());
    assert(expect_at(s, rt_pre(v, 17).len() as int, "}"@) == Some(rt_pre(v, 18).len() as int));
    assert(tail_blank(s, s.len() as int));
}

/// Encoding and decoding invert each other: a record the wire format can
/// carry, written as one line, decodes to the very same record, field for
/// field. The command text in particular comes back as typed; redaction
/// happens later, in the sync pass, so a synced record differs from its
/// wire form only by the redaction of its command text.
#[verifier::rlimit(100)]
#[verifier::spinoff_prover]
pub proof fn lemma_round_trip(v: RecView)
    requires
        wire_encodable(v),
    ensures
        spec_parse_line(spec_encode(v)) == Some(v),
{
    lemma_rt_steps_front(v);
    lemma_rt_steps_back(v);
}

} // verus!
