//! The aggregation query engine: ranked, size-bounded, optionally
//! time-windowed statistics over the stored rows, each grouping by command
//! text. The window boundary is computed once (`window_cutoff`) and handed
//! to the store as a bound parameter — a window reaching back past the
//! epoch simply covers every row — and grouping and ranking are computed
//! here, over the rows the store hands back.
use crate::codec::CommandEntry;
use crate::codec::RecView;
use crate::duration::spec_window_cutoff;
use crate::duration::window_cutoff;
use crate::duration::DurationMs;
use crate::store::Store;
use crate::store::StoreError;
use vstd::prelude::*;

verus! {

/// How many rows a ranked result holds at most.
pub const TOP_N: usize = 3;

/// Which statistic ranks a result: invocation count, total runtime, or mean
/// runtime. The formatting rule for each is the presentation layer's
/// business.
#[derive(Clone, Copy, PartialEq, Eq, Structural, Debug)]
pub enum RankKey {
    Count,
    TotalMs,
    AvgMs,
}

/// A command with its invocation count.
pub struct CommandCount {
    pub command: String,
    pub count: u64,
}

/// A command with its total runtime in milliseconds and its invocation
/// count.
pub struct CommandRuntime {
    pub command: String,
    pub total_ms: u128,
    pub count: u64,
}

/// A command with its mean runtime in milliseconds (total divided by count,
/// rounded down).
pub struct CommandAvgRuntime {
    pub command: String,
    pub avg_ms: u64,
}

/// How many of the rows carry this command.
pub open spec fn cmd_count(rows: Seq<RecView>, c: Seq<char>) -> nat
    decreases rows.len(),
{
    if rows.len() == 0 {
        0
    } else {
        cmd_count(rows.drop_last(), c) + (if rows.last().cmd == c {
            1nat
        } else {
            0
        })
    }
}

/// The summed duration of the rows carrying this command.
pub open spec fn cmd_dur_total(rows: Seq<RecView>, c: Seq<char>) -> nat
    decreases rows.len(),
{
    if rows.len() == 0 {
        0
    } else {
        cmd_dur_total(rows.drop_last(), c) + (if rows.last().cmd == c {
            rows.last().duration_ms as nat
        } else {
            0
        })
    }
}

/// The mean duration of the rows carrying this command, rounded down.
pub open spec fn cmd_dur_avg(rows: Seq<RecView>, c: Seq<char>) -> nat {
    cmd_dur_total(rows, c) / cmd_count(rows, c)
}

/// The statistic that `key` ranks by, for one command.
pub open spec fn key_of(rows: Seq<RecView>, c: Seq<char>, key: RankKey) -> nat {
    match key {
        RankKey::Count => cmd_count(rows, c),
        RankKey::TotalMs => cmd_dur_total(rows, c),
        RankKey::AvgMs => cmd_dur_avg(rows, c),
    }
}

/// Some row carries this command.
pub open spec fn appears(rows: Seq<RecView>, c: Seq<char>) -> bool {
    exists|k: int| 0 <= k < rows.len() && rows[k].cmd == c
}

/// A command that appears is counted at least once, the count never exceeds
/// the row count, and the total stays below `count * u64::MAX`.
pub proof fn lemma_count_total(rows: Seq<RecView>, c: Seq<char>)
    ensures
        appears(rows, c) ==> cmd_count(rows, c) >= 1,
        cmd_count(rows, c) <= rows.len(),
        cmd_dur_total(rows, c) <= cmd_count(rows, c) * 0xffff_ffff_ffff_ffff,
    decreases rows.len(),
{
    if rows.len() > 0 {
        lemma_count_total(rows.drop_last(), c);
        if appears(rows, c) && rows.last().cmd != c {
            let k = choose|k: int| 0 <= k < rows.len() && rows[k].cmd == c;
            assert(k < rows.len() - 1);
            assert(rows.drop_last()[k].cmd == c);
            assert(appears(rows.drop_last(), c));
        }
        let n = cmd_count(rows.drop_last(), c);
        assert(n * 0xffff_ffff_ffff_ffff + 0xffff_ffff_ffff_ffff == (n
            + 1) * 0xffff_ffff_ffff_ffff) by (nonlinear_arith);
    }
}

/// The mean duration fits in a `u64`.
pub proof fn lemma_avg_fits(rows: Seq<RecView>, c: Seq<char>)
    requires
        appears(rows, c),
    ensures
        cmd_dur_avg(rows, c) <= 0xffff_ffff_ffff_ffff,
{
    lemma_count_total(rows, c);
    let t = cmd_dur_total(rows, c) as int;
    let n = cmd_count(rows, c) as int;
    let m = 0xffff_ffff_ffff_ffff as int;
    vstd::arithmetic::div_mod::lemma_div_is_ordered(t, n * m, n);
    vstd::arithmetic::div_mod::lemma_div_multiples_vanish(m, n);
    assert(n * m == m * n) by (nonlinear_arith);
}

/// Every group of `g` is a command of the rows with its exact count and
/// total, and no command is listed twice.
pub open spec fn groups_ok(rows: Seq<RecView>, g: Seq<CommandRuntime>) -> bool {
    &&& (forall|i: int| 0 <= i < g.len() ==> appears(rows, #[trigger] g[i].command@))
    &&& (forall|i: int|
        0 <= i < g.len() ==> #[trigger] g[i].count == cmd_count(rows, g[i].command@))
    &&& (forall|i: int|
        0 <= i < g.len() ==> #[trigger] g[i].total_ms == cmd_dur_total(rows, g[i].command@))
    &&& (forall|i: int, j: int|
        0 <= i < j < g.len() ==> #[trigger] g[i].command@ != #[trigger] g[j].command@)
}

/// Every command of the rows is listed in `a` or in `b`.
pub open spec fn covered(rows: Seq<RecView>, a: Seq<CommandRuntime>, b: Seq<CommandRuntime>) -> bool {
    forall|k: int|
        0 <= k < rows.len() ==> listed(a, #[trigger] rows[k].cmd) || listed(b, rows[k].cmd)
}

/// The command `c` is listed in `out`.
pub open spec fn listed(out: Seq<CommandRuntime>, c: Seq<char>) -> bool {
    exists|i: int| 0 <= i < out.len() && #[trigger] out[i].command@ == c
}

/// What a ranked result promises of the rows it was computed over: distinct
/// commands that occur in the rows, each with its exact count and total, in
/// descending order of the ranking statistic, at most `TOP_N` of them, all
/// commands covered when fewer, and no left-out command ranking above the
/// last listed one.
pub open spec fn ranked(rows: Seq<RecView>, out: Seq<CommandRuntime>, key: RankKey) -> bool {
    &&& out.len() <= TOP_N
    &&& groups_ok(rows, out)
    &&& (forall|i: int, j: int|
        0 <= i < j < out.len() ==> key_of(rows, #[trigger] out[i].command@, key) >= key_of(
            rows,
            #[trigger] out[j].command@,
            key,
        ))
    &&& (out.len() < TOP_N ==> (forall|k: int|
        0 <= k < rows.len() ==> listed(out, #[trigger] rows[k].cmd)))
    &&& (out.len() > 0 ==> (forall|k: int|
        0 <= k < rows.len() && !listed(out, #[trigger] rows[k].cmd) ==> key_of(
            rows,
            rows[k].cmd,
            key,
        ) <= key_of(rows, out[out.len() - 1].command@, key)))
}

/// The promises of a ranked frequency result, over rows of counts.
pub open spec fn ranked_counts(rows: Seq<RecView>, out: Seq<CommandCount>) -> bool {
    &&& out.len() <= TOP_N
    &&& (forall|i: int| 0 <= i < out.len() ==> appears(rows, #[trigger] out[i].command@))
    &&& (forall|i: int|
        0 <= i < out.len() ==> #[trigger] out[i].count == cmd_count(rows, out[i].command@))
    &&& (forall|i: int, j: int|
        0 <= i < j < out.len() ==> #[trigger] out[i].command@ != #[trigger] out[j].command@)
    &&& (forall|i: int, j: int| 0 <= i < j < out.len() ==> out[i].count >= out[j].count)
    &&& (out.len() < TOP_N ==> (forall|k: int|
        0 <= k < rows.len() ==> exists|i: int|
            0 <= i < out.len() && out[i].command@ == #[trigger] rows[k].cmd))
    &&& (out.len() > 0 ==> (forall|k: int|
        0 <= k < rows.len() && !(exists|i: int|
            0 <= i < out.len() && out[i].command@ == #[trigger] rows[k].cmd) ==> cmd_count(
            rows,
            rows[k].cmd,
        ) <= out[out.len() - 1].count))
}

/// The promises of a ranked mean-runtime result.
pub open spec fn ranked_avgs(rows: Seq<RecView>, out: Seq<CommandAvgRuntime>) -> bool {
    &&& out.len() <= TOP_N
    &&& (forall|i: int| 0 <= i < out.len() ==> appears(rows, #[trigger] out[i].command@))
    &&& (forall|i: int|
        0 <= i < out.len() ==> #[trigger] out[i].avg_ms == cmd_dur_avg(rows, out[i].command@))
    &&& (forall|i: int, j: int|
        0 <= i < j < out.len() ==> #[trigger] out[i].command@ != #[trigger] out[j].command@)
    &&& (forall|i: int, j: int| 0 <= i < j < out.len() ==> out[i].avg_ms >= out[j].avg_ms)
    &&& (out.len() < TOP_N ==> (forall|k: int|
        0 <= k < rows.len() ==> exists|i: int|
            0 <= i < out.len() && out[i].command@ == #[trigger] rows[k].cmd))
    &&& (out.len() > 0 ==> (forall|k: int|
        0 <= k < rows.len() && !(exists|i: int|
            0 <= i < out.len() && out[i].command@ == #[trigger] rows[k].cmd) ==> cmd_dur_avg(
            rows,
            rows[k].cmd,
        ) <= out[out.len() - 1].avg_ms))
}

/// Whether any group in `g` carries this command.
fn contains_cmd(g: &Vec<CommandRuntime>, cmd: &String) -> (b: bool)
    ensures
        b == exists|i: int| 0 <= i < g@.len() && #[trigger] g@[i].command@ == cmd@,
{
    let mut j: usize = 0;
    while j < g.len()
        invariant
            j <= g@.len(),
            forall|i: int| 0 <= i < j ==> #[trigger] g@[i].command@ != cmd@,
        decreases g@.len() - j,
    {
        if g[j].command == *cmd {
            return true;
        }
        j = j + 1;
    }
    false
}

/// Counts the rows carrying `cmd` and sums their durations.
fn tally_cmd(rows: &Vec<CommandEntry>, cmd: &String) -> (r: (u64, u128))
    ensures
        r.0 == cmd_count(rows.deep_view(), cmd@),
        r.1 == cmd_dur_total(rows.deep_view(), cmd@),
{
    let ghost all = rows.deep_view();
    let mut count: u64 = 0;
    let mut total: u128 = 0;
    let mut j: usize = 0;
    while j < rows.len()
        invariant
            j <= rows@.len(),
            all == rows.deep_view(),
            all.len() == rows@.len(),
            forall|k: int| 0 <= k < all.len() ==> all[k] == #[trigger] rows@[k]@,
            count == cmd_count(all.take(j as int), cmd@),
            total == cmd_dur_total(all.take(j as int), cmd@),
            count <= j,
            total <= count * 0xffff_ffff_ffff_ffff,
        decreases rows@.len() - j,
    {
        let ghost pre = all.take(j as int);
        proof {
            assert(all.take(j + 1).drop_last() =~= pre);
            assert(all.take(j + 1).last() == all[j as int]);
            assert((count + 1) * 0xffff_ffff_ffff_ffff == count * 0xffff_ffff_ffff_ffff
                + 0xffff_ffff_ffff_ffff) by (nonlinear_arith);
        }
        if rows[j].cmd == *cmd {
            count = count + 1;
            total = total + rows[j].duration_ms as u128;
        }
        j = j + 1;
    }
    proof {
        assert(all.take(rows@.len() as int) =~= all);
    }
    (count, total)
}

/// Groups the rows by command: one entry per distinct command, in first
/// appearance order, carrying its exact count and total.
fn group_rows(rows: &Vec<CommandEntry>) -> (g: Vec<CommandRuntime>)
    ensures
        groups_ok(rows.deep_view(), g@),
        forall|k: int|
            0 <= k < rows.deep_view().len() ==> listed(g@, #[trigger] rows.deep_view()[k].cmd),
{
    let ghost all = rows.deep_view();
    let mut g: Vec<CommandRuntime> = Vec::new();
    let mut j: usize = 0;
    while j < rows.len()
        invariant
            j <= rows@.len(),
            all == rows.deep_view(),
            all.len() == rows@.len(),
            forall|k: int| 0 <= k < all.len() ==> all[k] == #[trigger] rows@[k]@,
            groups_ok(all, g@),
            forall|k: int| 0 <= k < j ==> listed(g@, #[trigger] all[k].cmd),
        decreases rows@.len() - j,
    {
        let cmd_here = &rows[j].cmd;
        assert(all[j as int].cmd == cmd_here@);
        let ghost old_g = g@;
        if !contains_cmd(&g, cmd_here) {
            let (count, total) = tally_cmd(rows, cmd_here);
            assert(appears(all, cmd_here@));
            g.push(CommandRuntime { command: cmd_here.clone(), total_ms: total, count: count });
            proof {
                assert forall|k: int| 0 <= k < j + 1 implies listed(
                    g@,
                    #[trigger] all[k].cmd,
                ) by {
                    if k < j {
                        let i0 = choose|i: int|
                            0 <= i < old_g.len() && #[trigger] old_g[i].command@ == all[k].cmd;
                        assert(g@[i0].command@ == all[k].cmd);
                    } else {
                        assert(g@[old_g.len() as int].command@ == all[k].cmd);
                    }
                }
            }
        } else {
            proof {
                assert forall|k: int| 0 <= k < j + 1 implies listed(
                    g@,
                    #[trigger] all[k].cmd,
                ) by {
                    if k == j {
                        let i0 = choose|i: int|
                            0 <= i < g@.len() && #[trigger] g@[i].command@ == cmd_here@;
                        assert(g@[i0].command@ == all[k].cmd);
                    }
                }
            }
        }
        j = j + 1;
    }
    proof {
        assert forall|k: int| 0 <= k < rows.deep_view().len() implies listed(
            g@,
            #[trigger] rows.deep_view()[k].cmd,
        ) by {
            assert(all[k].cmd == rows.deep_view()[k].cmd);
            assert(listed(g@, all[k].cmd));
        }
    }
    g
}

/// The ranking statistic of one group under `key`, computed from its count
/// and total.
fn key_value(gr: &CommandRuntime, key: RankKey, Ghost(rows): Ghost<Seq<RecView>>) -> (r: u128)
    requires
        gr.count == cmd_count(rows, gr.command@),
        gr.total_ms == cmd_dur_total(rows, gr.command@),
        appears(rows, gr.command@),
    ensures
        r == key_of(rows, gr.command@, key),
{
    proof {
        lemma_count_total(rows, gr.command@);
    }
    match key {
        RankKey::Count => gr.count as u128,
        RankKey::TotalMs => gr.total_ms,
        RankKey::AvgMs => gr.total_ms / (gr.count as u128),
    }
}

/// Picks the `TOP_N` groups with the greatest statistic out of `g`, in
/// descending order.
#[verifier::rlimit(100)]
#[verifier::spinoff_prover]
fn top_select(g: Vec<CommandRuntime>, Ghost(rows): Ghost<Seq<RecView>>, key: RankKey) -> (out:
    Vec<CommandRuntime>)
    requires
        groups_ok(rows, g@),
        forall|k: int| 0 <= k < rows.len() ==> listed(g@, #[trigger] rows[k].cmd),
    ensures
        ranked(rows, out@, key),
{
    let ghost g0 = g@;
    let mut rest = g;
    let mut out: Vec<CommandRuntime> = Vec::new();
    proof {
        assert forall|k: int| 0 <= k < rows.len() implies listed(
            out@,
            #[trigger] rows[k].cmd,
        ) || listed(rest@, rows[k].cmd) by {
            assert(listed(g0, rows[k].cmd));
            let i0 = choose|i: int| 0 <= i < g0.len() && #[trigger] g0[i].command@ == rows[k].cmd;
            assert(0 <= i0 < rest@.len() && rest@[i0].command@ == rows[k].cmd);
            assert(listed(rest@, rows[k].cmd));
        }
        assert(covered(rows, out@, rest@));
    }
    while out.len() < TOP_N && rest.len() > 0
        invariant
            out@.len() <= TOP_N,
            groups_ok(rows, rest@),
            groups_ok(rows, out@),
            forall|i: int, j: int|
                0 <= i < out@.len() && 0 <= j < rest@.len() ==> #[trigger] out@[i].command@
                    != #[trigger] rest@[j].command@,
            forall|i: int, j: int|
                0 <= i < j < out@.len() ==> key_of(rows, #[trigger] out@[i].command@, key)
                    >= key_of(rows, #[trigger] out@[j].command@, key),
            forall|i: int, j: int|
                0 <= i < out@.len() && 0 <= j < rest@.len() ==> key_of(
                    rows,
                    #[trigger] out@[i].command@,
                    key,
                ) >= key_of(rows, #[trigger] rest@[j].command@, key),
            covered(rows, out@, rest@),
        decreases rest@.len(),
    {
        let mut best: usize = 0;
        let mut j: usize = 1;
        while j < rest.len()
            invariant
                best < j,
                j <= rest@.len(),
                rest@.len() > 0,
                groups_ok(rows, rest@),
                forall|i: int|
                    0 <= i < j ==> key_of(rows, rest@[best as int].command@, key) >= key_of(
                        rows,
                        #[trigger] rest@[i].command@,
                        key,
                    ),
            decreases rest@.len() - j,
        {
            let key_j = key_value(&rest[j], key, Ghost(rows));
            let key_b = key_value(&rest[best], key, Ghost(rows));
            if key_j > key_b {
                best = j;
            }
            j = j + 1;
        }
        let ghost pre_rest = rest@;
        let ghost pre_out = out@;
        let picked = rest.swap_remove(best);
        out.push(picked);
        proof {
            assert(out@[out@.len() - 1].command@ == pre_rest[best as int].command@);
            assert forall|k: int| 0 <= k < rows.len() implies listed(
                out@,
                #[trigger] rows[k].cmd,
            ) || listed(rest@, rows[k].cmd) by {
                if listed(pre_out, rows[k].cmd) {
                    let i0 = choose|i: int|
                        0 <= i < pre_out.len() && #[trigger] pre_out[i].command@ == rows[k].cmd;
                    assert(0 <= i0 < out@.len() && out@[i0].command@ == rows[k].cmd);
                    assert(listed(out@, rows[k].cmd));
                } else {
                    let i0 = choose|i: int|
                        0 <= i < pre_rest.len() && #[trigger] pre_rest[i].command@ == rows[k].cmd;
                    if i0 == best {
                        assert(out@[out@.len() - 1].command@ == rows[k].cmd);
                        assert(listed(out@, rows[k].cmd));
                    } else if i0 == pre_rest.len() - 1 && (best as int) < pre_rest.len() - 1 {
                        assert(rest@[best as int].command@ == rows[k].cmd);
                        assert(listed(rest@, rows[k].cmd));
                    } else if i0 == pre_rest.len() - 1 {
                        assert(out@[out@.len() - 1].command@ == rows[k].cmd);
                        assert(listed(out@, rows[k].cmd));
                    } else {
                        assert(rest@[i0].command@ == rows[k].cmd);
                        assert(listed(rest@, rows[k].cmd));
                    }
                }
            }
            assert(covered(rows, out@, rest@));
        }
    }
    proof {
        if out@.len() < TOP_N {
            assert(rest@.len() == 0);
            assert forall|k: int| 0 <= k < rows.len() implies listed(
                out@,
                #[trigger] rows[k].cmd,
            ) by {
                assert(listed(out@, rows[k].cmd) || listed(rest@, rows[k].cmd));
                if listed(rest@, rows[k].cmd) {
                    let i0 = choose|i: int|
                        0 <= i < rest@.len() && #[trigger] rest@[i].command@ == rows[k].cmd;
                    assert(false);
                }
            }
        }
        if out@.len() > 0 {
            assert forall|k: int|
                0 <= k < rows.len() && !listed(out@, #[trigger] rows[k].cmd) implies key_of(
                rows,
                rows[k].cmd,
                key,
            ) <= key_of(rows, out@[out@.len() - 1].command@, key) by {
                assert(listed(out@, rows[k].cmd) || listed(rest@, rows[k].cmd));
                let i0 = choose|i: int|
                    0 <= i < rest@.len() && #[trigger] rest@[i].command@ == rows[k].cmd;
                assert(0 <= i0 < rest@.len() && rest@[i0].command@ == rows[k].cmd);
                assert(key_of(rows, out@[out@.len() - 1].command@, key) >= key_of(
                    rows,
                    rest@[i0].command@,
                    key,
                ));
            }
        }
    }
    out
}

/// Groups and ranks the rows the store hands back for one statistic.
fn ranked_groups(rows: &Vec<CommandEntry>, key: RankKey) -> (out: Vec<CommandRuntime>)
    ensures
        ranked(rows.deep_view(), out@, key),
{
    let g = group_rows(rows);
    top_select(g, Ghost(rows.deep_view()), key)
}

/// Builds the frequency rows out of a ranked count result.
fn counts_from(rk: Vec<CommandRuntime>, Ghost(rows): Ghost<Seq<RecView>>) -> (out: Vec<
    CommandCount,
>)
    requires
        ranked(rows, rk@, RankKey::Count),
    ensures
        ranked_counts(rows, out@),
{
    let mut out: Vec<CommandCount> = Vec::new();
    let mut i: usize = 0;
    while i < rk.len()
        invariant
            i <= rk@.len(),
            ranked(rows, rk@, RankKey::Count),
            out@.len() == i,
            forall|j: int| 0 <= j < i ==> (#[trigger] out@[j]).command@ == rk@[j].command@,
            forall|j: int| 0 <= j < i ==> (#[trigger] out@[j]).count == rk@[j].count,
        decreases rk@.len() - i,
    {
        out.push(CommandCount { command: rk[i].command.clone(), count: rk[i].count });
        i = i + 1;
    }
    proof {
        assert forall|i2: int, j: int| 0 <= i2 < j < out@.len() implies out@[i2].count
            >= out@[j].count by {
            assert(out@[i2].command@ == rk@[i2].command@ && out@[i2].count == rk@[i2].count);
            assert(out@[j].command@ == rk@[j].command@ && out@[j].count == rk@[j].count);
            assert(rk@[i2].count == cmd_count(rows, rk@[i2].command@));
            assert(rk@[j].count == cmd_count(rows, rk@[j].command@));
            assert(key_of(rows, rk@[i2].command@, RankKey::Count) >= key_of(
                rows,
                rk@[j].command@,
                RankKey::Count,
            ));
        }
        if out@.len() < TOP_N {
            assert forall|k: int| 0 <= k < rows.len() implies exists|i2: int|
                0 <= i2 < out@.len() && out@[i2].command@ == #[trigger] rows[k].cmd by {
                assert(listed(rk@, rows[k].cmd));
                let i0 = choose|i2: int|
                    0 <= i2 < rk@.len() && #[trigger] rk@[i2].command@ == rows[k].cmd;
                assert(0 <= i0 < out@.len() && out@[i0].command@ == rows[k].cmd);
            }
        }
        if out@.len() > 0 {
            assert forall|k: int|
                0 <= k < rows.len() && !(exists|i2: int|
                    0 <= i2 < out@.len() && out@[i2].command@
                        == #[trigger] rows[k].cmd) implies cmd_count(rows, rows[k].cmd)
                <= out@[out@.len() - 1].count by {
                if listed(rk@, rows[k].cmd) {
                    let i0 = choose|i2: int|
                        0 <= i2 < rk@.len() && #[trigger] rk@[i2].command@ == rows[k].cmd;
                    assert(0 <= i0 < out@.len() && out@[i0].command@ == rows[k].cmd);
                } else {
                    assert(key_of(rows, rows[k].cmd, RankKey::Count) <= key_of(
                        rows,
                        rk@[rk@.len() - 1].command@,
                        RankKey::Count,
                    ));
                }
            }
        }
    }
    out
}

/// Builds the mean-runtime rows out of a ranked mean result.
fn avgs_from(rk: Vec<CommandRuntime>, Ghost(rows): Ghost<Seq<RecView>>) -> (out: Vec<
    CommandAvgRuntime,
>)
    requires
        ranked(rows, rk@, RankKey::AvgMs),
    ensures
        ranked_avgs(rows, out@),
{
    let mut out: Vec<CommandAvgRuntime> = Vec::new();
    let mut i: usize = 0;
    while i < rk.len()
        invariant
            i <= rk@.len(),
            ranked(rows, rk@, RankKey::AvgMs),
            out@.len() == i,
            forall|j: int| 0 <= j < i ==> (#[trigger] out@[j]).command@ == rk@[j].command@,
            forall|j: int|
                0 <= j < i ==> (#[trigger] out@[j]).avg_ms == cmd_dur_avg(rows, rk@[j].command@),
        decreases rk@.len() - i,
    {
        proof {
            lemma_avg_fits(rows, rk@[i as int].command@);
            lemma_count_total(rows, rk@[i as int].command@);
        }
        let avg_wide = rk[i].total_ms / (rk[i].count as u128);
        let avg: u64 = avg_wide as u64;
        out.push(CommandAvgRuntime { command: rk[i].command.clone(), avg_ms: avg });
        i = i + 1;
    }
    proof {
        assert forall|i2: int, j: int| 0 <= i2 < j < out@.len() implies out@[i2].avg_ms
            >= out@[j].avg_ms by {
            assert(out@[i2].command@ == rk@[i2].command@ && out@[i2].avg_ms == cmd_dur_avg(
                rows,
                rk@[i2].command@,
            ));
            assert(out@[j].command@ == rk@[j].command@ && out@[j].avg_ms == cmd_dur_avg(
                rows,
                rk@[j].command@,
            ));
            assert(key_of(rows, rk@[i2].command@, RankKey::AvgMs) >= key_of(
                rows,
                rk@[j].command@,
                RankKey::AvgMs,
            ));
        }
        if out@.len() < TOP_N {
            assert forall|k: int| 0 <= k < rows.len() implies exists|i2: int|
                0 <= i2 < out@.len() && out@[i2].command@ == #[trigger] rows[k].cmd by {
                assert(listed(rk@, rows[k].cmd));
                let i0 = choose|i2: int|
                    0 <= i2 < rk@.len() && #[trigger] rk@[i2].command@ == rows[k].cmd;
                assert(0 <= i0 < out@.len() && out@[i0].command@ == rows[k].cmd);
            }
        }
        if out@.len() > 0 {
            assert forall|k: int|
                0 <= k < rows.len() && !(exists|i2: int|
                    0 <= i2 < out@.len() && out@[i2].command@
                        == #[trigger] rows[k].cmd) implies cmd_dur_avg(rows, rows[k].cmd)
                <= out@[out@.len() - 1].avg_ms by {
                if listed(rk@, rows[k].cmd) {
                    let i0 = choose|i2: int|
                        0 <= i2 < rk@.len() && #[trigger] rk@[i2].command@ == rows[k].cmd;
                    assert(0 <= i0 < out@.len() && out@[i0].command@ == rows[k].cmd);
                } else {
                    assert(key_of(rows, rows[k].cmd, RankKey::AvgMs) <= key_of(
                        rows,
                        rk@[rk@.len() - 1].command@,
                        RankKey::AvgMs,
                    ));
                }
            }
        }
    }
    out
}

/// The rows inside a window reaching back from `now_ms`: those strictly
/// newer than `now_ms - window_ms`. A window reaching back past the epoch
/// covers every row.
pub open spec fn windowed(rows: Seq<RecView>, now_ms: u64, window_ms: u64) -> Seq<RecView> {
    if window_ms > now_ms {
        rows
    } else {
        crate::store::rows_newer_than(rows, spec_window_cutoff(now_ms, window_ms))
    }
}

/// The windowed rows, fetched from the store: everything when the window
/// reaches past the epoch, otherwise the rows newer than the cutoff.
fn fetch_windowed(store: &Store, now_ms: u64, window: DurationMs) -> (r: Result<
    Vec<CommandEntry>,
    StoreError,
>)
    requires
        store.wf(),
        now_ms < 0x8000_0000_0000_0000,
    ensures
        match r {
            Ok(v) => v.deep_view() == windowed(store.rows@, now_ms, window.ms),
            Err(_) => true,
        },
{
    if window.ms > now_ms {
        store.select_all()
    } else {
        let cutoff = window_cutoff(now_ms, window);
        store.select_since(cutoff)
    }
}

/// The commands invoked most often, over the whole store: at most `TOP_N`,
/// most frequent first, each with its exact count.
pub fn most_frequent_cmd(store: &Store) -> (r: Result<Vec<CommandCount>, StoreError>)
    requires
        store.wf(),
    ensures
        match r {
            Ok(v) => ranked_counts(store.rows@, v@),
            Err(_) => true,
        },
{
    let rows = match store.select_all() {
        Ok(v) => v,
        Err(e) => {
            return Err(e);
        },
    };
    let rk = ranked_groups(&rows, RankKey::Count);
    Ok(counts_from(rk, Ghost(rows.deep_view())))
}

/// The commands invoked most often inside the window reaching back from
/// `now_ms`: at most `TOP_N`, most frequent first, each with its exact
/// count over the windowed rows.
pub fn most_used_command(store: &Store, now_ms: u64, window: DurationMs) -> (r: Result<
    Vec<CommandCount>,
    StoreError,
>)
    requires
        store.wf(),
        now_ms < 0x8000_0000_0000_0000,
    ensures
        match r {
            Ok(v) => ranked_counts(windowed(store.rows@, now_ms, window.ms), v@),
            Err(_) => true,
        },
{
    let rows = match fetch_windowed(store, now_ms, window) {
        Ok(v) => v,
        Err(e) => {
            return Err(e);
        },
    };
    let rk = ranked_groups(&rows, RankKey::Count);
    Ok(counts_from(rk, Ghost(rows.deep_view())))
}

/// The commands with the greatest total runtime inside the window: at most
/// `TOP_N`, greatest total first, each with its exact total and count over
/// the windowed rows. The presentation layer converts totals to hours.
pub fn cmd_runtimes(store: &Store, now_ms: u64, window: DurationMs) -> (r: Result<
    Vec<CommandRuntime>,
    StoreError,
>)
    requires
        store.wf(),
        now_ms < 0x8000_0000_0000_0000,
    ensures
        match r {
            Ok(v) => ranked(windowed(store.rows@, now_ms, window.ms), v@, RankKey::TotalMs),
            Err(_) => true,
        },
{
    let rows = match fetch_windowed(store, now_ms, window) {
        Ok(v) => v,
        Err(e) => {
            return Err(e);
        },
    };
    Ok(ranked_groups(&rows, RankKey::TotalMs))
}

/// The commands with the greatest mean runtime inside the window: at most
/// `TOP_N`, greatest mean first, each with its exact rounded-down mean over
/// the windowed rows.
pub fn cmd_avg_runtime(store: &Store, now_ms: u64, window: DurationMs) -> (r: Result<
    Vec<CommandAvgRuntime>,
    StoreError,
>)
    requires
        store.wf(),
        now_ms < 0x8000_0000_0000_0000,
    ensures
        match r {
            Ok(v) => ranked_avgs(windowed(store.rows@, now_ms, window.ms), v@),
            Err(_) => true,
        },
{
    let rows = match fetch_windowed(store, now_ms, window) {
        Ok(v) => v,
        Err(e) => {
            return Err(e);
        },
    };
    let rk = ranked_groups(&rows, RankKey::AvgMs);
    Ok(avgs_from(rk, Ghost(rows.deep_view())))
}

} // verus!

