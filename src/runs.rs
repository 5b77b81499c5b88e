//! The mathematical model: maximal runs of adjacent equal lines, the runs a
//! mode selects, and the records they become.
use vstd::prelude::*;

use crate::config::Mode;
use crate::decimal::decimal;

verus! {

/// A run: its representative line and how many adjacent lines it holds.
pub type Run = (Seq<char>, nat);

/// The maximal runs of `lines`, in input order.
///
/// Each line either extends the run before it, when it equals that run's
/// representative, or opens a new run of length one.
pub open spec fn runs_of(lines: Seq<Seq<char>>) -> Seq<Run>
    decreases lines.len(),
{
    if lines.len() == 0 {
        seq![]
    } else {
        let prev = runs_of(lines.drop_last());
        let line = lines.last();
        if prev.len() > 0 && prev.last().0 == line {
            prev.update(prev.len() - 1, (line, prev.last().1 + 1))
        } else {
            prev.push((line, 1))
        }
    }
}

/// Whether a run of `n` lines is output under `mode`.
pub open spec fn admits(mode: Mode, n: nat) -> bool {
    match mode {
        Mode::All => true,
        Mode::Repeated => n > 1,
        Mode::Unique => n == 1,
    }
}

/// The runs of `runs` that `mode` admits, in order.
pub open spec fn selected(mode: Mode, runs: Seq<Run>) -> Seq<Run>
    decreases runs.len(),
{
    if runs.len() == 0 {
        seq![]
    } else {
        let prev = selected(mode, runs.drop_last());
        if admits(mode, runs.last().1) {
            prev.push(runs.last())
        } else {
            prev
        }
    }
}

/// The output text of one run: `"<count> <line>"` when counting, else the line.
pub open spec fn render(counting: bool, run: Run) -> Seq<char> {
    if counting {
        decimal(run.1) + seq![' '] + run.0
    } else {
        run.0
    }
}

/// The records that `runs` give under `mode` and `counting`.
pub open spec fn records_of_runs(mode: Mode, counting: bool, runs: Seq<Run>) -> Seq<Seq<char>> {
    selected(mode, runs).map_values(|r: Run| render(counting, r))
}

/// The records that the whole input `lines` gives.
pub open spec fn records(mode: Mode, counting: bool, lines: Seq<Seq<char>>) -> Seq<Seq<char>> {
    records_of_runs(mode, counting, runs_of(lines))
}

/// The lines of `runs` written out again: each representative, as many times
/// as its run is long.
pub open spec fn expand(runs: Seq<Run>) -> Seq<Seq<char>>
    decreases runs.len(),
{
    if runs.len() == 0 {
        seq![]
    } else {
        expand(runs.drop_last()) + Seq::new(runs.last().1, |i: int| runs.last().0)
    }
}

/// The sum of the lengths of `runs`.
pub open spec fn total(runs: Seq<Run>) -> nat
    decreases runs.len(),
{
    if runs.len() == 0 {
        0
    } else {
        total(runs.drop_last()) + runs.last().1
    }
}

/// No run is empty and no two adjacent runs share their representative.
pub open spec fn maximal(runs: Seq<Run>) -> bool {
    &&& forall|k: int| 0 <= k < runs.len() ==> #[trigger] runs[k].1 >= 1
    &&& forall|k: int| 0 <= k < runs.len() - 1 ==> #[trigger] runs[k].0 != runs[k + 1].0
}

/// No two adjacent entries of `lines` are equal.
pub open spec fn no_adjacent_equal(lines: Seq<Seq<char>>) -> bool {
    forall|k: int| 0 <= k < lines.len() - 1 ==> #[trigger] lines[k] != lines[k + 1]
}

/// Index `i` of `lines` opens a run: it is the first line or differs from the
/// line before it.
pub open spec fn starts_run(lines: Seq<Seq<char>>, i: int) -> bool {
    0 <= i < lines.len() && (i == 0 || lines[i - 1] != lines[i])
}

/// `idx` places each entry of `a` at a position of `b` holding the same
/// value, at strictly increasing positions: `a` is a subsequence of `b`.
pub open spec fn embeds(a: Seq<Seq<char>>, b: Seq<Seq<char>>, idx: Seq<int>) -> bool {
    &&& idx.len() == a.len()
    &&& forall|k: int| 0 <= k < idx.len() ==> 0 <= #[trigger] idx[k] < b.len() && a[k] == b[idx[k]]
    &&& forall|k: int, l: int| 0 <= k < l < idx.len() ==> #[trigger] idx[k] < #[trigger] idx[l]
}

/// The representative lines of `runs`.
pub open spec fn representatives(runs: Seq<Run>) -> Seq<Seq<char>> {
    runs.map_values(|r: Run| r.0)
}


/// Structure of `runs_of`: the runs are maximal, the last one ends with the
/// last line, and written out again they give back exactly the input, so that
/// every line belongs to exactly one run.
pub proof fn lemma_runs_partition(lines: Seq<Seq<char>>)
    ensures
        maximal(runs_of(lines)),
        expand(runs_of(lines)) == lines,
        runs_of(lines).len() <= lines.len(),
        runs_of(lines).len() == 0 <==> lines.len() == 0,
        lines.len() > 0 ==> runs_of(lines).last().0 == lines.last(),
    decreases lines.len(),
{
    if lines.len() > 0 {
        let prefix = lines.drop_last();
        lemma_runs_partition(prefix);
        let prev = runs_of(prefix);
        let line = lines.last();
        let runs = runs_of(lines);
        if prev.len() > 0 && prev.last().0 == line {
            let n = prev.last().1;
            assert(runs.drop_last() =~= prev.drop_last());
            assert(expand(prev) == expand(prev.drop_last()) + Seq::new(n, |i: int| line));
            assert(Seq::new(n + 1, |i: int| line) =~= Seq::new(n, |i: int| line).push(line));
            assert(expand(runs) =~= expand(prev).push(line));
            assert(lines =~= prefix.push(line));
            assert(maximal(runs)) by {
                assert forall|k: int| 0 <= k < runs.len() - 1 implies #[trigger] runs[k].0 != runs[k + 1].0 by {
                    assert(prev[k].0 != prev[k + 1].0);
                }
            }
        } else {
            assert(runs.drop_last() =~= prev);
            assert(Seq::new(1, |i: int| line) =~= seq![line]);
            assert(lines =~= prefix.push(line));
            assert(expand(runs) =~= expand(prev).push(line));
            assert(maximal(runs)) by {
                assert forall|k: int| 0 <= k < runs.len() - 1 implies #[trigger] runs[k].0 != runs[k + 1].0 by {
                    if k < runs.len() - 2 {
                        assert(prev[k].0 != prev[k + 1].0);
                    } else {
                        assert(prefix.last() == lines[lines.len() - 2]);
                    }
                }
            }
        }
    }
}


proof fn lemma_expand_len(runs: Seq<Run>)
    ensures
        expand(runs).len() == total(runs),
    decreases runs.len(),
{
    if runs.len() > 0 {
        lemma_expand_len(runs.drop_last());
    }
}

/// `Mode::All` selects every run.
pub proof fn lemma_all_selects_every_run(runs: Seq<Run>)
    ensures
        selected(Mode::All, runs) == runs,
    decreases runs.len(),
{
    if runs.len() > 0 {
        lemma_all_selects_every_run(runs.drop_last());
        assert(runs.drop_last().push(runs.last()) =~= runs);
    }
}

/// Count conservation: in `Mode::All` every output run holds at least one
/// line, and the lengths of the output runs add up to
/// the number of input lines.
pub proof fn lemma_count_conservation(lines: Seq<Seq<char>>)
    ensures
        total(selected(Mode::All, runs_of(lines))) == lines.len(),
        forall|k: int|
            0 <= k < selected(Mode::All, runs_of(lines)).len() ==> #[trigger] selected(
                Mode::All,
                runs_of(lines),
            )[k].1 >= 1,
{
    lemma_runs_partition(lines);
    lemma_expand_len(runs_of(lines));
    lemma_all_selects_every_run(runs_of(lines));
}

/// Lines of which no two adjacent ones are equal form runs of one line each.
proof fn lemma_runs_of_distinct(lines: Seq<Seq<char>>)
    requires
        no_adjacent_equal(lines),
    ensures
        runs_of(lines) == lines.map_values(|l: Seq<char>| (l, 1nat)),
    decreases lines.len(),
{
    if lines.len() > 0 {
        let prefix = lines.drop_last();
        assert(no_adjacent_equal(prefix)) by {
            assert forall|k: int| 0 <= k < prefix.len() - 1 implies #[trigger] prefix[k] != prefix[k + 1] by {
                assert(lines[k] != lines[k + 1]);
            }
        }
        lemma_runs_of_distinct(prefix);
        if prefix.len() > 0 {
            assert(lines[lines.len() - 2] != lines[lines.len() - 1]);
        }
        assert(lines.map_values(|l: Seq<char>| (l, 1nat)) =~= prefix.map_values(
            |l: Seq<char>| (l, 1nat),
        ).push((lines.last(), 1nat)));
    }
}

/// In `Mode::All` without counts, the records are the representatives of the
/// runs.
proof fn lemma_plain_records(lines: Seq<Seq<char>>)
    ensures
        records(Mode::All, false, lines) == representatives(runs_of(lines)),
{
    lemma_all_selects_every_run(runs_of(lines));
    assert(records(Mode::All, false, lines) =~= representatives(runs_of(lines)));
}

/// Idempotence of collapsing: in `Mode::All` without counts, no two adjacent
/// output lines are equal, so a second pass over the output gives it back
/// unchanged.
pub proof fn lemma_collapse_idempotent(lines: Seq<Seq<char>>)
    ensures
        no_adjacent_equal(records(Mode::All, false, lines)),
        records(Mode::All, false, records(Mode::All, false, lines)) == records(
            Mode::All,
            false,
            lines,
        ),
{
    let out = records(Mode::All, false, lines);
    lemma_plain_records(lines);
    lemma_runs_partition(lines);
    let runs = runs_of(lines);
    assert(no_adjacent_equal(out)) by {
        assert forall|k: int| 0 <= k < out.len() - 1 implies #[trigger] out[k] != out[k + 1] by {
            assert(runs[k].0 != runs[k + 1].0);
        }
    }
    lemma_runs_of_distinct(out);
    lemma_plain_records(out);
    assert(representatives(runs_of(out)) =~= out);
}

/// The index of each run's first line.
spec fn run_starts(lines: Seq<Seq<char>>) -> Seq<int>
    decreases lines.len(),
{
    if lines.len() == 0 {
        seq![]
    } else {
        let prev = run_starts(lines.drop_last());
        if lines.len() > 1 && lines[lines.len() - 2] == lines.last() {
            prev
        } else {
            prev.push(lines.len() - 1)
        }
    }
}

proof fn lemma_run_starts(lines: Seq<Seq<char>>)
    ensures
        embeds(representatives(runs_of(lines)), lines, run_starts(lines)),
        forall|k: int|
            0 <= k < run_starts(lines).len() ==> starts_run(lines, #[trigger] run_starts(lines)[k]),
        forall|i: int| starts_run(lines, i) ==> run_starts(lines).contains(i),
    decreases lines.len(),
{
    if lines.len() > 0 {
        let prefix = lines.drop_last();
        lemma_run_starts(prefix);
        lemma_runs_partition(prefix);
        lemma_runs_partition(lines);
        let prev = run_starts(prefix);
        let s = run_starts(lines);
        let runs = runs_of(lines);
        let reps = representatives(runs);
        let n = lines.len();
        assert forall|i: int| starts_run(prefix, i) <==> 0 <= i < n - 1 && starts_run(lines, i) by {}
        if n > 1 && lines[n - 2] == lines.last() {
            assert(prefix.last() == lines[n - 2]);
            assert(representatives(runs_of(prefix)) =~= reps);
            assert forall|i: int| starts_run(lines, i) implies s.contains(i) by {
                assert(starts_run(prefix, i));
            }
        } else {
            assert(representatives(runs_of(prefix)).push(lines.last()) =~= reps);
            assert(starts_run(lines, n - 1));
            assert forall|i: int| starts_run(lines, i) implies s.contains(i) by {
                if i < n - 1 {
                    assert(starts_run(prefix, i));
                    let k = choose|k: int| 0 <= k < prev.len() && prev[k] == i;
                    assert(s[k] == i);
                } else {
                    assert(s[s.len() - 1] == i);
                }
            }
        }
    }
}

/// The positions in `runs` of the runs that `mode` selects.
proof fn lemma_selected_positions(mode: Mode, runs: Seq<Run>) -> (j: Seq<int>)
    ensures
        j.len() == selected(mode, runs).len(),
        forall|k: int|
            0 <= k < j.len() ==> 0 <= #[trigger] j[k] < runs.len() && selected(mode, runs)[k]
                == runs[j[k]],
        forall|k: int, l: int| 0 <= k < l < j.len() ==> #[trigger] j[k] < #[trigger] j[l],
    decreases runs.len(),
{
    if runs.len() == 0 {
        seq![]
    } else {
        let prev = lemma_selected_positions(mode, runs.drop_last());
        if admits(mode, runs.last().1) {
            prev.push(runs.len() - 1)
        } else {
            prev
        }
    }
}

/// Order preservation: the representatives of the output runs stand in the
/// input in the same order, each at a line that opens a run; in `Mode::All`
/// every line that opens a run is among them.
pub proof fn lemma_order_preserved(mode: Mode, lines: Seq<Seq<char>>)
    ensures
        exists|idx: Seq<int>|
            #![trigger embeds(representatives(selected(mode, runs_of(lines))), lines, idx)]
            embeds(representatives(selected(mode, runs_of(lines))), lines, idx) && (forall|k: int|
                0 <= k < idx.len() ==> starts_run(lines, #[trigger] idx[k])) && (mode == Mode::All
                ==> forall|i: int| starts_run(lines, i) ==> idx.contains(i)),
{
    let runs = runs_of(lines);
    let s = run_starts(lines);
    lemma_run_starts(lines);
    let reps = representatives(selected(mode, runs));
    if mode == Mode::All {
        lemma_all_selects_every_run(runs);
        assert(embeds(reps, lines, s));
    } else {
        let j = lemma_selected_positions(mode, runs);
        let idx = Seq::new(j.len(), |k: int| s[j[k]]);
        assert forall|k: int| 0 <= k < idx.len() implies 0 <= #[trigger] idx[k] < lines.len()
            && reps[k] == lines[idx[k]] && starts_run(lines, idx[k]) by {
            assert(0 <= j[k] < s.len());
        }
        assert forall|k: int, l: int| 0 <= k < l < idx.len() implies #[trigger] idx[k]
            < #[trigger] idx[l] by {
            assert(j[k] < j[l]);
            assert(s[j[k]] < s[j[l]]);
        }
        assert(embeds(reps, lines, idx));
    }
}


/// The runs of `lines` that are already closed: all but the last.
pub open spec fn closed_runs(lines: Seq<Seq<char>>) -> Seq<Run> {
    let runs = runs_of(lines);
    if runs.len() > 0 {
        runs.drop_last()
    } else {
        runs
    }
}

/// The length of the last run of `lines`, or 0 when there are no lines.
pub open spec fn open_run_length(lines: Seq<Seq<char>>) -> nat {
    let runs = runs_of(lines);
    if runs.len() > 0 {
        runs.last().1
    } else {
        0
    }
}

/// The records of `runs` are those of all runs but the last, followed by the
/// last run's record when `mode` admits it.
pub proof fn lemma_records_of_last_run(mode: Mode, counting: bool, runs: Seq<Run>)
    requires
        runs.len() > 0,
    ensures
        records_of_runs(mode, counting, runs) == records_of_runs(mode, counting, runs.drop_last())
            + if admits(mode, runs.last().1) {
            seq![render(counting, runs.last())]
        } else {
            Seq::<Seq<char>>::empty()
        },
{
    let prev = selected(mode, runs.drop_last());
    if admits(mode, runs.last().1) {
        assert(records_of_runs(mode, counting, runs) =~= records_of_runs(
            mode,
            counting,
            runs.drop_last(),
        ).push(render(counting, runs.last())));
    } else {
        assert(records_of_runs(mode, counting, runs) =~= records_of_runs(
            mode,
            counting,
            runs.drop_last(),
        ) + Seq::<Seq<char>>::empty());
    }
}

/// No run is longer than the input.
pub proof fn lemma_open_run_bounded(lines: Seq<Seq<char>>)
    ensures
        open_run_length(lines) <= lines.len(),
    decreases lines.len(),
{
    if lines.len() > 0 {
        lemma_open_run_bounded(lines.drop_last());
        lemma_runs_partition(lines.drop_last());
    }
}


/// The runs of two pieces that do not meet in equal lines are the runs of the
/// first piece followed by those of the second.
proof fn lemma_runs_of_concat(p: Seq<Seq<char>>, q: Seq<Seq<char>>)
    requires
        p.len() == 0 || q.len() == 0 || p.last() != q[0],
    ensures
        runs_of(p + q) == runs_of(p) + runs_of(q),
    decreases q.len(),
{
    if q.len() == 0 {
        assert(p + q =~= p);
        assert(runs_of(p) + runs_of(q) =~= runs_of(p));
    } else {
        let front = q.drop_last();
        let line = q.last();
        assert((p + q).drop_last() =~= p + front);
        assert((p + q).last() == line);
        lemma_runs_of_concat(p, front);
        lemma_runs_partition(p);
        lemma_runs_partition(front);
        let rp = runs_of(p);
        let rf = runs_of(front);
        if front.len() == 0 {
            assert(rp + rf =~= rp);
            assert(rp.push((line, 1)) =~= rp + seq![(line, 1nat)]);
        } else {
            let prev = rp + rf;
            assert(prev.last() == rf.last());
            if rf.last().0 == line {
                assert(prev.update(prev.len() - 1, (line, prev.last().1 + 1)) =~= rp + rf.update(
                    rf.len() - 1,
                    (line, rf.last().1 + 1),
                ));
            } else {
                assert(prev.push((line, 1)) =~= rp + rf.push((line, 1)));
            }
        }
    }
}

/// `n` copies of one line form a single run of length `n`.
proof fn lemma_runs_of_repeat(x: Seq<char>, n: nat)
    requires
        n >= 1,
    ensures
        runs_of(Seq::new(n, |i: int| x)) == seq![(x, n)],
    decreases n,
{
    let xs = Seq::new(n, |i: int| x);
    if n == 1 {
        assert(xs.drop_last() =~= Seq::<Seq<char>>::empty());
        assert(runs_of(Seq::<Seq<char>>::empty()) =~= Seq::<Run>::empty());
        assert(Seq::<Run>::empty().push((x, 1nat)) =~= seq![(x, n)]);
    } else {
        assert(xs.drop_last() =~= Seq::new((n - 1) as nat, |i: int| x));
        lemma_runs_of_repeat(x, (n - 1) as nat);
        assert(seq![(x, (n - 1) as nat)].update(0, (x, n)) =~= seq![(x, n)]);
    }
}

/// Selecting from two stretches of runs selects from each.
proof fn lemma_selected_concat(mode: Mode, r1: Seq<Run>, r2: Seq<Run>)
    ensures
        selected(mode, r1 + r2) == selected(mode, r1) + selected(mode, r2),
    decreases r2.len(),
{
    if r2.len() == 0 {
        assert(r1 + r2 =~= r1);
        assert(selected(mode, r1) + selected(mode, r2) =~= selected(mode, r1));
    } else {
        assert((r1 + r2).drop_last() =~= r1 + r2.drop_last());
        assert((r1 + r2).last() == r2.last());
        lemma_selected_concat(mode, r1, r2.drop_last());
        if admits(mode, r2.last().1) {
            assert((selected(mode, r1) + selected(mode, r2.drop_last())).push(r2.last())
                =~= selected(mode, r1) + selected(mode, r2.drop_last()).push(r2.last()));
        }
    }
}

/// `Mode::Repeated` selects nothing from lines of which no two adjacent ones
/// are equal.
proof fn lemma_repeated_skips_single_lines(lines: Seq<Seq<char>>)
    requires
        no_adjacent_equal(lines),
    ensures
        selected(Mode::Repeated, runs_of(lines)) == Seq::<Run>::empty(),
{
    lemma_runs_of_distinct(lines);
    lemma_repeated_skips_ones(lines.map_values(|l: Seq<char>| (l, 1nat)));
}

proof fn lemma_repeated_skips_ones(runs: Seq<Run>)
    requires
        forall|k: int| 0 <= k < runs.len() ==> #[trigger] runs[k].1 == 1,
    ensures
        selected(Mode::Repeated, runs) == Seq::<Run>::empty(),
    decreases runs.len(),
{
    if runs.len() > 0 {
        lemma_repeated_skips_ones(runs.drop_last());
        assert(runs.last().1 == 1);
    }
}

/// In `Mode::Repeated`, an input whose only run longer than one line is `n`
/// copies of `x`, with single lines around it, gives exactly one record: that
/// run's.
pub proof fn lemma_repeated_keeps_only_long_run(
    counting: bool,
    before: Seq<Seq<char>>,
    x: Seq<char>,
    n: nat,
    after: Seq<Seq<char>>,
)
    requires
        n > 1,
        no_adjacent_equal(before),
        no_adjacent_equal(after),
        before.len() == 0 || before.last() != x,
        after.len() == 0 || after[0] != x,
    ensures
        records(Mode::Repeated, counting, before + Seq::new(n, |i: int| x) + after) == seq![
            render(counting, (x, n)),
        ],
{
    let xs = Seq::new(n, |i: int| x);
    lemma_runs_of_concat(before, xs);
    assert((before + xs).last() == x);
    lemma_runs_of_concat(before + xs, after);
    lemma_runs_of_repeat(x, n);
    let rb = runs_of(before);
    let ra = runs_of(after);
    lemma_selected_concat(Mode::Repeated, rb + seq![(x, n)], ra);
    lemma_selected_concat(Mode::Repeated, rb, seq![(x, n)]);
    lemma_repeated_skips_single_lines(before);
    lemma_repeated_skips_single_lines(after);
    assert(seq![(x, n)].drop_last() =~= Seq::<Run>::empty());
    assert(selected(Mode::Repeated, Seq::<Run>::empty()) =~= Seq::<Run>::empty());
    assert(selected(Mode::Repeated, seq![(x, n)]) =~= seq![(x, n)]);
    let sel = selected(Mode::Repeated, runs_of(before + xs + after));
    assert(sel =~= seq![(x, n)]);
    assert(sel.map_values(|r: Run| render(counting, r)) =~= seq![render(counting, (x, n))]);
}

} // verus!
