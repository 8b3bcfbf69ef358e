use vstd::prelude::*;
use vstd::set_lib::{lemma_int_range, lemma_len_subset, set_int_range};
use crate::automaton::{
    Automaton, Entry, MatchResult, Slot, open_groups, close_groups, seen, lemma_seen_push,
};

verus! {

/// Every open offset and every closed span of `t` lies at or before `p`, each span in order.
pub open spec fn table_ok(t: Seq<Slot>, p: int) -> bool {
    forall|k: int|
        0 <= k < t.len() ==> {
            &&& ((#[trigger] t[k]).open matches Some(o) ==> o <= p)
            &&& (t[k].span matches Some((x, y)) ==> x <= y <= p)
        }
}

pub open spec fn entries_ok(f: Seq<Entry>, p: int) -> bool {
    forall|k: int| 0 <= k < f.len() ==> table_ok((#[trigger] f[k]).1, p)
}

proof fn lemma_open_ok(t: Seq<Slot>, gs: Seq<usize>, p: usize)
    requires
        table_ok(t, p as int),
    ensures
        table_ok(open_groups(t, gs, p), p as int),
        open_groups(t, gs, p).len() == t.len(),
    decreases gs.len(),
{
    if gs.len() > 0 {
        lemma_open_ok(t, gs.drop_last(), p);
    }
}

proof fn lemma_close_ok(t: Seq<Slot>, gs: Seq<usize>, p: usize)
    requires
        table_ok(t, p as int),
    ensures
        table_ok(close_groups(t, gs, p), p as int),
        close_groups(t, gs, p).len() == t.len(),
    decreases gs.len(),
{
    if gs.len() > 0 {
        lemma_close_ok(t, gs.drop_last(), p);
    }
}

proof fn lemma_enter_ok(a: &Automaton, t: Seq<Slot>, s: usize, p: usize)
    requires
        table_ok(t, p as int),
    ensures
        table_ok(a.enter(t, s, p), p as int),
{
    lemma_open_ok(t, a.states@[s as int].starts@, p);
    lemma_close_ok(open_groups(t, a.states@[s as int].starts@, p), a.states@[s as int].ends@, p);
}

proof fn lemma_eps_ok(a: &Automaton, s: usize, t: Seq<Slot>, p: usize, j: nat)
    requires
        table_ok(t, p as int),
    ensures
        entries_ok(a.eps_succ(s, t, p, j), p as int),
    decreases j,
{
    if j > 0 {
        lemma_eps_ok(a, s, t, p, (j - 1) as nat);
        lemma_enter_ok(a, t, a.edges(s)[j - 1].1, p);
    }
}

proof fn lemma_moves_ok(a: &Automaton, s: usize, t: Seq<Slot>, c: char, p: usize, j: nat)
    requires
        table_ok(t, p as int),
    ensures
        entries_ok(a.moves(s, t, c, p, j), p as int),
    decreases j,
{
    if j > 0 {
        lemma_moves_ok(a, s, t, c, p, (j - 1) as nat);
        lemma_enter_ok(a, t, a.edges(s)[j - 1].1, p);
    }
}

proof fn lemma_closure_ok(a: &Automaton, q: Seq<Entry>, out: Seq<Entry>, p: usize)
    requires
        entries_ok(q, p as int),
        entries_ok(out, p as int),
    ensures
        entries_ok(a.closure(q, out, p), p as int),
    decreases a.n_states() - out.len(), q.len(),
{
    if q.len() == 0 || out.len() >= a.n_states() {
    } else {
        let e = q[0];
        assert(table_ok(q[0].1, p as int));
        if crate::automaton::seen(out, e.0) {
            lemma_closure_ok(a, q.drop_first(), out, p);
        } else {
            let succ = a.eps_succ(e.0, e.1, p, a.edges(e.0).len());
            lemma_eps_ok(a, e.0, e.1, p, a.edges(e.0).len());
            let q2 = q.drop_first() + succ;
            assert forall|k: int| 0 <= k < q2.len() implies table_ok((#[trigger] q2[k]).1, p as int) by {
                if k < q.len() - 1 {
                    assert(q2[k] == q[k + 1]);
                } else {
                    assert(q2[k] == succ[k - (q.len() - 1)]);
                }
            }
            assert forall|k: int| 0 <= k < out.push(e).len() implies table_ok(
                (#[trigger] out.push(e)[k]).1,
                p as int,
            ) by {
                if k < out.len() {
                    assert(out.push(e)[k] == out[k]);
                }
            }
            lemma_closure_ok(a, q2, out.push(e), p);
        }
    }
}

proof fn lemma_candidates_ok(a: &Automaton, f: Seq<Entry>, c: char, p: usize)
    requires
        p >= 1,
        entries_ok(f, p - 1),
    ensures
        entries_ok(a.candidates(f, c, p), p as int),
    decreases f.len(),
{
    if f.len() > 0 {
        let init = f.drop_last();
        assert forall|k: int| 0 <= k < init.len() implies table_ok((#[trigger] init[k]).1, p - 1) by {
            assert(init[k] == f[k]);
        }
        lemma_candidates_ok(a, init, c, p);
        let last = f.last();
        assert(table_ok(f[f.len() - 1].1, p - 1));
        assert(table_ok(last.1, p as int));
        lemma_moves_ok(a, last.0, last.1, c, p, a.edges(last.0).len());
        let prev = a.candidates(init, c, p);
        let mv = a.moves(last.0, last.1, c, p, a.edges(last.0).len());
        let all = prev + mv;
        assert forall|k: int| 0 <= k < all.len() implies table_ok((#[trigger] all[k]).1, p as int) by {
            if k < prev.len() {
                assert(all[k] == prev[k]);
            } else {
                assert(all[k] == mv[k - prev.len()]);
            }
        }
    }
}

proof fn lemma_frontier_ok(a: &Automaton, input: Seq<char>, k: nat)
    requires
        k <= input.len(),
        input.len() <= usize::MAX,
    ensures
        entries_ok(a.frontier_after(input, k), k as int),
    decreases k,
{
    if k == 0 {
        let t0 = a.empty_table();
        assert(table_ok(t0, 0));
        lemma_enter_ok(a, t0, a.start, 0);
        let q = seq![(a.start, a.enter(t0, a.start, 0))];
        assert(q[0].1 == a.enter(t0, a.start, 0));
        lemma_closure_ok(a, q, Seq::empty(), 0);
    } else {
        lemma_frontier_ok(a, input, (k - 1) as nat);
        lemma_candidates_ok(a, a.frontier_after(input, (k - 1) as nat), input[k - 1], k as usize);
        lemma_closure_ok(
            a,
            a.candidates(a.frontier_after(input, (k - 1) as nat), input[k - 1], k as usize),
            Seq::empty(),
            k as usize,
        );
    }
}

proof fn lemma_first_accepting_ok(a: &Automaton, f: Seq<Entry>, p: int)
    requires
        entries_ok(f, p),
    ensures
        a.first_accepting(f) matches Some(t) ==> table_ok(t, p),
    decreases f.len(),
{
    if f.len() > 0 {
        assert(table_ok(f[0].1, p));
        let rest = f.drop_first();
        assert forall|k: int| 0 <= k < rest.len() implies table_ok((#[trigger] rest[k]).1, p) by {
            assert(rest[k] == f[k + 1]);
        }
        lemma_first_accepting_ok(a, rest, p);
    }
}

/// Every span reported by a run is in order and lies within the input: an
/// accepted run's groups each hold either nothing or `[x, y)` with `x <= y <= len`.
pub proof fn lemma_spans_in_bounds(a: &Automaton, input: Seq<char>)
    requires
        input.len() <= usize::MAX,
    ensures
        a.outcome(input) matches Some(t) ==> forall|k: int|
            0 <= k < t.len() ==> ((#[trigger] t[k]).span matches Some((x, y)) ==> x <= y <= input.len()),
{
    lemma_frontier_ok(a, input, input.len());
    lemma_first_accepting_ok(a, a.frontier_after(input, input.len()), input.len() as int);
}

/// Runs leave nothing behind: two runs of one automaton on one input report
/// the same acceptance and the same span for every group.
pub proof fn lemma_run_repeatable(
    a: &Automaton,
    input: Seq<char>,
    first: &MatchResult,
    second: &MatchResult,
)
    requires
        first.reports(a.groups@, a.outcome(input)),
        second.reports(a.groups@, a.outcome(input)),
    ensures
        first.accepted == second.accepted,
        first.groups@.len() == second.groups@.len(),
        forall|k: int|
            0 <= k < first.groups@.len() ==> (#[trigger] first.groups@[k]).name@
                == second.groups@[k].name@ && first.groups@[k].span == second.groups@[k].span,
{
}

/// No two entries of `f` are at one state.
pub open spec fn distinct_states(f: Seq<Entry>) -> bool {
    forall|i: int, j: int|
        0 <= i < f.len() && 0 <= j < f.len() && i != j ==> (#[trigger] f[i]).0 != (#[trigger] f[j]).0
}

/// Every entry of `f` is at a state of `a`.
pub open spec fn within(a: &Automaton, f: Seq<Entry>) -> bool {
    forall|k: int| 0 <= k < f.len() ==> (#[trigger] f[k]).0 < a.n_states()
}

/// Every epsilon edge leaving a state of `f` leads to a state seen in `f` or in `g`.
pub open spec fn eps_covered(a: &Automaton, f: Seq<Entry>, g: Seq<Entry>) -> bool {
    forall|i: int, j: int|
        0 <= i < f.len() && 0 <= j < a.edges(f[i].0).len() && (#[trigger] a.edges(
            f[i].0,
        )[j]).0 is Epsilon ==> seen(f, a.edges(f[i].0)[j].1) || seen(g, a.edges(f[i].0)[j].1)
}

proof fn lemma_all_seen(a: &Automaton, f: Seq<Entry>)
    requires
        distinct_states(f),
        within(a, f),
        f.len() >= a.n_states(),
    ensures
        forall|s: usize| s < a.n_states() ==> seen(f, s),
{
    let n = a.n_states() as int;
    let ids = f.map_values(|e: Entry| e.0 as int);
    assert(ids.no_duplicates()) by {
        assert forall|i: int, j: int| 0 <= i < ids.len() && 0 <= j < ids.len() && i != j implies ids[i]
            != ids[j] by {
            assert(f[i].0 != f[j].0);
        }
    }
    ids.unique_seq_to_set();
    assert forall|s: usize| s < a.n_states() implies seen(f, s) by {
        if !seen(f, s) {
            let range = set_int_range(0, n).remove(s as int);
            lemma_int_range(0, n);
            assert(ids.to_set().subset_of(range)) by {
                assert forall|x: int| ids.to_set().contains(x) implies range.contains(x) by {
                    let k = choose|k: int| 0 <= k < ids.len() && ids[k] == x;
                    assert(f[k].0 < n);
                    if x == s as int {
                        assert(f[k].0 == s);
                    }
                }
            }
            lemma_len_subset(ids.to_set(), range);
        }
    }
}

proof fn lemma_eps_succ_has(a: &Automaton, s: usize, t: Seq<Slot>, p: usize, j: nat, m: int)
    requires
        0 <= m < j <= a.edges(s).len(),
        a.edges(s)[m].0 is Epsilon,
    ensures
        seen(a.eps_succ(s, t, p, j), a.edges(s)[m].1),
    decreases j,
{
    let prev = a.eps_succ(s, t, p, (j - 1) as nat);
    if m < j - 1 {
        lemma_eps_succ_has(a, s, t, p, (j - 1) as nat, m);
        let k = choose|k: int| 0 <= k < prev.len() && (#[trigger] prev[k]).0 == a.edges(s)[m].1;
        let e = a.edges(s)[j - 1];
        if e.0 is Epsilon {
            assert(prev.push((e.1, a.enter(t, e.1, p)))[k] == prev[k]);
        }
    } else {
        let e = a.edges(s)[j - 1];
        assert(prev.push((e.1, a.enter(t, e.1, p)))[prev.len() as int].0 == e.1);
    }
}

/// Some epsilon edge of state `s` leads to `x`.
pub open spec fn eps_edge_to(a: &Automaton, s: usize, x: usize) -> bool {
    exists|m: int|
        0 <= m < a.edges(s).len() && (#[trigger] a.edges(s)[m]).0 is Epsilon && a.edges(s)[m].1 == x
}

proof fn lemma_eps_succ_from(a: &Automaton, s: usize, t: Seq<Slot>, p: usize, j: nat)
    requires
        j <= a.edges(s).len(),
    ensures
        forall|k: int|
            0 <= k < a.eps_succ(s, t, p, j).len() ==> eps_edge_to(
                a,
                s,
                (#[trigger] a.eps_succ(s, t, p, j)[k]).0,
            ),
    decreases j,
{
    if j > 0 {
        lemma_eps_succ_from(a, s, t, p, (j - 1) as nat);
        let prev = a.eps_succ(s, t, p, (j - 1) as nat);
        let cur = a.eps_succ(s, t, p, j);
        assert forall|k: int| 0 <= k < cur.len() implies eps_edge_to(a, s, (#[trigger] cur[k]).0) by {
            if k < prev.len() {
                assert(cur[k] == prev[k]);
            } else {
                assert(a.edges(s)[j - 1].0 is Epsilon);
                assert(a.edges(s)[j - 1].1 == cur[k].0);
            }
        }
    }
}

proof fn lemma_seen_concat(f: Seq<Entry>, g: Seq<Entry>, x: usize)
    ensures
        seen(f + g, x) == (seen(f, x) || seen(g, x)),
{
    let h = f + g;
    if seen(f, x) {
        let k = choose|k: int| 0 <= k < f.len() && (#[trigger] f[k]).0 == x;
        assert(h[k] == f[k]);
    }
    if seen(g, x) {
        let k = choose|k: int| 0 <= k < g.len() && (#[trigger] g[k]).0 == x;
        assert(h[f.len() + k] == g[k]);
    }
    if seen(h, x) {
        let k = choose|k: int| 0 <= k < h.len() && (#[trigger] h[k]).0 == x;
        if k < f.len() {
            assert(h[k] == f[k]);
        } else {
            assert(h[k] == g[k - f.len()]);
        }
    }
}

proof fn lemma_seen_drop(q: Seq<Entry>, x: usize)
    requires
        seen(q, x),
    ensures
        q[0].0 == x || seen(q.drop_first(), x),
{
    let k = choose|k: int| 0 <= k < q.len() && (#[trigger] q[k]).0 == x;
    if k > 0 {
        assert(q.drop_first()[k - 1] == q[k]);
    }
}

proof fn lemma_closure_closed(a: &Automaton, q: Seq<Entry>, out: Seq<Entry>, p: usize)
    requires
        a.wf(),
        within(a, q),
        within(a, out),
        distinct_states(out),
        out.len() <= a.n_states(),
        eps_covered(a, out, q),
    ensures
        within(a, a.closure(q, out, p)),
        distinct_states(a.closure(q, out, p)),
        a.closure(q, out, p).len() <= a.n_states(),
        eps_covered(a, a.closure(q, out, p), Seq::empty()),
    decreases a.n_states() - out.len(), q.len(),
{
    let n = a.n_states();
    let none = Seq::<Entry>::empty();
    if q.len() == 0 {
        assert forall|i: int, j: int|
            0 <= i < out.len() && 0 <= j < a.edges(out[i].0).len() && (#[trigger] a.edges(
                out[i].0,
            )[j]).0 is Epsilon implies seen(out, a.edges(out[i].0)[j].1) || seen(
            none,
            a.edges(out[i].0)[j].1,
        ) by {
            assert(!seen(q, a.edges(out[i].0)[j].1));
        }
    } else if out.len() >= n {
        lemma_all_seen(a, out);
        assert forall|i: int, j: int|
            0 <= i < out.len() && 0 <= j < a.edges(out[i].0).len() && (#[trigger] a.edges(
                out[i].0,
            )[j]).0 is Epsilon implies seen(out, a.edges(out[i].0)[j].1) || seen(
            none,
            a.edges(out[i].0)[j].1,
        ) by {
            assert(out[i].0 < n);
            assert(a.states@[out[i].0 as int].transitions@[j].1 < n);
        }
    } else {
        let e = q[0];
        let rest = q.drop_first();
        assert forall|k: int| 0 <= k < rest.len() implies (#[trigger] rest[k]).0 < n by {
            assert(rest[k] == q[k + 1]);
        }
        if seen(out, e.0) {
            assert forall|i: int, j: int|
                0 <= i < out.len() && 0 <= j < a.edges(out[i].0).len() && (#[trigger] a.edges(
                    out[i].0,
                )[j]).0 is Epsilon implies seen(out, a.edges(out[i].0)[j].1) || seen(
                rest,
                a.edges(out[i].0)[j].1,
            ) by {
                let x = a.edges(out[i].0)[j].1;
                if seen(q, x) {
                    lemma_seen_drop(q, x);
                }
            }
            lemma_closure_closed(a, rest, out, p);
        } else {
            let succ = a.eps_succ(e.0, e.1, p, a.edges(e.0).len());
            let q2 = rest + succ;
            let out2 = out.push(e);
            lemma_eps_succ_from(a, e.0, e.1, p, a.edges(e.0).len());
            assert forall|k: int| 0 <= k < q2.len() implies (#[trigger] q2[k]).0 < n by {
                if k < rest.len() {
                    assert(q2[k] == rest[k]);
                } else {
                    assert(q2[k] == succ[k - rest.len()]);
                    assert(eps_edge_to(a, e.0, succ[k - rest.len()].0));
                    let m = choose|m: int|
                        0 <= m < a.edges(e.0).len() && (#[trigger] a.edges(e.0)[m]).0 is Epsilon
                            && a.edges(e.0)[m].1 == succ[k - rest.len()].0;
                    assert(a.states@[e.0 as int].transitions@[m].1 < n);
                }
            }
            assert forall|k: int| 0 <= k < out2.len() implies (#[trigger] out2[k]).0 < n by {
                if k < out.len() {
                    assert(out2[k] == out[k]);
                }
            }
            assert forall|i: int, j: int|
                0 <= i < out2.len() && 0 <= j < out2.len() && i != j implies (#[trigger] out2[i]).0
                    != (#[trigger] out2[j]).0 by {
                if i < out.len() && j < out.len() {
                    assert(out2[i] == out[i] && out2[j] == out[j]);
                } else if i < out.len() {
                    assert(out2[i] == out[i]);
                } else if j < out.len() {
                    assert(out2[j] == out[j]);
                }
            }
            assert forall|i: int, j: int|
                0 <= i < out2.len() && 0 <= j < a.edges(out2[i].0).len() && (#[trigger] a.edges(
                    out2[i].0,
                )[j]).0 is Epsilon implies seen(out2, a.edges(out2[i].0)[j].1) || seen(
                q2,
                a.edges(out2[i].0)[j].1,
            ) by {
                let x = a.edges(out2[i].0)[j].1;
                lemma_seen_push(out, e, x);
                lemma_seen_concat(rest, succ, x);
                if i < out.len() {
                    assert(out2[i] == out[i]);
                    if seen(q, x) {
                        lemma_seen_drop(q, x);
                    }
                } else {
                    assert(out2[i] == e);
                    lemma_eps_succ_has(a, e.0, e.1, p, a.edges(e.0).len(), j);
                }
            }
            lemma_closure_closed(a, q2, out2, p);
        }
    }
}

proof fn lemma_closure_fixed(a: &Automaton, r: Seq<Entry>, k: int, extra: Seq<Entry>, p: usize)
    requires
        a.wf(),
        within(a, r),
        distinct_states(r),
        r.len() <= a.n_states(),
        eps_covered(a, r, Seq::empty()),
        0 <= k <= r.len(),
        forall|x: int| 0 <= x < extra.len() ==> seen(r, (#[trigger] extra[x]).0),
    ensures
        a.closure(r.subrange(k, r.len() as int) + extra, r.subrange(0, k), p) == r,
    decreases r.len() - k, extra.len(),
{
    let q = r.subrange(k, r.len() as int) + extra;
    let out = r.subrange(0, k);
    if k < r.len() {
        let e = r[k];
        assert(q[0] == e);
        assert(!seen(out, e.0)) by {
            if seen(out, e.0) {
                let i = choose|i: int| 0 <= i < out.len() && (#[trigger] out[i]).0 == e.0;
                assert(out[i] == r[i]);
            }
        }
        let succ = a.eps_succ(e.0, e.1, p, a.edges(e.0).len());
        lemma_eps_succ_from(a, e.0, e.1, p, a.edges(e.0).len());
        let extra2 = extra + succ;
        assert forall|x: int| 0 <= x < extra2.len() implies seen(r, (#[trigger] extra2[x]).0) by {
            if x < extra.len() {
                assert(extra2[x] == extra[x]);
            } else {
                assert(extra2[x] == succ[x - extra.len()]);
                assert(eps_edge_to(a, e.0, succ[x - extra.len()].0));
                let m = choose|m: int|
                    0 <= m < a.edges(e.0).len() && (#[trigger] a.edges(e.0)[m]).0 is Epsilon
                        && a.edges(e.0)[m].1 == succ[x - extra.len()].0;
                assert(a.edges(r[k].0)[m].0 is Epsilon);
            }
        }
        assert(q.drop_first() + succ =~= r.subrange(k + 1, r.len() as int) + extra2);
        assert(out.push(e) =~= r.subrange(0, k + 1));
        lemma_closure_fixed(a, r, k + 1, extra2, p);
    } else {
        assert(q =~= extra);
        assert(out =~= r);
        if extra.len() > 0 && r.len() < a.n_states() {
            assert(seen(r, extra[0].0));
            assert(r.subrange(k, r.len() as int) + extra.drop_first() =~= extra.drop_first());
            assert forall|x: int| 0 <= x < extra.drop_first().len() implies seen(
                r,
                (#[trigger] extra.drop_first()[x]).0,
            ) by {
                assert(extra.drop_first()[x] == extra[x + 1]);
            }
            lemma_closure_fixed(a, r, k, extra.drop_first(), p);
        }
    }
}

/// Epsilon closure is stable: closing the closure of a frontier again gives
/// it back unchanged, so computing it twice yields the same states, in the
/// same order, with the same capture tables.
pub proof fn lemma_closure_stable(a: &Automaton, q: Seq<Entry>, p: usize)
    requires
        a.wf(),
        within(a, q),
    ensures
        a.closure(a.closure(q, Seq::empty(), p), Seq::empty(), p) == a.closure(q, Seq::empty(), p),
{
    let none = Seq::<Entry>::empty();
    lemma_closure_closed(a, q, none, p);
    let r = a.closure(q, none, p);
    lemma_closure_fixed(a, r, 0, none, p);
    assert(r.subrange(0, r.len() as int) + none =~= r);
    assert(r.subrange(0, 0) =~= none);
}

} // verus!
