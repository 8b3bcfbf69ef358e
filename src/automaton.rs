use vstd::prelude::*;
use crate::condition::Condition;

verus! {

/// What one capture group holds on one execution path.
#[derive(Clone, Copy)]
pub struct Slot {
    /// Offset at which the group was last opened, while it is open.
    pub open: Option<usize>,
    /// The most recently closed span `[start, end)`.
    pub span: Option<(usize, usize)>,
}

/// A state of a finalized automaton: its guarded edges in priority order, and
/// the groups (by index) that open and close when the state is entered.
pub struct Node {
    pub transitions: Vec<(Condition, usize)>,
    pub starts: Vec<usize>,
    pub ends: Vec<usize>,
}

/// A validated automaton whose states are addressed by index, as built by
/// `NFA::finalize`; it is only read by runs.
pub struct Automaton {
    pub states: Vec<Node>,
    pub start: usize,
    pub accept: Vec<bool>,
    pub groups: Vec<String>,
}

/// A frontier entry: an active state and the capture table of the path that reached it.
pub type Entry = (usize, Seq<Slot>);

impl Automaton {
    /// Every index held by the automaton refers to a state or a group it has.
    pub open spec fn wf(&self) -> bool {
        &&& self.states@.len() > 0
        &&& self.start < self.states@.len()
        &&& self.accept@.len() == self.states@.len()
        &&& forall|i: int, j: int|
            0 <= i < self.states@.len() && 0 <= j < self.states@[i].transitions@.len()
                ==> #[trigger] self.states@[i].transitions@[j].1 < self.states@.len()
        &&& forall|i: int, j: int|
            0 <= i < self.states@.len() && 0 <= j < self.states@[i].starts@.len()
                ==> #[trigger] self.states@[i].starts@[j] < self.groups@.len()
        &&& forall|i: int, j: int|
            0 <= i < self.states@.len() && 0 <= j < self.states@[i].ends@.len()
                ==> #[trigger] self.states@[i].ends@[j] < self.groups@.len()
    }

    /// The number of states.
    pub open spec fn n_states(&self) -> nat {
        self.states@.len()
    }

    /// The edges leaving state `s`, in priority order.
    pub open spec fn edges(&self, s: usize) -> Seq<(Condition, usize)> {
        self.states@[s as int].transitions@
    }

    /// The capture table of a path that has entered no state yet.
    pub open spec fn empty_table(&self) -> Seq<Slot> {
        Seq::new(self.groups@.len(), |k: int| Slot { open: None, span: None })
    }

    /// The table after entering state `s` at offset `p`: its groups open, then its groups close.
    pub open spec fn enter(&self, t: Seq<Slot>, s: usize, p: usize) -> Seq<Slot> {
        close_groups(open_groups(t, self.states@[s as int].starts@, p), self.states@[s as int].ends@, p)
    }

    /// Entries reached from `(s, t)` by the first `j` edges of `s` that are epsilon edges.
    pub open spec fn eps_succ(&self, s: usize, t: Seq<Slot>, p: usize, j: nat) -> Seq<Entry>
        decreases j,
    {
        if j == 0 {
            Seq::empty()
        } else {
            let prev = self.eps_succ(s, t, p, (j - 1) as nat);
            let e = self.edges(s)[j - 1];
            if e.0 is Epsilon {
                prev.push((e.1, self.enter(t, e.1, p)))
            } else {
                prev
            }
        }
    }

    /// Epsilon closure, breadth first: `queue` is worked off in order, the first
    /// path that reaches a state wins, and `out` is what is kept so far.
    pub open spec fn closure(&self, queue: Seq<Entry>, out: Seq<Entry>, p: usize) -> Seq<Entry>
        decreases self.n_states() - out.len(), queue.len(),
    {
        if queue.len() == 0 || out.len() >= self.n_states() {
            out
        } else {
            let e = queue[0];
            if seen(out, e.0) {
                self.closure(queue.drop_first(), out, p)
            } else {
                self.closure(
                    queue.drop_first() + self.eps_succ(e.0, e.1, p, self.edges(e.0).len()),
                    out.push(e),
                    p,
                )
            }
        }
    }

    /// Entries reached from `(s, t)` by the first `j` edges of `s` that accept `c`.
    pub open spec fn moves(&self, s: usize, t: Seq<Slot>, c: char, p: usize, j: nat) -> Seq<Entry>
        decreases j,
    {
        if j == 0 {
            Seq::empty()
        } else {
            let prev = self.moves(s, t, c, p, (j - 1) as nat);
            let e = self.edges(s)[j - 1];
            if e.0.spec_matches(c) {
                prev.push((e.1, self.enter(t, e.1, p)))
            } else {
                prev
            }
        }
    }

    /// Entries reached by consuming `c` from the frontier `f`, in priority order.
    pub open spec fn candidates(&self, f: Seq<Entry>, c: char, p: usize) -> Seq<Entry>
        decreases f.len(),
    {
        if f.len() == 0 {
            Seq::empty()
        } else {
            self.candidates(f.drop_last(), c, p) + self.moves(
                f.last().0,
                f.last().1,
                c,
                p,
                self.edges(f.last().0).len(),
            )
        }
    }

    /// The frontier after consuming `c`, which ends at offset `p`.
    pub open spec fn step(&self, f: Seq<Entry>, c: char, p: usize) -> Seq<Entry> {
        self.closure(self.candidates(f, c, p), Seq::empty(), p)
    }

    /// The frontier before any input is read.
    pub open spec fn initial(&self) -> Seq<Entry> {
        self.closure(
            seq![(self.start, self.enter(self.empty_table(), self.start, 0))],
            Seq::empty(),
            0,
        )
    }

    /// The frontier after the first `k` characters of `input`.
    pub open spec fn frontier_after(&self, input: Seq<char>, k: nat) -> Seq<Entry>
        decreases k,
    {
        if k == 0 {
            self.initial()
        } else {
            self.step(self.frontier_after(input, (k - 1) as nat), input[k - 1], k as usize)
        }
    }

    /// The capture table of the first accepting entry of `f`, if any.
    pub open spec fn first_accepting(&self, f: Seq<Entry>) -> Option<Seq<Slot>>
        decreases f.len(),
    {
        if f.len() == 0 {
            None
        } else if self.accept@[f[0].0 as int] {
            Some(f[0].1)
        } else {
            self.first_accepting(f.drop_first())
        }
    }

    /// The outcome of a run on `input`: the winning path's table, or `None` if rejected.
    pub open spec fn outcome(&self, input: Seq<char>) -> Option<Seq<Slot>> {
        self.first_accepting(self.frontier_after(input, input.len()))
    }
}

/// Whether some entry of `f` is at state `s`.
pub open spec fn seen(f: Seq<Entry>, s: usize) -> bool {
    exists|k: int| 0 <= k < f.len() && (#[trigger] f[k]).0 == s
}

/// Opens each group of `gs` at offset `p`, in order.
pub open spec fn open_groups(t: Seq<Slot>, gs: Seq<usize>, p: usize) -> Seq<Slot>
    decreases gs.len(),
{
    if gs.len() == 0 {
        t
    } else {
        let prev = open_groups(t, gs.drop_last(), p);
        let g = gs.last() as int;
        if g < prev.len() {
            prev.update(g, Slot { open: Some(p), span: prev[g].span })
        } else {
            prev
        }
    }
}

/// Closes each open group of `gs` at offset `p`, in order; an unopened one is left as it is.
pub open spec fn close_groups(t: Seq<Slot>, gs: Seq<usize>, p: usize) -> Seq<Slot>
    decreases gs.len(),
{
    if gs.len() == 0 {
        t
    } else {
        let prev = close_groups(t, gs.drop_last(), p);
        let g = gs.last() as int;
        if g < prev.len() {
            match prev[g].open {
                Some(s) => prev.update(g, Slot { open: None, span: Some((s, p)) }),
                None => prev,
            }
        } else {
            prev
        }
    }
}

/// The spec view of a frontier held in executable form.
pub open spec fn entries(v: Seq<(usize, Vec<Slot>)>) -> Seq<Entry> {
    Seq::new(v.len(), |k: int| (v[k].0, v[k].1@))
}

fn copy_table(t: &Vec<Slot>) -> (r: Vec<Slot>)
    ensures
        r@ == t@,
{
    let mut r: Vec<Slot> = Vec::new();
    let mut i: usize = 0;
    while i < t.len()
        invariant
            0 <= i <= t@.len(),
            r@ == t@.subrange(0, i as int),
        decreases t@.len() - i,
    {
        r.push(t[i]);
        i += 1;
        assert(r@ =~= t@.subrange(0, i as int));
    }
    assert(r@ =~= t@);
    r
}

impl Automaton {
    /// Updates `t` for entering state `s` at offset `p`.
    fn enter_state(&self, t: &mut Vec<Slot>, s: usize, p: usize)
        requires
            self.wf(),
            s < self.states@.len(),
            old(t)@.len() == self.groups@.len(),
        ensures
            final(t)@ == self.enter(old(t)@, s, p),
            final(t)@.len() == self.groups@.len(),
    {
        let ghost t0 = t@;
        let node = &self.states[s];
        let mut i: usize = 0;
        while i < node.starts.len()
            invariant
                self.wf(),
                s < self.states@.len(),
                *node == self.states@[s as int],
                0 <= i <= node.starts@.len(),
                t@ == open_groups(t0, node.starts@.subrange(0, i as int), p),
                t@.len() == self.groups@.len(),
            decreases node.starts@.len() - i,
        {
            let g = node.starts[i];
            assert(node.starts@.subrange(0, i + 1).drop_last() =~= node.starts@.subrange(0, i as int));
            let prev = t[g];
            t.set(g, Slot { open: Some(p), span: prev.span });
            i += 1;
        }
        assert(node.starts@.subrange(0, i as int) =~= node.starts@);
        let ghost t1 = t@;
        let mut i: usize = 0;
        while i < node.ends.len()
            invariant
                self.wf(),
                s < self.states@.len(),
                *node == self.states@[s as int],
                0 <= i <= node.ends@.len(),
                t@ == close_groups(t1, node.ends@.subrange(0, i as int), p),
                t@.len() == self.groups@.len(),
            decreases node.ends@.len() - i,
        {
            let g = node.ends[i];
            assert(node.ends@.subrange(0, i + 1).drop_last() =~= node.ends@.subrange(0, i as int));
            let prev = t[g];
            match prev.open {
                Some(st) => {
                    t.set(g, Slot { open: None, span: Some((st, p)) });
                },
                None => {},
            }
            i += 1;
        }
        assert(node.ends@.subrange(0, i as int) =~= node.ends@);
    }
}

pub(crate) proof fn lemma_seen_push(f: Seq<Entry>, e: Entry, s: usize)
    ensures
        seen(f.push(e), s) == (seen(f, s) || e.0 == s),
{
    let g = f.push(e);
    if seen(f, s) {
        let k = choose|k: int| 0 <= k < f.len() && (#[trigger] f[k]).0 == s;
        assert(g[k] == f[k]);
    }
    if e.0 == s {
        assert(g[f.len() as int] == e);
    }
    if seen(g, s) {
        let k = choose|k: int| 0 <= k < g.len() && (#[trigger] g[k]).0 == s;
        if k < f.len() {
            assert(f[k] == g[k]);
        }
    }
}

proof fn lemma_entries_push(v: Seq<(usize, Vec<Slot>)>, x: (usize, Vec<Slot>))
    ensures
        entries(v.push(x)) == entries(v).push((x.0, x.1@)),
{
    assert(entries(v.push(x)) =~= entries(v).push((x.0, x.1@)));
}

impl Automaton {
    /// Whether every entry names a state and holds a table with one slot per group.
    pub open spec fn entries_wf(&self, v: Seq<(usize, Vec<Slot>)>) -> bool {
        forall|k: int|
            0 <= k < v.len() ==> (#[trigger] v[k]).0 < self.states@.len() && v[k].1@.len()
                == self.groups@.len()
    }

    /// Epsilon closure of `queue` at offset `p`, first path to a state winning.
    fn close(&self, queue: Vec<(usize, Vec<Slot>)>, p: usize) -> (out: Vec<(usize, Vec<Slot>)>)
        requires
            self.wf(),
            self.entries_wf(queue@),
        ensures
            entries(out@) == self.closure(entries(queue@), Seq::empty(), p),
            self.entries_wf(out@),
    {
        let ghost target = self.closure(entries(queue@), Seq::empty(), p);
        let n = self.states.len();
        let mut queue = queue;
        let mut out: Vec<(usize, Vec<Slot>)> = Vec::new();
        let mut visited: Vec<bool> = Vec::new();
        while visited.len() < n
            invariant
                visited@.len() <= n,
                forall|k: int| 0 <= k < visited@.len() ==> !(#[trigger] visited@[k]),
            decreases n - visited@.len(),
        {
            visited.push(false);
        }
        let mut head: usize = 0;
        assert(entries(queue@).subrange(0, queue@.len() as int) =~= entries(queue@));
        assert(entries(out@) =~= Seq::<Entry>::empty());
        while head < queue.len() && out.len() < n
            invariant
                self.wf(),
                n == self.states@.len(),
                head <= queue@.len(),
                visited@.len() == n,
                out@.len() <= n,
                forall|s: usize| s < n ==> visited@[s as int] == seen(entries(out@), s),
                self.entries_wf(queue@),
                self.entries_wf(out@),
                self.closure(entries(queue@).subrange(head as int, queue@.len() as int), entries(out@), p)
                    == target,
            decreases n - out@.len(), queue@.len() - head,
        {
            let ghost q = entries(queue@).subrange(head as int, queue@.len() as int);
            let ghost o = entries(out@);
            let s = queue[head].0;
            assert(q[0] == (s, queue@[head as int].1@));
            if visited[s] {
                assert(q.drop_first() =~= entries(queue@).subrange(head + 1, queue@.len() as int));
                head += 1;
            } else {
                let t = copy_table(&queue[head].1);
                let ghost rest0 = q.drop_first();
                assert(rest0 =~= entries(queue@).subrange(head + 1, queue@.len() as int));
                let node = &self.states[s];
                let mut j: usize = 0;
                while j < node.transitions.len()
                    invariant
                        self.wf(),
                        n == self.states@.len(),
                        s < n,
                        *node == self.states@[s as int],
                        head < queue@.len(),
                        t@.len() == self.groups@.len(),
                        self.entries_wf(queue@),
                        0 <= j <= node.transitions@.len(),
                        entries(queue@).subrange(head + 1, queue@.len() as int) == rest0
                            + self.eps_succ(s, t@, p, j as nat),
                    decreases node.transitions@.len() - j,
                {
                    if node.transitions[j].0.epsilon() {
                        let d = node.transitions[j].1;
                        let mut t2 = copy_table(&t);
                        self.enter_state(&mut t2, d, p);
                        let ghost before = queue@;
                        queue.push((d, t2));
                        proof {
                            lemma_entries_push(before, queue@.last());
                            assert(queue@ == before.push(queue@.last()));
                            assert(entries(queue@).subrange(head + 1, queue@.len() as int)
                                =~= entries(before).subrange(head + 1, before.len() as int).push(
                                (d, self.enter(t@, d, p))));
                        }
                    }
                    j += 1;
                }
                let ghost before_out = out@;
                out.push((s, t));
                proof {
                    lemma_entries_push(before_out, out@.last());
                    assert(out@ == before_out.push(out@.last()));
                    assert forall|s2: usize| s2 < n implies
                        visited@.update(s as int, true)[s2 as int] == seen(entries(out@), s2) by {
                        lemma_seen_push(o, (s, t@), s2);
                    }
                }
                visited.set(s, true);
                head += 1;
            }
        }
        out
    }
}

/// The span a named group captured on the winning path, `None` when it never closed.
pub struct CaptureSpan {
    pub name: String,
    pub span: Option<(usize, usize)>,
}

/// The outcome of one run: whether the input was accepted and, if so, one
/// span per group of the automaton, in the automaton's group order.
pub struct MatchResult {
    pub accepted: bool,
    pub groups: Vec<CaptureSpan>,
}

/// The span of the first group of `gs` called `name`; `None` if there is none or it is unset.
pub open spec fn span_named(gs: Seq<CaptureSpan>, name: Seq<char>) -> Option<(usize, usize)>
    decreases gs.len(),
{
    if gs.len() == 0 {
        None
    } else if gs[0].name@ == name {
        gs[0].span
    } else {
        span_named(gs.drop_first(), name)
    }
}

impl MatchResult {
    /// The span captured by the group called `name`.
    pub fn group(&self, name: &String) -> (r: Option<(usize, usize)>)
        ensures
            r == span_named(self.groups@, name@),
    {
        let mut i: usize = 0;
        assert(self.groups@.subrange(0, self.groups@.len() as int) =~= self.groups@);
        while i < self.groups.len()
            invariant
                0 <= i <= self.groups@.len(),
                span_named(self.groups@.subrange(i as int, self.groups@.len() as int), name@)
                    == span_named(self.groups@, name@),
            decreases self.groups@.len() - i,
        {
            let ghost sub = self.groups@.subrange(i as int, self.groups@.len() as int);
            assert(sub[0] == self.groups@[i as int]);
            if self.groups[i].name == *name {
                return self.groups[i].span;
            }
            assert(sub.drop_first() =~= self.groups@.subrange(i + 1, self.groups@.len() as int));
            i += 1;
        }
        None
    }

    /// This result stands for `outcome` over the groups `names`: a rejection
    /// with no groups, or an acceptance with each group's span in order.
    pub open spec fn reports(&self, names: Seq<String>, outcome: Option<Seq<Slot>>) -> bool {
        match outcome {
            None => !self.accepted && self.groups@.len() == 0,
            Some(t) => {
                &&& self.accepted
                &&& self.groups@.len() == names.len()
                &&& forall|k: int|
                    0 <= k < names.len() ==> (#[trigger] self.groups@[k]).name@ == names[k]@
                        && self.groups@[k].span == t[k].span
            },
        }
    }
}

proof fn lemma_dead(a: &Automaton, input: Seq<char>, k: nat, j: nat)
    requires
        k <= j,
        a.frontier_after(input, k).len() == 0,
    ensures
        a.frontier_after(input, j).len() == 0,
    decreases j,
{
    if j > k {
        lemma_dead(a, input, k, (j - 1) as nat);
        let f = a.frontier_after(input, (j - 1) as nat);
        assert(f =~= Seq::<Entry>::empty());
        assert(a.candidates(f, input[j - 1], j as usize) =~= Seq::<Entry>::empty());
    }
}

impl Automaton {
    /// The entries reached from frontier `f` by consuming `c`, entered at offset `p`.
    fn advance(&self, f: &Vec<(usize, Vec<Slot>)>, c: char, p: usize) -> (r: Vec<(usize, Vec<Slot>)>)
        requires
            self.wf(),
            self.entries_wf(f@),
        ensures
            entries(r@) == self.candidates(entries(f@), c, p),
            self.entries_wf(r@),
    {
        let mut r: Vec<(usize, Vec<Slot>)> = Vec::new();
        let mut i: usize = 0;
        assert(entries(f@).subrange(0, 0) =~= Seq::<Entry>::empty());
        assert(entries(r@) =~= Seq::<Entry>::empty());
        while i < f.len()
            invariant
                self.wf(),
                self.entries_wf(f@),
                self.entries_wf(r@),
                0 <= i <= f@.len(),
                entries(r@) == self.candidates(entries(f@).subrange(0, i as int), c, p),
            decreases f@.len() - i,
        {
            let s = f[i].0;
            let t = &f[i].1;
            let ghost r0 = entries(r@);
            let node = &self.states[s];
            let mut j: usize = 0;
            assert(r0 + self.moves(s, t@, c, p, 0) =~= r0);
            while j < node.transitions.len()
                invariant
                    self.wf(),
                    s < self.states@.len(),
                    *node == self.states@[s as int],
                    t@.len() == self.groups@.len(),
                    self.entries_wf(r@),
                    0 <= j <= node.transitions@.len(),
                    entries(r@) == r0 + self.moves(s, t@, c, p, j as nat),
                decreases node.transitions@.len() - j,
            {
                if node.transitions[j].0.matches(c) {
                    let d = node.transitions[j].1;
                    let mut t2 = copy_table(t);
                    self.enter_state(&mut t2, d, p);
                    let ghost before = r@;
                    r.push((d, t2));
                    proof {
                        lemma_entries_push(before, r@.last());
                        assert(r@ == before.push(r@.last()));
                        assert(entries(r@) =~= r0 + self.moves(s, t@, c, p, (j + 1) as nat));
                    }
                }
                j += 1;
            }
            proof {
                let sub = entries(f@).subrange(0, i + 1);
                assert(sub.drop_last() =~= entries(f@).subrange(0, i as int));
                assert(sub.last() == (s, t@));
            }
            i += 1;
        }
        assert(entries(f@).subrange(0, f@.len() as int) =~= entries(f@));
        r
    }

    /// Runs the automaton on `input`, reporting acceptance and the winning path's groups.
    pub fn run(&self, input: &[char]) -> (r: MatchResult)
        requires
            self.wf(),
        ensures
            r.reports(self.groups@, self.outcome(input@)),
    {
        let mut t: Vec<Slot> = Vec::new();
        while t.len() < self.groups.len()
            invariant
                t@.len() <= self.groups@.len(),
                forall|k: int| 0 <= k < t@.len() ==> #[trigger] t@[k] == (Slot { open: None, span: None }),
            decreases self.groups@.len() - t@.len(),
        {
            t.push(Slot { open: None, span: None });
        }
        assert(t@ =~= self.empty_table());
        self.enter_state(&mut t, self.start, 0);
        let ghost t0 = t@;
        let init = vec![(self.start, t)];
        assert(entries(init@) =~= seq![(self.start, t0)]);
        let mut f = self.close(init, 0);
        let mut k: usize = 0;
        while k < input.len() && f.len() > 0
            invariant
                self.wf(),
                self.entries_wf(f@),
                0 <= k <= input@.len(),
                entries(f@) == self.frontier_after(input@, k as nat),
            decreases input@.len() - k,
        {
            let cand = self.advance(&f, input[k], k + 1);
            f = self.close(cand, k + 1);
            k += 1;
        }
        proof {
            if f@.len() == 0 {
                lemma_dead(self, input@, k as nat, input@.len());
            }
        }
        let ghost fin = self.frontier_after(input@, input@.len());
        assert(entries(f@) =~= fin) by {
            if f@.len() == 0 {
                assert(fin.len() == 0);
            }
        }
        let mut i: usize = 0;
        assert(entries(f@).subrange(0, f@.len() as int) =~= entries(f@));
        while i < f.len()
            invariant
                self.wf(),
                self.entries_wf(f@),
                0 <= i <= f@.len(),
                self.first_accepting(entries(f@).subrange(i as int, f@.len() as int))
                    == self.outcome(input@),
            decreases f@.len() - i,
        {
            let ghost sub = entries(f@).subrange(i as int, f@.len() as int);
            assert(sub[0] == (f@[i as int].0, f@[i as int].1@));
            if self.accept[f[i].0] {
                let tab = &f[i].1;
                let mut groups: Vec<CaptureSpan> = Vec::new();
                while groups.len() < self.groups.len()
                    invariant
                        tab@.len() == self.groups@.len(),
                        groups@.len() <= self.groups@.len(),
                        forall|g: int|
                            0 <= g < groups@.len() ==> (#[trigger] groups@[g]).name@ == self.groups@[g]@
                                && groups@[g].span == tab@[g].span,
                    decreases self.groups@.len() - groups@.len(),
                {
                    let g = groups.len();
                    groups.push(CaptureSpan { name: self.groups[g].clone(), span: tab[g].span });
                }
                return MatchResult { accepted: true, groups };
            }
            assert(sub.drop_first() =~= entries(f@).subrange(i + 1, f@.len() as int));
            i += 1;
        }
        MatchResult { accepted: false, groups: Vec::new() }
    }

    /// Whether the automaton accepts `input`.
    pub fn is_match(&self, input: &[char]) -> (r: bool)
        requires
            self.wf(),
        ensures
            r == self.outcome(input@) is Some,
    {
        self.run(input).accepted
    }
}

} // verus!
