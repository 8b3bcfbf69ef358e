use vstd::prelude::*;
use crate::automaton::{Automaton, Node};
use crate::condition::Condition;

verus! {

/// Why an automaton could not be finalized.
#[derive(PartialEq, Eq, Structural, Debug, Clone, Copy)]
pub enum ConstructionError {
    DuplicateState,
    UnknownState,
    NoStartState,
    EmptyAutomaton,
}

/// An edge: a guard and the name of the state it leads to.
pub struct Transition {
    pub to: String,
    pub condition: Condition,
}

impl Transition {
    /// An edge to `to` guarded by `condition`.
    pub fn new(to: String, condition: Condition) -> (r: Transition)
        ensures
            r.to == to,
            r.condition == condition,
    {
        Transition { to, condition }
    }
}

/// A named state: its outgoing edges in priority order, and the groups that
/// open and close when it is entered.
pub struct State {
    name: String,
    transitions: Vec<Transition>,
    starts_groups: Vec<String>,
    ends_groups: Vec<String>,
}

pub ghost struct StateView {
    pub name: Seq<char>,
    pub transitions: Seq<Transition>,
    pub starts: Seq<Seq<char>>,
    pub ends: Seq<Seq<char>>,
}

pub open spec fn names_of(gs: Seq<String>) -> Seq<Seq<char>> {
    Seq::new(gs.len(), |k: int| gs[k]@)
}

impl View for State {
    type V = StateView;

    closed spec fn view(&self) -> StateView {
        StateView {
            name: self.name@,
            transitions: self.transitions@,
            starts: names_of(self.starts_groups@),
            ends: names_of(self.ends_groups@),
        }
    }
}

proof fn lemma_names_push(gs: Seq<String>, g: String)
    ensures
        names_of(gs.push(g)) == names_of(gs).push(g@),
{
    assert(names_of(gs.push(g)) =~= names_of(gs).push(g@));
}

impl State {
    /// A state with no edges and no group marks.
    pub fn new(name: String) -> (r: State)
        ensures
            r@.name == name@,
            r@.transitions == Seq::<Transition>::empty(),
            r@.starts == Seq::<Seq<char>>::empty(),
            r@.ends == Seq::<Seq<char>>::empty(),
    {
        let r = State {
            name,
            transitions: Vec::new(),
            starts_groups: Vec::new(),
            ends_groups: Vec::new(),
        };
        assert(names_of(r.starts_groups@) =~= Seq::<Seq<char>>::empty());
        r
    }

    /// Appends an edge, which comes after the ones already there.
    pub fn add_transition(&mut self, transition: Transition)
        ensures
            final(self)@ == (StateView {
                transitions: old(self)@.transitions.push(transition),
                ..old(self)@
            }),
    {
        self.transitions.push(transition);
    }

    /// Inserts an edge before all others, so that it is tried first.
    pub fn unshift_transition(&mut self, transition: Transition)
        ensures
            final(self)@ == (StateView {
                transitions: old(self)@.transitions.insert(0, transition),
                ..old(self)@
            }),
    {
        self.transitions.insert(0, transition);
    }

    /// Makes entering this state open the group `group`.
    pub fn mark_group_start(&mut self, group: String)
        ensures
            final(self)@ == (StateView { starts: old(self)@.starts.push(group@), ..old(self)@ }),
    {
        proof {
            lemma_names_push(self.starts_groups@, group);
        }
        self.starts_groups.push(group);
    }

    /// Makes entering this state close the group `group`.
    pub fn mark_group_end(&mut self, group: String)
        ensures
            final(self)@ == (StateView { ends: old(self)@.ends.push(group@), ..old(self)@ }),
    {
        proof {
            lemma_names_push(self.ends_groups@, group);
        }
        self.ends_groups.push(group);
    }
}

/// An automaton under construction: states by name, a start name, accept names,
/// and the first construction error met so far, reported by `finalize`.
pub struct NFA {
    states: Vec<State>,
    start_state: String,
    end_states: Vec<String>,
    error: Option<ConstructionError>,
}

pub ghost struct NfaView {
    pub states: Seq<StateView>,
    pub start: Seq<char>,
    pub accept: Seq<Seq<char>>,
    pub error: Option<ConstructionError>,
}

pub open spec fn views(states: Seq<State>) -> Seq<StateView> {
    Seq::new(states.len(), |k: int| states[k]@)
}

impl View for NFA {
    type V = NfaView;

    closed spec fn view(&self) -> NfaView {
        NfaView {
            states: views(self.states@),
            start: self.start_state@,
            accept: names_of(self.end_states@),
            error: self.error,
        }
    }
}

/// Whether some state is called `name`.
pub open spec fn has_state(states: Seq<StateView>, name: Seq<char>) -> bool {
    exists|k: int| 0 <= k < states.len() && (#[trigger] states[k]).name == name
}

/// No two states share a name.
pub open spec fn unique_names(states: Seq<StateView>) -> bool {
    forall|i: int, j: int|
        0 <= i < states.len() && 0 <= j < states.len() && i != j ==> (#[trigger] states[i]).name
            != (#[trigger] states[j]).name
}

/// Keeps the first error met.
pub open spec fn record(prev: Option<ConstructionError>, e: ConstructionError) -> Option<
    ConstructionError,
> {
    if prev is Some {
        prev
    } else {
        Some(e)
    }
}

/// `states` with `f` applied to the state called `name`.
pub open spec fn edit_named(
    states: Seq<StateView>,
    name: Seq<char>,
    f: spec_fn(StateView) -> StateView,
) -> Seq<StateView> {
    Seq::new(states.len(), |k: int| if states[k].name == name { f(states[k]) } else { states[k] })
}

/// The builder after `add_state(s)`.
pub open spec fn with_state(v: NfaView, s: StateView) -> NfaView {
    if has_state(v.states, s.name) {
        NfaView { error: record(v.error, ConstructionError::DuplicateState), ..v }
    } else {
        NfaView { states: v.states.push(s), ..v }
    }
}

/// The builder after declaring each of `names` in order.
pub open spec fn with_declared(v: NfaView, names: Seq<Seq<char>>) -> NfaView
    decreases names.len(),
{
    if names.len() == 0 {
        v
    } else {
        with_state(
            with_declared(v, names.drop_last()),
            StateView {
                name: names.last(),
                transitions: Seq::empty(),
                starts: Seq::empty(),
                ends: Seq::empty(),
            },
        )
    }
}

/// The builder after `f` is applied to the state called `name`, which must exist
/// as must every name of `also`; else the builder records an unknown state.
pub open spec fn with_edit(
    v: NfaView,
    name: Seq<char>,
    also: Seq<char>,
    f: spec_fn(StateView) -> StateView,
) -> NfaView {
    if has_state(v.states, name) && has_state(v.states, also) {
        NfaView { states: edit_named(v.states, name, f), ..v }
    } else {
        NfaView { error: record(v.error, ConstructionError::UnknownState), ..v }
    }
}

proof fn lemma_edit(
    old_states: Seq<StateView>,
    i: int,
    name: Seq<char>,
    f: spec_fn(StateView) -> StateView,
)
    requires
        unique_names(old_states),
        0 <= i < old_states.len(),
        old_states[i].name == name,
        f(old_states[i]).name == name,
    ensures
        old_states.update(i, f(old_states[i])) == edit_named(old_states, name, f),
        unique_names(edit_named(old_states, name, f)),
{
    assert(old_states.update(i, f(old_states[i])) =~= edit_named(old_states, name, f));
    let e = edit_named(old_states, name, f);
    assert forall|a: int, b: int|
        0 <= a < e.len() && 0 <= b < e.len() && a != b implies (#[trigger] e[a]).name != (
        #[trigger] e[b]).name by {
        assert(old_states[a].name != old_states[b].name);
    }
}

fn position(states: &Vec<State>, name: &String) -> (r: Option<usize>)
    ensures
        r is Some <==> has_state(views(states@), name@),
        r matches Some(i) ==> i < states@.len() && states@[i as int]@.name == name@,
{
    let mut i: usize = 0;
    while i < states.len()
        invariant
            0 <= i <= states@.len(),
            forall|k: int| 0 <= k < i ==> (#[trigger] states@[k])@.name != name@,
        decreases states@.len() - i,
    {
        if states[i].name == *name {
            assert(views(states@)[i as int].name == name@);
            return Some(i);
        }
        i += 1;
    }
    assert forall|k: int| 0 <= k < states@.len() implies (#[trigger] views(states@)[k]).name
        != name@ by {
        assert(views(states@)[k] == states@[k]@);
    }
    None
}

/// Some accept name is not a state.
pub open spec fn unknown_accept(v: NfaView) -> bool {
    exists|k: int| 0 <= k < v.accept.len() && !has_state(v.states, #[trigger] v.accept[k])
}

/// Some edge leads to a name that is not a state.
pub open spec fn unknown_target(v: NfaView) -> bool {
    exists|i: int, j: int|
        0 <= i < v.states.len() && 0 <= j < v.states[i].transitions.len() && !has_state(
            v.states,
            #[trigger] v.states[i].transitions[j].to@,
        )
}

/// What `finalize` reports: the first recorded error, else a missing piece, else nothing.
pub open spec fn finalize_error(v: NfaView) -> Option<ConstructionError> {
    if v.error is Some {
        v.error
    } else if v.states.len() == 0 {
        Some(ConstructionError::EmptyAutomaton)
    } else if !has_state(v.states, v.start) {
        Some(ConstructionError::NoStartState)
    } else if unknown_accept(v) || unknown_target(v) {
        Some(ConstructionError::UnknownState)
    } else {
        None
    }
}

/// No two group names are equal.
pub open spec fn distinct(groups: Seq<String>) -> bool {
    forall|i: int, j: int|
        0 <= i < groups.len() && 0 <= j < groups.len() && i != j ==> (#[trigger] groups[i])@
            != (#[trigger] groups[j])@
}

/// `node` is state `sv` with names replaced by indices into `states` and `groups`.
pub open spec fn compiled_node(
    node: Node,
    sv: StateView,
    states: Seq<StateView>,
    groups: Seq<String>,
) -> bool {
    &&& node.transitions@.len() == sv.transitions.len()
    &&& forall|j: int|
        0 <= j < sv.transitions.len() ==> {
            &&& (#[trigger] node.transitions@[j]).0 == sv.transitions[j].condition
            &&& node.transitions@[j].1 < states.len()
            &&& states[node.transitions@[j].1 as int].name == sv.transitions[j].to@
        }
    &&& node.starts@.len() == sv.starts.len()
    &&& forall|k: int|
        0 <= k < sv.starts.len() ==> #[trigger] node.starts@[k] < groups.len()
            && groups[node.starts@[k] as int]@ == sv.starts[k]
    &&& node.ends@.len() == sv.ends.len()
    &&& forall|k: int|
        0 <= k < sv.ends.len() ==> #[trigger] node.ends@[k] < groups.len()
            && groups[node.ends@[k] as int]@ == sv.ends[k]
}

/// Some state among the first `bound` opens or closes the group `g`.
pub open spec fn marked(states: Seq<StateView>, bound: int, g: Seq<char>) -> bool {
    exists|q: int|
        0 <= q < bound && q < states.len() && ((#[trigger] states[q]).starts.contains(g)
            || states[q].ends.contains(g))
}

/// `a` is the builder `v` with every name replaced by an index; its groups are
/// the marked group names, each once.
pub open spec fn compiled(a: Automaton, v: NfaView) -> bool {
    &&& a.states@.len() == v.states.len()
    &&& a.start < v.states.len()
    &&& v.states[a.start as int].name == v.start
    &&& a.accept@.len() == v.states.len()
    &&& forall|q: int|
        0 <= q < v.states.len() ==> (#[trigger] a.accept@[q] <==> v.accept.contains(v.states[q].name))
    &&& forall|q: int|
        0 <= q < v.states.len() ==> compiled_node(#[trigger] a.states@[q], v.states[q], v.states, a.groups@)
    &&& distinct(a.groups@)
    &&& forall|g: int|
        0 <= g < a.groups@.len() ==> marked(v.states, v.states.len() as int, (#[trigger] a.groups@[g])@)
}

proof fn lemma_node_grow(
    node: Node,
    sv: StateView,
    states: Seq<StateView>,
    g0: Seq<String>,
    g1: Seq<String>,
)
    requires
        compiled_node(node, sv, states, g0),
        g0.len() <= g1.len(),
        forall|k: int| 0 <= k < g0.len() ==> #[trigger] g1[k] == g0[k],
    ensures
        compiled_node(node, sv, states, g1),
{
    assert forall|k: int| 0 <= k < sv.starts.len() implies #[trigger] node.starts@[k] < g1.len()
        && g1[node.starts@[k] as int]@ == sv.starts[k] by {
        assert(g1[node.starts@[k] as int] == g0[node.starts@[k] as int]);
    }
    assert forall|k: int| 0 <= k < sv.ends.len() implies #[trigger] node.ends@[k] < g1.len()
        && g1[node.ends@[k] as int]@ == sv.ends[k] by {
        assert(g1[node.ends@[k] as int] == g0[node.ends@[k] as int]);
    }
}

fn find_name(names: &Vec<String>, name: &String) -> (r: Option<usize>)
    ensures
        match r {
            Some(i) => i < names@.len() && names@[i as int]@ == name@,
            None => forall|k: int| 0 <= k < names@.len() ==> (#[trigger] names@[k])@ != name@,
        },
{
    let mut i: usize = 0;
    while i < names.len()
        invariant
            0 <= i <= names@.len(),
            forall|k: int| 0 <= k < i ==> (#[trigger] names@[k])@ != name@,
        decreases names@.len() - i,
    {
        if names[i] == *name {
            return Some(i);
        }
        i += 1;
    }
    None
}

/// Index of `g` in `groups`, added at the end if it is new.
fn intern(groups: &mut Vec<String>, g: &String) -> (r: usize)
    requires
        distinct(old(groups)@),
    ensures
        distinct(final(groups)@),
        old(groups)@.len() <= final(groups)@.len(),
        forall|k: int| 0 <= k < old(groups)@.len() ==> #[trigger] final(groups)@[k] == old(groups)@[k],
        r < final(groups)@.len(),
        final(groups)@[r as int]@ == g@,
        forall|k: int|
            old(groups)@.len() <= k < final(groups)@.len() ==> (#[trigger] final(groups)@[k])@ == g@,
{
    match find_name(groups, g) {
        Some(i) => i,
        None => {
            groups.push(g.clone());
            groups.len() - 1
        },
    }
}

fn intern_all(groups: &mut Vec<String>, gs: &Vec<String>) -> (r: Vec<usize>)
    requires
        distinct(old(groups)@),
    ensures
        distinct(final(groups)@),
        old(groups)@.len() <= final(groups)@.len(),
        forall|k: int| 0 <= k < old(groups)@.len() ==> #[trigger] final(groups)@[k] == old(groups)@[k],
        r@.len() == gs@.len(),
        forall|k: int|
            0 <= k < r@.len() ==> #[trigger] r@[k] < final(groups)@.len() && final(groups)@[r@[k] as int]@
                == names_of(gs@)[k],
        forall|k: int|
            old(groups)@.len() <= k < final(groups)@.len() ==> names_of(gs@).contains(
                (#[trigger] final(groups)@[k])@,
            ),
{
    let ghost g0 = groups@;
    let mut r: Vec<usize> = Vec::new();
    while r.len() < gs.len()
        invariant
            distinct(groups@),
            g0.len() <= groups@.len(),
            forall|k: int| 0 <= k < g0.len() ==> #[trigger] groups@[k] == g0[k],
            r@.len() <= gs@.len(),
            forall|k: int|
                0 <= k < r@.len() ==> #[trigger] r@[k] < groups@.len() && groups@[r@[k] as int]@
                    == names_of(gs@)[k],
            forall|k: int|
                g0.len() <= k < groups@.len() ==> names_of(gs@).contains((#[trigger] groups@[k])@),
        decreases gs@.len() - r@.len(),
    {
        let ghost g1 = groups@;
        let idx = intern(groups, &gs[r.len()]);
        assert(names_of(gs@)[r@.len() as int] == gs@[r@.len() as int]@);
        assert forall|k: int| g0.len() <= k < groups@.len() implies names_of(gs@).contains(
            (#[trigger] groups@[k])@,
        ) by {
            if k < g1.len() {
                assert(groups@[k] == g1[k]);
            } else {
                assert(groups@[k]@ == names_of(gs@)[r@.len() as int]);
            }
        }
        assert forall|k: int| 0 <= k < r@.len() implies #[trigger] r@[k] < groups@.len()
            && groups@[r@[k] as int]@ == names_of(gs@)[k] by {
            assert(groups@[r@[k] as int] == g1[r@[k] as int]);
        }
        r.push(idx);
    }
    r
}

fn compile_edges(
    names: &Vec<String>,
    transitions: Vec<Transition>,
    Ghost(states): Ghost<Seq<StateView>>,
) -> (r: Option<Vec<(Condition, usize)>>)
    requires
        names@.len() == states.len(),
        forall|q: int| 0 <= q < names@.len() ==> (#[trigger] names@[q])@ == states[q].name,
    ensures
        match r {
            Some(es) => {
                &&& es@.len() == transitions@.len()
                &&& forall|j: int|
                    0 <= j < es@.len() ==> {
                        &&& (#[trigger] es@[j]).0 == transitions@[j].condition
                        &&& es@[j].1 < states.len()
                        &&& states[es@[j].1 as int].name == transitions@[j].to@
                    }
            },
            None => exists|j: int|
                0 <= j < transitions@.len() && !has_state(states, #[trigger] transitions@[j].to@),
        },
{
    let ghost all = transitions@;
    let mut rest = transitions;
    let mut es: Vec<(Condition, usize)> = Vec::new();
    while rest.len() > 0
        invariant
            all == transitions@,
            names@.len() == states.len(),
            forall|q: int| 0 <= q < names@.len() ==> (#[trigger] names@[q])@ == states[q].name,
            es@.len() + rest@.len() == all.len(),
            forall|q: int| 0 <= q < rest@.len() ==> #[trigger] rest@[q] == all[es@.len() + q],
            forall|j: int|
                0 <= j < es@.len() ==> {
                    &&& (#[trigger] es@[j]).0 == all[j].condition
                    &&& es@[j].1 < states.len()
                    &&& states[es@[j].1 as int].name == all[j].to@
                },
        decreases rest@.len(),
    {
        let ghost r0 = rest@;
        let ghost j = es@.len() as int;
        let t = rest.remove(0);
        assert(t == all[j]);
        assert forall|q: int| 0 <= q < rest@.len() implies #[trigger] rest@[q] == all[j + 1 + q] by {
            assert(rest@[q] == r0[q + 1]);
        }
        let Transition { to, condition } = t;
        match find_name(names, &to) {
            Some(d) => {
                es.push((condition, d));
            },
            None => {
                assert forall|q: int| 0 <= q < states.len() implies (#[trigger] states[q]).name != all[j].to@ by {
                    assert(names@[q]@ == states[q].name);
                }
                assert(!has_state(states, all[j].to@));
                return None;
            },
        }
    }
    Some(es)
}

impl NFA {
    /// Names are unique among the states.
    pub open spec fn wf(&self) -> bool {
        unique_names(self@.states)
    }

    /// An empty builder: no states, an empty start name, no accept names.
    pub fn new() -> (r: NFA)
        ensures
            r.wf(),
            r@.states == Seq::<StateView>::empty(),
            r@.start == Seq::<char>::empty(),
            r@.accept == Seq::<Seq<char>>::empty(),
            r@.error is None,
    {
        let r = NFA { states: Vec::new(), start_state: String::new(), end_states: Vec::new(), error: None };
        assert(views(r.states@) =~= Seq::<StateView>::empty());
        assert(names_of(r.end_states@) =~= Seq::<Seq<char>>::empty());
        r
    }

    /// Names the start state; `finalize` checks that it exists.
    pub fn set_start_state(&mut self, state: String)
        requires
            old(self).wf(),
        ensures
            final(self).wf(),
            final(self)@ == (NfaView { start: state@, ..old(self)@ }),
    {
        self.start_state = state;
    }

    /// Names the accepting states; `finalize` checks that they exist.
    pub fn set_end_states(&mut self, states: Vec<String>)
        requires
            old(self).wf(),
        ensures
            final(self).wf(),
            final(self)@ == (NfaView { accept: names_of(states@), ..old(self)@ }),
    {
        self.end_states = states;
    }

    fn fail(&mut self, e: ConstructionError)
        ensures
            final(self).states == old(self).states,
            final(self).start_state == old(self).start_state,
            final(self).end_states == old(self).end_states,
            final(self).error == record(old(self).error, e),
    {
        if self.error.is_none() {
            self.error = Some(e);
        }
    }

    /// Adds a state; one whose name is taken is a duplicate and is not added.
    pub fn add_state(&mut self, state: State)
        requires
            old(self).wf(),
        ensures
            final(self).wf(),
            final(self)@ == with_state(old(self)@, state@),
    {
        match position(&self.states, &state.name) {
            Some(_) => {
                self.fail(ConstructionError::DuplicateState);
            },
            None => {
                let ghost before = self.states@;
                let ghost sv = state@;
                self.states.push(state);
                assert(views(self.states@) =~= views(before).push(sv));
            },
        }
    }

    /// Adds an empty state for each name, in order.
    pub fn declare_states(&mut self, names: Vec<String>)
        requires
            old(self).wf(),
        ensures
            final(self).wf(),
            final(self)@ == with_declared(old(self)@, names_of(names@)),
    {
        let ghost v0 = self@;
        let mut i: usize = 0;
        assert(names_of(names@).subrange(0, 0) =~= Seq::<Seq<char>>::empty());
        while i < names.len()
            invariant
                self.wf(),
                0 <= i <= names@.len(),
                self@ == with_declared(v0, names_of(names@).subrange(0, i as int)),
            decreases names@.len() - i,
        {
            let name = names[i].clone();
            self.add_state(State::new(name));
            proof {
                let sub = names_of(names@).subrange(0, i + 1);
                assert(sub.drop_last() =~= names_of(names@).subrange(0, i as int));
                assert(sub.last() == names@[i as int]@);
            }
            i += 1;
        }
        assert(names_of(names@).subrange(0, i as int) =~= names_of(names@));
    }

    /// Appends an edge from `from` to `to`; both must be declared.
    pub fn add_transition(&mut self, from: String, to: String, condition: Condition)
        requires
            old(self).wf(),
        ensures
            final(self).wf(),
            final(self)@ == with_edit(
                old(self)@,
                from@,
                to@,
                |s: StateView|
                    StateView {
                        transitions: s.transitions.push(Transition { to, condition }),
                        ..s
                    },
            ),
    {
        let ghost f = |s: StateView|
            StateView { transitions: s.transitions.push(Transition { to, condition }), ..s };
        match (position(&self.states, &from), position(&self.states, &to)) {
            (Some(i), Some(_)) => {
                let ghost before = self.states@;
                self.states[i].add_transition(Transition::new(to, condition));
                proof {
                    assert(views(self.states@) =~= views(before).update(i as int, f(views(before)[i as int])));
                    lemma_edit(views(before), i as int, from@, f);
                }
            },
            _ => {
                self.fail(ConstructionError::UnknownState);
            },
        }
    }

    /// Inserts an edge from `from` to `to` ahead of the others of `from`; both must be declared.
    pub fn unshift_transition(&mut self, from: String, to: String, condition: Condition)
        requires
            old(self).wf(),
        ensures
            final(self).wf(),
            final(self)@ == with_edit(
                old(self)@,
                from@,
                to@,
                |s: StateView|
                    StateView {
                        transitions: s.transitions.insert(0, Transition { to, condition }),
                        ..s
                    },
            ),
    {
        let ghost f = |s: StateView|
            StateView { transitions: s.transitions.insert(0, Transition { to, condition }), ..s };
        match (position(&self.states, &from), position(&self.states, &to)) {
            (Some(i), Some(_)) => {
                let ghost before = self.states@;
                self.states[i].unshift_transition(Transition::new(to, condition));
                proof {
                    assert(views(self.states@) =~= views(before).update(i as int, f(views(before)[i as int])));
                    lemma_edit(views(before), i as int, from@, f);
                }
            },
            _ => {
                self.fail(ConstructionError::UnknownState);
            },
        }
    }

    /// Makes entering `state` open `group`; `state` must be declared.
    pub fn mark_group_start(&mut self, state: String, group: String)
        requires
            old(self).wf(),
        ensures
            final(self).wf(),
            final(self)@ == with_edit(
                old(self)@,
                state@,
                state@,
                |s: StateView| StateView { starts: s.starts.push(group@), ..s },
            ),
    {
        let ghost f = |s: StateView| StateView { starts: s.starts.push(group@), ..s };
        match position(&self.states, &state) {
            Some(i) => {
                let ghost before = self.states@;
                self.states[i].mark_group_start(group);
                proof {
                    assert(views(self.states@) =~= views(before).update(i as int, f(views(before)[i as int])));
                    lemma_edit(views(before), i as int, state@, f);
                }
            },
            None => {
                self.fail(ConstructionError::UnknownState);
            },
        }
    }

    /// Makes entering `state` close `group`; `state` must be declared.
    pub fn mark_group_end(&mut self, state: String, group: String)
        requires
            old(self).wf(),
        ensures
            final(self).wf(),
            final(self)@ == with_edit(
                old(self)@,
                state@,
                state@,
                |s: StateView| StateView { ends: s.ends.push(group@), ..s },
            ),
    {
        let ghost f = |s: StateView| StateView { ends: s.ends.push(group@), ..s };
        match position(&self.states, &state) {
            Some(i) => {
                let ghost before = self.states@;
                self.states[i].mark_group_end(group);
                proof {
                    assert(views(self.states@) =~= views(before).update(i as int, f(views(before)[i as int])));
                    lemma_edit(views(before), i as int, state@, f);
                }
            },
            None => {
                self.fail(ConstructionError::UnknownState);
            },
        }
    }

    /// Validates the automaton and compiles it into indexed form; nothing is
    /// returned but the first error when it fails.
    pub fn finalize(self) -> (r: Result<Automaton, ConstructionError>)
        requires
            self.wf(),
        ensures
            match r {
                Ok(a) => finalize_error(self@) is None && a.wf() && compiled(a, self@),
                Err(e) => finalize_error(self@) == Some(e),
            },
    {
        let ghost v = self@;
        if let Some(e) = self.error {
            return Err(e);
        }
        let n = self.states.len();
        if n == 0 {
            return Err(ConstructionError::EmptyAutomaton);
        }
        let start = match position(&self.states, &self.start_state) {
            Some(i) => i,
            None => {
                return Err(ConstructionError::NoStartState);
            },
        };
        assert(views(self.states@)[start as int] == self.states@[start as int]@);

        let mut names: Vec<String> = Vec::new();
        while names.len() < n
            invariant
                n == self.states@.len(),
                names@.len() <= n,
                forall|k: int| 0 <= k < names@.len() ==> (#[trigger] names@[k])@ == v.states[k].name,
                v == self@,
                v.error is None && v.states.len() > 0 && has_state(v.states, v.start),
                start < n && v.states[start as int].name == v.start,
                v.states.len() == n,
            decreases n - names@.len(),
        {
            let k = names.len();
            assert(v.states[k as int] == self.states@[k as int]@);
            names.push(self.states[k].name.clone());
        }
        let mut k: usize = 0;
        while k < self.end_states.len()
            invariant
                v == self@,
                v.error is None && v.states.len() > 0 && has_state(v.states, v.start),
                start < n && v.states[start as int].name == v.start,
                v.states.len() == n,
                n == self.states@.len(),
                names@.len() == n,
                forall|q: int| 0 <= q < names@.len() ==> (#[trigger] names@[q])@ == v.states[q].name,
                0 <= k <= self.end_states@.len(),
                forall|q: int| 0 <= q < k ==> has_state(v.states, #[trigger] v.accept[q]),
            decreases self.end_states@.len() - k,
        {
            assert(v.accept[k as int] == self.end_states@[k as int]@);
            match find_name(&names, &self.end_states[k]) {
                Some(d) => {
                    assert(v.states[d as int].name == v.accept[k as int]);
                },
                None => {
                    assert forall|q: int| 0 <= q < v.states.len() implies (#[trigger] v.states[q]).name
                        != v.accept[k as int] by {
                        assert(names@[q]@ == v.states[q].name);
                    }
                    assert(!has_state(v.states, v.accept[k as int]));
                    return Err(ConstructionError::UnknownState);
                },
            }
            k += 1;
        }
        let mut accept: Vec<bool> = Vec::new();
        assert(!unknown_accept(v));
        while accept.len() < n
            invariant
                v == self@,
                v.error is None && v.states.len() > 0 && has_state(v.states, v.start),
                start < n && v.states[start as int].name == v.start,
                !unknown_accept(v),
                v.states.len() == n,
                names@.len() == n,
                forall|q: int| 0 <= q < names@.len() ==> (#[trigger] names@[q])@ == v.states[q].name,
                accept@.len() <= n,
                forall|q: int|
                    0 <= q < accept@.len() ==> (#[trigger] accept@[q] <==> v.accept.contains(v.states[q].name)),
            decreases n - accept@.len(),
        {
            let q = accept.len();
            let found = find_name(&self.end_states, &names[q]);
            proof {
                if found is Some {
                    let d = found->Some_0 as int;
                    assert(v.accept[d] == self.end_states@[d]@);
                }
                if v.accept.contains(v.states[q as int].name) {
                    let d = choose|d: int| 0 <= d < v.accept.len() && v.accept[d] == v.states[q as int].name;
                    assert(v.accept[d] == self.end_states@[d]@);
                }
            }
            accept.push(found.is_some());
        }
        let mut rest = self.states;
        let mut nodes: Vec<Node> = Vec::new();
        let mut groups: Vec<String> = Vec::new();
        while rest.len() > 0
            invariant
                v.error is None && v.states.len() > 0 && has_state(v.states, v.start),
                start < n && v.states[start as int].name == v.start,
                !unknown_accept(v),
                v == self@,
                accept@.len() == n,
                forall|q: int|
                    0 <= q < n ==> (#[trigger] accept@[q] <==> v.accept.contains(v.states[q].name)),
                n == v.states.len(),
                names@.len() == n,
                forall|q: int| 0 <= q < names@.len() ==> (#[trigger] names@[q])@ == v.states[q].name,
                nodes@.len() + rest@.len() == n,
                forall|q: int| 0 <= q < rest@.len() ==> (#[trigger] rest@[q])@ == v.states[nodes@.len() + q],
                distinct(groups@),
                forall|g: int|
                    0 <= g < groups@.len() ==> marked(v.states, nodes@.len() as int, (#[trigger] groups@[g])@),
                forall|q: int| 0 <= q < nodes@.len() ==> compiled_node(#[trigger] nodes@[q], v.states[q], v.states, groups@),
                forall|q: int, j: int| 0 <= q < nodes@.len() && 0 <= j < v.states[q].transitions.len()
                    ==> has_state(v.states, #[trigger] v.states[q].transitions[j].to@),
            decreases rest@.len(),
        {
            let ghost i = nodes@.len() as int;
            let ghost g0 = groups@;
            let ghost r0 = rest@;
            let st = rest.remove(0);
            assert(st@ == v.states[i]);
            assert forall|q: int| 0 <= q < rest@.len() implies (#[trigger] rest@[q])@ == v.states[i + 1 + q] by {
                assert(rest@[q] == r0[q + 1]);
            }
            let State { name: _, transitions, starts_groups, ends_groups } = st;
            let edges = match compile_edges(&names, transitions, Ghost(v.states)) {
                Some(es) => es,
                None => {
                    proof {
                        let j = choose|j: int|
                            0 <= j < v.states[i].transitions.len() && !has_state(
                                v.states,
                                #[trigger] v.states[i].transitions[j].to@,
                            );
                        assert(unknown_target(v));
                    }
                    return Err(ConstructionError::UnknownState);
                },
            };
            assert forall|j: int| 0 <= j < v.states[i].transitions.len() implies has_state(
                v.states,
                #[trigger] v.states[i].transitions[j].to@,
            ) by {
                assert(edges@[j].1 < n);
                assert(v.states[edges@[j].1 as int].name == v.states[i].transitions[j].to@);
            }
            let starts = intern_all(&mut groups, &starts_groups);
            let ghost g_mid = groups@;
            let ends = intern_all(&mut groups, &ends_groups);
            assert forall|g: int| 0 <= g < groups@.len() implies marked(
                v.states,
                i + 1,
                (#[trigger] groups@[g])@,
            ) by {
                if g < g0.len() {
                    assert(groups@[g] == g0[g]);
                    let q = choose|q: int|
                        0 <= q < i && q < v.states.len() && ((#[trigger] v.states[q]).starts.contains(g0[g]@)
                            || v.states[q].ends.contains(g0[g]@));
                } else if g < g_mid.len() {
                    assert(groups@[g] == g_mid[g]);
                    assert(v.states[i].starts.contains(groups@[g]@));
                } else {
                    assert(v.states[i].ends.contains(groups@[g]@));
                }
            }
            assert forall|q: int| 0 <= q < nodes@.len() implies compiled_node(#[trigger] nodes@[q], v.states[q], v.states, groups@) by {
                lemma_node_grow(nodes@[q], v.states[q], v.states, g0, groups@);
            }
            let node = Node { transitions: edges, starts, ends };
            assert(compiled_node(node, v.states[i], v.states, groups@));
            nodes.push(node);
        }
        proof {
            assert forall|q: int, j: int|
                0 <= q < nodes@.len() && 0 <= j < nodes@[q].transitions@.len()
                    implies #[trigger] nodes@[q].transitions@[j].1 < nodes@.len() by {
                assert(compiled_node(nodes@[q], v.states[q], v.states, groups@));
            }
            assert forall|q: int, j: int|
                0 <= q < nodes@.len() && 0 <= j < nodes@[q].starts@.len()
                    implies #[trigger] nodes@[q].starts@[j] < groups@.len() by {
                assert(compiled_node(nodes@[q], v.states[q], v.states, groups@));
            }
            assert forall|q: int, j: int|
                0 <= q < nodes@.len() && 0 <= j < nodes@[q].ends@.len()
                    implies #[trigger] nodes@[q].ends@[j] < groups@.len() by {
                assert(compiled_node(nodes@[q], v.states[q], v.states, groups@));
            }
            assert(!unknown_target(v));
        }
        Ok(Automaton { states: nodes, start, accept, groups })
    }
}

} // verus!
