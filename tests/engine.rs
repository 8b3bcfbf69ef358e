use nfa_engine::automaton::{Automaton, MatchResult};
use nfa_engine::condition::Condition;
use nfa_engine::nfa::{ConstructionError, State, Transition, NFA};

fn names(v: &[&str]) -> Vec<String> {
    v.iter().map(|s| s.to_string()).collect()
}

fn chars(s: &str) -> Vec<char> {
    s.chars().collect()
}

fn build(nfa: NFA) -> Automaton {
    match nfa.finalize() {
        Ok(a) => a,
        Err(e) => panic!("finalize failed: {:?}", e),
    }
}

fn span_of(r: &MatchResult, name: &str) -> Option<(usize, usize)> {
    r.group(&name.to_string())
}

fn single_state() -> Automaton {
    let mut nfa = NFA::new();
    nfa.declare_states(names(&["s0"]));
    nfa.set_start_state("s0".to_string());
    nfa.set_end_states(names(&["s0"]));
    build(nfa)
}

fn one_literal() -> Automaton {
    let mut nfa = NFA::new();
    nfa.declare_states(names(&["s0", "s1"]));
    nfa.add_transition("s0".to_string(), "s1".to_string(), Condition::Literal('a'));
    nfa.set_start_state("s0".to_string());
    nfa.set_end_states(names(&["s1"]));
    build(nfa)
}

#[test]
fn single_state_accepts_only_empty_input() {
    let a = single_state();
    assert!(a.run(&chars("")).accepted);
    assert!(!a.run(&chars("a")).accepted);
}

#[test]
fn literal_edge() {
    let a = one_literal();
    assert!(a.run(&chars("a")).accepted);
    assert!(!a.run(&chars("b")).accepted);
    assert!(!a.run(&chars("")).accepted);
    assert!(!a.run(&chars("aa")).accepted);
}

fn two_paths(prepend_any: bool) -> Automaton {
    let mut nfa = NFA::new();
    nfa.declare_states(names(&["s0", "s1", "s2"]));
    nfa.add_transition("s0".to_string(), "s1".to_string(), Condition::Literal('a'));
    if prepend_any {
        nfa.unshift_transition("s0".to_string(), "s2".to_string(), Condition::Any);
    } else {
        nfa.add_transition("s0".to_string(), "s2".to_string(), Condition::Any);
    }
    nfa.mark_group_start("s0".to_string(), "g".to_string());
    nfa.mark_group_end("s1".to_string(), "g".to_string());
    nfa.set_start_state("s0".to_string());
    nfa.set_end_states(names(&["s1", "s2"]));
    build(nfa)
}

#[test]
fn first_listed_path_wins() {
    let a = two_paths(false);
    let r = a.run(&chars("a"));
    assert!(r.accepted);
    assert_eq!(span_of(&r, "g"), Some((0, 1)));
}

#[test]
fn prepended_path_wins() {
    let a = two_paths(true);
    let r = a.run(&chars("a"));
    assert!(r.accepted);
    assert_eq!(r.groups.len(), 1);
    assert_eq!(r.groups[0].name, "g");
    assert_eq!(r.groups[0].span, None);
}

fn grouped_x() -> Automaton {
    let mut nfa = NFA::new();
    nfa.declare_states(names(&["s0", "s1", "s2"]));
    nfa.mark_group_start("s0".to_string(), "g".to_string());
    nfa.add_transition("s0".to_string(), "s1".to_string(), Condition::Epsilon);
    nfa.add_transition("s1".to_string(), "s2".to_string(), Condition::Literal('x'));
    nfa.mark_group_end("s2".to_string(), "g".to_string());
    nfa.set_start_state("s0".to_string());
    nfa.set_end_states(names(&["s2"]));
    build(nfa)
}

#[test]
fn group_span_through_epsilon() {
    let a = grouped_x();
    let r = a.run(&chars("x"));
    assert!(r.accepted);
    assert_eq!(span_of(&r, "g"), Some((0, 1)));
    assert!(!a.run(&chars("y")).accepted);
}

#[test]
fn rejected_run_reports_no_groups() {
    let a = grouped_x();
    let r = a.run(&chars("xx"));
    assert!(!r.accepted);
    assert!(r.groups.is_empty());
}

#[test]
fn epsilon_self_loop_terminates() {
    let mut nfa = NFA::new();
    nfa.declare_states(names(&["s0"]));
    nfa.add_transition("s0".to_string(), "s0".to_string(), Condition::Epsilon);
    nfa.set_start_state("s0".to_string());
    nfa.set_end_states(names(&["s0"]));
    let a = build(nfa);
    assert!(a.run(&chars("")).accepted);
    assert!(!a.run(&chars("a")).accepted);
}

#[test]
fn epsilon_cycle_with_loop_on_input() {
    // s0 -a-> s1 -eps-> s0, s1 -eps-> s1: accepts a+
    let mut nfa = NFA::new();
    nfa.declare_states(names(&["s0", "s1"]));
    nfa.add_transition("s0".to_string(), "s1".to_string(), Condition::Literal('a'));
    nfa.add_transition("s1".to_string(), "s0".to_string(), Condition::Epsilon);
    nfa.add_transition("s1".to_string(), "s1".to_string(), Condition::Epsilon);
    nfa.set_start_state("s0".to_string());
    nfa.set_end_states(names(&["s1"]));
    let a = build(nfa);
    assert!(!a.run(&chars("")).accepted);
    assert!(a.run(&chars("a")).accepted);
    assert!(a.run(&chars("aaaa")).accepted);
    assert!(!a.run(&chars("aab")).accepted);
    assert!(a.is_match(&chars("aa")));
    assert!(!a.is_match(&chars("b")));
}

#[test]
fn repeated_runs_agree() {
    let a = grouped_x();
    let first = a.run(&chars("x"));
    let second = a.run(&chars("x"));
    assert_eq!(first.accepted, second.accepted);
    assert_eq!(first.groups.len(), second.groups.len());
    for (f, s) in first.groups.iter().zip(second.groups.iter()) {
        assert_eq!(f.name, s.name);
        assert_eq!(f.span, s.span);
    }
}

#[test]
fn spans_lie_within_input() {
    // a group that opens on "b" and closes on every "c": (x*)b(c)*
    let mut nfa = NFA::new();
    nfa.declare_states(names(&["s0", "s1", "s2"]));
    nfa.add_transition("s0".to_string(), "s0".to_string(), Condition::Literal('x'));
    nfa.add_transition("s0".to_string(), "s1".to_string(), Condition::Literal('b'));
    nfa.add_transition("s1".to_string(), "s2".to_string(), Condition::Literal('c'));
    nfa.add_transition("s2".to_string(), "s1".to_string(), Condition::Epsilon);
    nfa.mark_group_start("s1".to_string(), "g".to_string());
    nfa.mark_group_end("s2".to_string(), "g".to_string());
    nfa.set_start_state("s0".to_string());
    nfa.set_end_states(names(&["s1", "s2"]));
    let a = build(nfa);
    let input = chars("xxbcc");
    let r = a.run(&input);
    assert!(r.accepted);
    let (x, y) = span_of(&r, "g").unwrap();
    assert!(x <= y && y <= input.len());
    assert_eq!((x, y), (4, 5));
    let r = a.run(&chars("xb"));
    assert!(r.accepted);
    assert_eq!(span_of(&r, "g"), None);
}

#[test]
fn unknown_characters_are_just_characters() {
    let mut nfa = NFA::new();
    nfa.declare_states(names(&["s0", "s1"]));
    nfa.add_transition(
        "s0".to_string(),
        "s1".to_string(),
        Condition::Negate(Box::new(Condition::Range('a', 'z'))),
    );
    nfa.set_start_state("s0".to_string());
    nfa.set_end_states(names(&["s1"]));
    let a = build(nfa);
    assert!(a.run(&chars("é")).accepted);
    assert!(a.run(&chars("\u{1F600}")).accepted);
    assert!(!a.run(&chars("q")).accepted);
}

#[test]
fn conditions_match() {
    assert!(Condition::Any.matches('z'));
    assert!(Condition::Literal('a').matches('a'));
    assert!(!Condition::Literal('a').matches('b'));
    assert!(Condition::Range('a', 'c').matches('a'));
    assert!(Condition::Range('a', 'c').matches('c'));
    assert!(!Condition::Range('a', 'c').matches('d'));
    assert!(!Condition::Range('c', 'a').matches('b'));
    assert!(Condition::OneOf(vec!['x', 'y', 'x']).matches('y'));
    assert!(!Condition::OneOf(vec!['x', 'y']).matches('z'));
    assert!(!Condition::OneOf(vec![]).matches('z'));
    assert!(Condition::Negate(Box::new(Condition::Literal('a'))).matches('b'));
    assert!(!Condition::Negate(Box::new(Condition::Literal('a'))).matches('a'));
    assert!(!Condition::Epsilon.matches('a'));
    assert!(Condition::Epsilon.epsilon());
    assert!(!Condition::Any.epsilon());
}

#[test]
fn state_and_transition_constructors() {
    let t = Transition::new("s1".to_string(), Condition::Any);
    assert_eq!(t.to, "s1");
    let mut s = State::new("s0".to_string());
    s.add_transition(Transition::new("s1".to_string(), Condition::Literal('a')));
    s.unshift_transition(t);
    s.mark_group_start("g".to_string());
    let mut nfa = NFA::new();
    nfa.add_state(s);
    nfa.add_state(State::new("s1".to_string()));
    nfa.set_start_state("s0".to_string());
    nfa.set_end_states(names(&["s1"]));
    let a = build(nfa);
    assert!(a.run(&chars("z")).accepted);
    assert!(a.run(&chars("a")).accepted);
    assert_eq!(a.groups.len(), 1);
}

fn error_of(nfa: NFA) -> Option<ConstructionError> {
    nfa.finalize().err()
}

#[test]
fn duplicate_state_is_reported() {
    let mut nfa = NFA::new();
    nfa.declare_states(names(&["s0", "s0"]));
    nfa.set_start_state("s0".to_string());
    assert_eq!(error_of(nfa), Some(ConstructionError::DuplicateState));
}

#[test]
fn unknown_endpoint_is_reported() {
    let mut nfa = NFA::new();
    nfa.declare_states(names(&["s0"]));
    nfa.add_transition("s0".to_string(), "nowhere".to_string(), Condition::Any);
    nfa.set_start_state("s0".to_string());
    assert_eq!(error_of(nfa), Some(ConstructionError::UnknownState));

    let mut nfa = NFA::new();
    nfa.declare_states(names(&["s0"]));
    nfa.unshift_transition("nowhere".to_string(), "s0".to_string(), Condition::Any);
    nfa.set_start_state("s0".to_string());
    assert_eq!(error_of(nfa), Some(ConstructionError::UnknownState));
}

#[test]
fn unknown_accept_state_is_reported() {
    let mut nfa = NFA::new();
    nfa.declare_states(names(&["s0"]));
    nfa.set_start_state("s0".to_string());
    nfa.set_end_states(names(&["s9"]));
    assert_eq!(error_of(nfa), Some(ConstructionError::UnknownState));
}

#[test]
fn unknown_target_in_added_state_is_reported() {
    let mut s = State::new("s0".to_string());
    s.add_transition(Transition::new("s7".to_string(), Condition::Any));
    let mut nfa = NFA::new();
    nfa.add_state(s);
    nfa.set_start_state("s0".to_string());
    assert_eq!(error_of(nfa), Some(ConstructionError::UnknownState));
}

#[test]
fn missing_start_is_reported() {
    let mut nfa = NFA::new();
    nfa.declare_states(names(&["s0"]));
    assert_eq!(error_of(nfa), Some(ConstructionError::NoStartState));
    let mut nfa = NFA::new();
    nfa.declare_states(names(&["s0"]));
    nfa.set_start_state("s1".to_string());
    assert_eq!(error_of(nfa), Some(ConstructionError::NoStartState));
}

#[test]
fn empty_automaton_is_reported() {
    let mut nfa = NFA::new();
    nfa.set_start_state("s0".to_string());
    assert_eq!(error_of(nfa), Some(ConstructionError::EmptyAutomaton));
}

#[test]
fn first_error_is_kept() {
    let mut nfa = NFA::new();
    nfa.declare_states(names(&["s0"]));
    nfa.mark_group_end("nowhere".to_string(), "g".to_string());
    nfa.declare_states(names(&["s0"]));
    nfa.set_start_state("s0".to_string());
    assert_eq!(error_of(nfa), Some(ConstructionError::UnknownState));
}

#[test]
fn group_opened_and_closed_on_entry_is_empty() {
    let mut nfa = NFA::new();
    nfa.declare_states(names(&["s0", "s1"]));
    nfa.add_transition("s0".to_string(), "s1".to_string(), Condition::Literal('a'));
    nfa.mark_group_start("s1".to_string(), "e".to_string());
    nfa.mark_group_end("s1".to_string(), "e".to_string());
    nfa.mark_group_end("s0".to_string(), "never".to_string());
    nfa.set_start_state("s0".to_string());
    nfa.set_end_states(names(&["s1"]));
    let a = build(nfa);
    let r = a.run(&chars("a"));
    assert!(r.accepted);
    assert_eq!(span_of(&r, "e"), Some((1, 1)));
    assert_eq!(span_of(&r, "never"), None);
    assert_eq!(r.groups.len(), 2);
}

fn diamond(prefer_marked: bool) -> Automaton {
    let mut nfa = NFA::new();
    nfa.declare_states(names(&["s0", "s1", "s2", "s3"]));
    nfa.add_transition("s0".to_string(), "s1".to_string(), Condition::Epsilon);
    if prefer_marked {
        nfa.unshift_transition("s0".to_string(), "s2".to_string(), Condition::Epsilon);
    } else {
        nfa.add_transition("s0".to_string(), "s2".to_string(), Condition::Epsilon);
    }
    nfa.add_transition("s1".to_string(), "s3".to_string(), Condition::Epsilon);
    nfa.add_transition("s2".to_string(), "s3".to_string(), Condition::Epsilon);
    nfa.mark_group_start("s2".to_string(), "g".to_string());
    nfa.mark_group_end("s3".to_string(), "g".to_string());
    nfa.set_start_state("s0".to_string());
    nfa.set_end_states(names(&["s3"]));
    build(nfa)
}

#[test]
fn closure_keeps_first_path_to_a_state() {
    let r = diamond(false).run(&chars(""));
    assert!(r.accepted);
    assert_eq!(span_of(&r, "g"), None);
    let r = diamond(true).run(&chars(""));
    assert!(r.accepted);
    assert_eq!(span_of(&r, "g"), Some((0, 0)));
}

#[test]
fn group_lookup_by_name() {
    let r = two_paths(false).run(&chars("a"));
    assert_eq!(r.group(&"g".to_string()), Some((0, 1)));
    assert_eq!(r.group(&"h".to_string()), None);
}
