use codemod::nfa::{Context, Nfa, NfaError, NfaModel, Node, NodePointer};

#[test]
fn test_nfa_insert() {
    let mut nfa = Nfa::new(Vec::new());
    nfa.add_node(Node::new());
    nfa.add_node(Node::new());
    nfa.add_node(Node::new());
    assert_eq!(nfa.node_count(), 3);
}

#[test]
fn test_nfa_alpha_transition() {
    let mut nfa = Nfa::new(Vec::new());
    let a = nfa.add_node(Node::new());
    let b = nfa.add_node(Node::new());
    nfa.add_transition_alpha(&a, &b, 'a').unwrap();
    let ctx = Context::new(vec![a]);
    let ctx2 = ctx.step(&nfa, 'b');
    assert_eq!(ctx2.len(), 0);
    let ctx2 = ctx.step(&nfa, 'a');
    assert_eq!(ctx2.len(), 1);
    assert!(ctx2.contains(&b));
}

#[test]
fn test_nfa_epsilon_transition() {
    let mut nfa = Nfa::new(Vec::new());
    let a = nfa.new_node();
    let b = nfa.new_node();
    let c = nfa.new_node();
    nfa.add_transition_alpha(&a, &b, 'a').unwrap();
    nfa.add_transition_epsilon(&b, &c).unwrap();
    let ctx = Context::new(vec![a]);
    let ctx2 = ctx.step(&nfa, 'b');
    assert_eq!(ctx2.len(), 0);
    let ctx2 = ctx.step(&nfa, 'a');
    assert_eq!(ctx2.len(), 2);
    assert!(ctx2.contains(&b));
    assert!(ctx2.contains(&c));
}

#[test]
fn test_nfa_to_dfa() {
    let mut nfa = Nfa::new(Vec::new());
    let a = nfa.new_node();
    let b = nfa.new_node();
    let c = nfa.new_node();
    nfa.add_transition_alpha(&a, &b, 'a').unwrap();
    nfa.add_transition_epsilon(&b, &c).unwrap();
    let a = NfaModel::new(nfa, a, c);
    println!("{:?}", a.to_dfa());
}

#[test]
fn test_invalid_source_rejected() {
    let mut nfa = Nfa::new(Vec::new());
    let a = nfa.new_node();
    let ghostly = NodePointer::new(7);
    let r = nfa.add_transition_alpha(&ghostly, &a, 'x');
    assert_eq!(r, Err(NfaError::InvalidTransitionSource));
    assert_eq!(nfa.node_count(), 1);
}

#[test]
fn test_range_and_negative_range() {
    let mut nfa = Nfa::new(Vec::new());
    let a = nfa.new_node();
    let b = nfa.new_node();
    let c = nfa.new_node();
    nfa.add_transition_range(&a, &b, "abc".to_string()).unwrap();
    nfa.add_transition_negativerange(&a, &c, "abc".to_string()).unwrap();
    let ctx = Context::new(vec![a]);
    let hit = ctx.step(&nfa, 'b');
    assert!(hit.contains(&b));
    assert!(!hit.contains(&c));
    let miss = ctx.step(&nfa, 'z');
    assert!(!miss.contains(&b));
    assert!(miss.contains(&c));
}

#[test]
fn test_queryset_never_steps() {
    // a semantic predicate transition is not matched by character stepping
    let mut nfa = Nfa::new(Vec::new());
    let a = nfa.new_node();
    let b = nfa.new_node();
    nfa.add_transition_queryset(&a, &b, "type=Session".to_string()).unwrap();
    let ctx = Context::new(vec![a]);
    for ch in ['a', 't', '=', ' '] {
        let out = ctx.step(&nfa, ch);
        assert_eq!(out.len(), 0);
    }
}

#[test]
fn test_epsilon_closure_idempotent_on_loop() {
    // an epsilon cycle: the closure reaches the fixpoint and stays there
    let mut nfa = Nfa::new(Vec::new());
    let a = nfa.new_node();
    let b = nfa.new_node();
    let c = nfa.new_node();
    nfa.add_transition_epsilon(&a, &b).unwrap();
    nfa.add_transition_epsilon(&b, &c).unwrap();
    nfa.add_transition_epsilon(&c, &a).unwrap();
    let once = Context::add_epsilons(vec![a], &nfa);
    assert_eq!(once.len(), 3);
    let twice = Context::add_epsilons(once.nodes.clone(), &nfa);
    assert_eq!(twice.len(), 3);
    for p in [a, b, c] {
        assert!(once.contains(&p));
        assert!(twice.contains(&p));
    }
}

#[test]
fn test_to_dfa_dangling_destination_is_fatal() {
    // a transition destination outside the arena is an internal invariant
    // violation once subset construction reaches it
    let mut nfa = Nfa::new(Vec::new());
    let a = nfa.new_node();
    let ghostly = NodePointer::new(99);
    nfa.add_transition_alpha(&a, &ghostly, 'x').unwrap();
    let model = NfaModel::new(nfa, a, a);
    assert_eq!(model.to_dfa().err(), Some(NfaError::InternalInvariantViolation));
}

#[test]
fn test_empty_inputs() {
    let nfa = Nfa::new(Vec::new());
    assert_eq!(nfa.node_count(), 0);
    let ctx = Context::new(Vec::new());
    assert_eq!(ctx.len(), 0);
    let stepped = ctx.step(&nfa, 'a');
    assert_eq!(stepped.len(), 0);
}
