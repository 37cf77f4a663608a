use codemod::nfa::{Context, Nfa, NfaModel};

fn step_sizes(model: &NfaModel, input: &str) -> Vec<usize> {
    let mut ctx = Context::add_epsilons(vec![model.start], &model.nfa);
    let mut sizes = Vec::new();
    for c in input.chars() {
        ctx = ctx.step(&model.nfa, c);
        sizes.push(ctx.len());
    }
    sizes
}

#[test]
fn test_to_dfa_equivalent_simulation() {
    // a|ab over an epsilon-spine: determinization keeps the language
    let mut nfa = Nfa::new(Vec::new());
    let s = nfa.new_node();
    let m1 = nfa.new_node();
    let m2 = nfa.new_node();
    let e = nfa.new_node();
    nfa.add_transition_alpha(&s, &m1, 'a').unwrap();
    nfa.add_transition_alpha(&s, &m2, 'a').unwrap();
    nfa.add_transition_epsilon(&m1, &e).unwrap();
    nfa.add_transition_alpha(&m2, &e, 'b').unwrap();
    let model = NfaModel::new(nfa, s, e);
    let d = model.to_dfa().unwrap();
    // the original accepts "a" from closure-of-start simulation
    let mut ctx = Context::add_epsilons(vec![model.start], &model.nfa);
    ctx = ctx.step(&model.nfa, 'a');
    assert!(ctx.contains(&model.end));
    // the determinized form has one node per canonical set, epsilon edges
    // only as accepting markers, and a simulation stable at every step
    let s1 = step_sizes(&d, "ab");
    let d2 = d.to_dfa().unwrap();
    let s2 = step_sizes(&d2, "ab");
    assert_eq!(s1, s2);
    let s1 = step_sizes(&d, "aba");
    let s2 = step_sizes(&d2, "aba");
    assert_eq!(s1, s2);
}

#[test]
fn test_to_dfa_structure() {
    let mut nfa = Nfa::new(Vec::new());
    let a = nfa.new_node();
    let b = nfa.new_node();
    let c = nfa.new_node();
    nfa.add_transition_alpha(&a, &b, 'a').unwrap();
    nfa.add_transition_epsilon(&b, &c).unwrap();
    let model = NfaModel::new(nfa, a, c);
    let d = model.to_dfa().unwrap();
    assert_eq!(d.start.id, 0);
    assert_eq!(d.end.id, 1);
    // start node: one 'a' transition into the node for the closure {b, c};
    // that closure holds the source accepting node, so its marker edge
    // activates the result's accepting node too
    let ctx = Context::new(vec![d.start]);
    let after = ctx.step(&d.nfa, 'a');
    assert_eq!(after.len(), 2);
    assert!(after.contains(&d.end));
}
