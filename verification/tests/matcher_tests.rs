use codemod::clike::Clike;
use codemod::matcher::find;
use codemod::nfa::{Nfa, NfaModel};
use codemod::replacer::{replace, replace_semantic, replace_spans};

fn literal_pattern(pat: &str) -> NfaModel {
    let mut nfa = Nfa::new(Vec::new());
    let start = nfa.new_node();
    let mut cur = start;
    for c in pat.chars() {
        let next = nfa.new_node();
        nfa.add_transition_alpha(&cur, &next, c).unwrap();
        cur = next;
    }
    NfaModel::new(nfa, start, cur)
}

#[test]
fn test_find_leftmost_nonoverlapping() {
    let model = literal_pattern("ab");
    let ms = find("xxabyabab", &model);
    let spans: Vec<(usize, usize)> = ms.iter().map(|m| (m.start, m.end)).collect();
    assert_eq!(spans, vec![(2, 4), (5, 7), (7, 9)]);
}

#[test]
fn test_find_no_match() {
    let model = literal_pattern("ab");
    assert_eq!(find("xyz", &model).len(), 0);
}

#[test]
fn test_group_span_recorded() {
    // s -Open(1)-> p -'a'-> q -Close(1)-> e
    let mut nfa = Nfa::new(Vec::new());
    let s = nfa.new_node();
    let p = nfa.new_node();
    let q = nfa.new_node();
    let e = nfa.new_node();
    nfa.add_group(&s, &p, &q, &e, 1).unwrap();
    nfa.add_transition_alpha(&p, &q, 'a').unwrap();
    let model = NfaModel::new(nfa, s, e);
    let ms = find("za", &model);
    assert_eq!(ms.len(), 1);
    assert_eq!((ms[0].start, ms[0].end), (1, 2));
    assert_eq!(ms[0].groups.len(), 1);
    assert_eq!(
        (ms[0].groups[0].num, ms[0].groups[0].start, ms[0].groups[0].end),
        (1, 1, 2)
    );
}

#[test]
fn test_unmatched_close_marker_not_recorded() {
    // a Close marker with no matching Open: the pattern still matches and
    // no group span is reported, without any panic
    let mut nfa = Nfa::new(Vec::new());
    let s = nfa.new_node();
    let m = nfa.new_node();
    let e = nfa.new_node();
    nfa.add_transition_alpha(&s, &m, 'a').unwrap();
    nfa.add_transition(&m, codemod::nfa::Transition::new(
        codemod::nfa::TransitionType::Close(1),
        e,
    ))
    .unwrap();
    let model = NfaModel::new(nfa, s, e);
    let ms = find("a", &model);
    assert_eq!(ms.len(), 1);
    assert_eq!((ms[0].start, ms[0].end), (0, 1));
    assert_eq!(ms[0].groups.len(), 0);
}

#[test]
fn test_replace_spans_skips_overlap() {
    let spans: Vec<(usize, usize)> = vec![(0, 2), (1, 3), (3, 4)];
    let out = replace_spans("abcd", &spans, "Z");
    assert_eq!(out, "ZcZ");
}

#[test]
fn test_replace_textual() {
    let model = literal_pattern("ab");
    let out = replace("xxabyab", &model, "Z", |_m: &String, _c: &Option<String>| true);
    assert_eq!(out, "xxZyZ");
}

#[test]
fn test_replace_rejected_matches_kept() {
    let model = literal_pattern("ab");
    let out = replace("xxabyab", &model, "Z", |_m: &String, _c: &Option<String>| false);
    assert_eq!(out, "xxabyab");
}

#[test]
fn test_semantic_replace_idempotent() {
    // replacing every identifier of type Session with a fixed name is
    // idempotent: a second run over the output changes nothing
    let text = "Session me;me;{me;}other x;me;";
    let clike = Clike {};
    let ids = clike.read_identifiers(text);
    let once = replace_semantic(
        text,
        &ids,
        "Session",
        "sess",
        |_m: &String, _c: &Option<String>| true,
    );
    assert_eq!(once, "Session sess;sess;{sess;}other x;sess;");
    let ids2 = clike.read_identifiers(&once);
    let twice = replace_semantic(
        &once,
        &ids2,
        "Session",
        "sess",
        |_m: &String, _c: &Option<String>| true,
    );
    assert_eq!(twice, once);
}
