//! The match driver: scans text left to right through one compiled
//! pattern, recording leftmost non-overlapping match spans together with
//! the capture-group offsets observed along the way.
//!
//! The driver's simulation closes active sets over capture markers as well
//! as epsilon edges, so marked patterns stay traversable; a marker fires at
//! a text offset exactly when some node of the closed active set carries
//! it.  The first firing of each numbered marker is recorded; a group is
//! reported only when its opening offset does not exceed its closing one,
//! so a `Close` marker without a matching earlier `Open` is never
//! reported.

use vstd::prelude::*;
use vstd::string::StrSliceExecFns;

use crate::dfa::lemma_canonical_unique;
use crate::nfa::{
    copy_ptrs, insert_sorted, ptr_vec_has, sorted_strict, step_core, step_once, zw_closure, Nfa,
    NfaModel, NodePointer, TransitionType,
};

verus! {

/// One recorded capture-group span.
#[derive(Debug, Clone, Copy, PartialEq, Eq, Structural)]
pub struct GroupSpan {
    pub num: u32,
    pub start: usize,
    pub end: usize,
}

/// One recorded match: its span and its capture-group spans.
#[derive(Debug, Clone, PartialEq, Eq)]
pub struct Match {
    pub start: usize,
    pub end: usize,
    pub groups: Vec<GroupSpan>,
}

/// The mathematical view of one match.
pub struct MatchView {
    pub start: int,
    pub end: int,
    pub groups: Seq<(u32, int, int)>,
}

/// One driver step: consume `c`, then close over epsilon edges and
/// capture markers.
pub open spec fn gstep(nfa: Nfa, s: Set<NodePointer>, c: char) -> Set<NodePointer> {
    zw_closure(nfa, step_once(nfa, s, c), true)
}

/// Where every attempt begins: the marker-closure of the start node.
pub open spec fn start_ctx(m: NfaModel) -> Set<NodePointer> {
    zw_closure(m.nfa, Set::empty().insert(m.start), true)
}

/// The canonical (strictly sorted) sequence of a pointer set.
pub open spec fn sorted_of(s: Set<NodePointer>) -> Seq<NodePointer> {
    choose|q: Seq<NodePointer>| sorted_strict(q) && q.to_set() == s
}

/// A strictly sorted vector is the canonical sequence of its own set.
pub(crate) proof fn lemma_sorted_of(v: Seq<NodePointer>)
    requires
        sorted_strict(v),
    ensures
        sorted_of(v.to_set()) == v,
{
    let s = v.to_set();
    assert(sorted_strict(v) && v.to_set() == s);
    let q = sorted_of(s);
    assert(sorted_strict(q) && q.to_set() == s);
    lemma_canonical_unique(q, v);
}

/// The marker numbers on node `p` among its first `j` transitions, in
/// order; opening markers when `open` is set, closing ones otherwise.
pub open spec fn node_markers(nfa: Nfa, p: NodePointer, j: int, open: bool) -> Seq<u32>
    decreases j,
{
    if j <= 0 || !nfa.valid_ptr(p) {
        Seq::empty()
    } else {
        node_markers(nfa, p, j - 1, open) + (match nfa.trans(p.id as int)[j - 1].kind {
            TransitionType::Open(g) => if open {
                seq![g]
            } else {
                Seq::empty()
            },
            TransitionType::Close(g) => if open {
                Seq::empty()
            } else {
                seq![g]
            },
            _ => Seq::empty(),
        })
    }
}

/// The marker numbers carried by the first `k` pointers of `ptrs`, in
/// order.
pub open spec fn ptrs_markers(nfa: Nfa, ptrs: Seq<NodePointer>, k: int, open: bool) -> Seq<u32>
    decreases k,
{
    if k <= 0 {
        Seq::empty()
    } else {
        ptrs_markers(nfa, ptrs, k - 1, open) + node_markers(
            nfa,
            ptrs[k - 1],
            if nfa.valid_ptr(ptrs[k - 1]) {
                nfa.trans(ptrs[k - 1].id as int).len() as int
            } else {
                0
            },
            open,
        )
    }
}

/// Whether the association list holds an entry for `g`.
pub open spec fn assoc_has(s: Seq<(u32, int)>, g: u32) -> bool {
    exists|k: int| 0 <= k < s.len() && (#[trigger] s[k]).0 == g
}

/// The first recorded offset for `g`.
pub open spec fn assoc_get(s: Seq<(u32, int)>, g: u32) -> Option<int>
    decreases s.len(),
{
    if s.len() == 0 {
        None
    } else if s[0].0 == g {
        Some(s[0].1)
    } else {
        assoc_get(s.drop_first(), g)
    }
}

/// Records offset `off` for every marker of `ids` (from index `k` on) not
/// yet recorded: the first firing of each marker wins.
pub open spec fn merge_firsts(acc: Seq<(u32, int)>, ids: Seq<u32>, off: int, k: int) -> Seq<
    (u32, int),
>
    decreases ids.len() - k,
{
    if k >= ids.len() || k < 0 {
        acc
    } else {
        let acc2 = if assoc_has(acc, ids[k]) {
            acc
        } else {
            acc.push((ids[k], off))
        };
        merge_firsts(acc2, ids, off, k + 1)
    }
}

/// All markers fired by an active set at offset `off`, merged into `acc`.
pub open spec fn fire(
    nfa: Nfa,
    ctx: Set<NodePointer>,
    acc: Seq<(u32, int)>,
    off: int,
    open: bool,
) -> Seq<(u32, int)> {
    let s = sorted_of(ctx);
    merge_firsts(acc, ptrs_markers(nfa, s, s.len() as int, open), off, 0)
}

/// What one attempt returns: the end offset of the first acceptance, if
/// any, and the first-firing offsets of the opening and closing markers.
pub struct AttemptOut {
    pub end: Option<int>,
    pub opens: Seq<(u32, int)>,
    pub closes: Seq<(u32, int)>,
}

/// One attempt from position `i` with active set `ctx`: step, fire the
/// markers of the stepped set, and accept as soon as the designated
/// accepting node becomes active.
pub open spec fn attempt_rec(
    m: NfaModel,
    text: Seq<char>,
    ctx: Set<NodePointer>,
    i: int,
    opens: Seq<(u32, int)>,
    closes: Seq<(u32, int)>,
) -> AttemptOut
    decreases text.len() - i,
{
    if i >= text.len() {
        AttemptOut { end: None, opens, closes }
    } else {
        let ctx2 = gstep(m.nfa, ctx, text[i]);
        let opens2 = fire(m.nfa, ctx2, opens, i + 1, true);
        let closes2 = fire(m.nfa, ctx2, closes, i + 1, false);
        if ctx2.contains(m.end) {
            AttemptOut { end: Some(i + 1), opens: opens2, closes: closes2 }
        } else {
            attempt_rec(m, text, ctx2, i + 1, opens2, closes2)
        }
    }
}

/// The attempt beginning at `pos`: the start closure fires its markers at
/// `pos` itself, before any character is consumed.
pub open spec fn attempt_at(m: NfaModel, text: Seq<char>, pos: int) -> AttemptOut {
    let ctx0 = start_ctx(m);
    let opens0 = fire(m.nfa, ctx0, Seq::empty(), pos, true);
    let closes0 = fire(m.nfa, ctx0, Seq::empty(), pos, false);
    attempt_rec(m, text, ctx0, pos, opens0, closes0)
}

/// The reported groups: every opened marker whose closing offset was also
/// recorded, no earlier than the opening one.
pub open spec fn groups_of(opens: Seq<(u32, int)>, closes: Seq<(u32, int)>, k: int) -> Seq<
    (u32, int, int),
>
    decreases opens.len() - k,
{
    if k >= opens.len() || k < 0 {
        Seq::empty()
    } else {
        let g = opens[k].0;
        let o = opens[k].1;
        let rest = groups_of(opens, closes, k + 1);
        match assoc_get(closes, g) {
            Some(c) => if o <= c {
                seq![(g, o, c)] + rest
            } else {
                rest
            },
            None => rest,
        }
    }
}

/// An attempt ends strictly after where it began, inside the text.
pub(crate) proof fn lemma_attempt_range(
    m: NfaModel,
    text: Seq<char>,
    ctx: Set<NodePointer>,
    i: int,
    opens: Seq<(u32, int)>,
    closes: Seq<(u32, int)>,
)
    ensures
        attempt_rec(m, text, ctx, i, opens, closes).end matches Some(e) ==> i < e <= text.len(),
    decreases text.len() - i,
{
    if i < text.len() {
        let ctx2 = gstep(m.nfa, ctx, text[i]);
        if !ctx2.contains(m.end) {
            lemma_attempt_range(
                m,
                text,
                ctx2,
                i + 1,
                fire(m.nfa, ctx2, opens, i + 1, true),
                fire(m.nfa, ctx2, closes, i + 1, false),
            );
        }
    }
}

/// All matches from `pos` on: leftmost and non-overlapping.  A match
/// records the span from where its attempt began to the first acceptance,
/// with the groups observed; scanning resumes immediately after it.  A
/// position where no match begins advances by one character.
pub open spec fn find_all(m: NfaModel, text: Seq<char>, pos: int) -> Seq<MatchView>
    decreases text.len() - pos,
        via find_all_dec
{
    if pos >= text.len() {
        Seq::empty()
    } else {
        let a = attempt_at(m, text, pos);
        match a.end {
            Some(e) => seq![
                MatchView { start: pos, end: e, groups: groups_of(a.opens, a.closes, 0) },
            ] + find_all(m, text, e),
            None => find_all(m, text, pos + 1),
        }
    }
}

#[via_fn]
proof fn find_all_dec(m: NfaModel, text: Seq<char>, pos: int) {
    if pos < text.len() {
        let ctx0 = start_ctx(m);
        lemma_attempt_range(
            m,
            text,
            ctx0,
            pos,
            fire(m.nfa, ctx0, Seq::empty(), pos, true),
            fire(m.nfa, ctx0, Seq::empty(), pos, false),
        );
    }
}

/// The reported match mirrors its view.
pub open spec fn match_matches(e: Match, v: MatchView) -> bool {
    &&& e.start as int == v.start
    &&& e.end as int == v.end
    &&& e.groups@.len() == v.groups.len()
    &&& forall|k: int|
        0 <= k < v.groups.len() ==> {
            let g = #[trigger] e.groups@[k];
            g.num == v.groups[k].0 && g.start as int == v.groups[k].1 && g.end as int
                == v.groups[k].2
        }
}

/// Collects the markers of the given kind carried by `ptrs`, in order.
#[verifier::loop_isolation(false)]
fn collect_markers(nfa: &Nfa, ptrs: &Vec<NodePointer>, open: bool) -> (r: Vec<u32>)
    ensures
        r@ == ptrs_markers(*nfa, ptrs@, ptrs@.len() as int, open),
{
    let mut r: Vec<u32> = Vec::new();
    let mut k: usize = 0;
    while k < ptrs.len()
        invariant
            k <= ptrs@.len(),
            r@ == ptrs_markers(*nfa, ptrs@, k as int, open),
        decreases ptrs@.len() - k,
    {
        let p = ptrs[k];
        if p.id < nfa.nodes.len() {
            let tn = nfa.nodes[p.id].transitions.len();
            let mut j: usize = 0;
            while j < tn
                invariant
                    p.id < nfa.nodes@.len(),
                    j <= tn,
                    tn == nfa.trans(p.id as int).len(),
                    r@ == ptrs_markers(*nfa, ptrs@, k as int, open) + node_markers(
                        *nfa,
                        p,
                        j as int,
                        open,
                    ),
                decreases tn - j,
            {
                match &nfa.nodes[p.id].transitions[j].kind {
                    TransitionType::Open(g) => if open {
                        r.push(*g);
                    },
                    TransitionType::Close(g) => if !open {
                        r.push(*g);
                    },
                    _ => {},
                }
                j = j + 1;
                proof {
                    assert(r@ =~= ptrs_markers(*nfa, ptrs@, k as int, open) + node_markers(
                        *nfa,
                        p,
                        j as int,
                        open,
                    ));
                }
            }
        }
        k = k + 1;
        proof {
            assert(ptrs_markers(*nfa, ptrs@, k as int, open) =~= ptrs_markers(
                *nfa,
                ptrs@,
                k - 1,
                open,
            ) + node_markers(
                *nfa,
                ptrs@[k - 1],
                if nfa.valid_ptr(ptrs@[k - 1]) {
                    nfa.trans(ptrs@[k - 1].id as int).len() as int
                } else {
                    0
                },
                open,
            ));
            assert(r@ =~= ptrs_markers(*nfa, ptrs@, k as int, open));
        }
    }
    r
}

/// Whether an offset is already recorded for `g`.
fn assoc_has_exec(acc: &Vec<(u32, usize)>, g: u32) -> (r: bool)
    ensures
        r == assoc_has(acc@.map_values(|p: (u32, usize)| (p.0, p.1 as int)), g),
{
    let ghost av = acc@.map_values(|p: (u32, usize)| (p.0, p.1 as int));
    let mut k: usize = 0;
    while k < acc.len()
        invariant
            k <= acc@.len(),
            av == acc@.map_values(|p: (u32, usize)| (p.0, p.1 as int)),
            av.len() == acc@.len(),
            forall|i: int| 0 <= i < k ==> (#[trigger] av[i]).0 != g,
        decreases acc@.len() - k,
    {
        if acc[k].0 == g {
            proof {
                assert(av[k as int].0 == g);
            }
            return true;
        }
        k = k + 1;
    }
    proof {
        if assoc_has(av, g) {
            let i = choose|i: int| 0 <= i < av.len() && av[i].0 == g;
            assert(false);
        }
    }
    false
}

/// Merges newly fired markers into the record, first firing winning.
#[verifier::loop_isolation(false)]
fn merge_exec(acc: &mut Vec<(u32, usize)>, ids: &Vec<u32>, off: usize)
    ensures
        final(acc)@.map_values(|p: (u32, usize)| (p.0, p.1 as int)) == merge_firsts(
            old(acc)@.map_values(|p: (u32, usize)| (p.0, p.1 as int)),
            ids@,
            off as int,
            0,
        ),
{
    let ghost acc0 = acc@.map_values(|p: (u32, usize)| (p.0, p.1 as int));
    let mut k: usize = 0;
    while k < ids.len()
        invariant
            k <= ids@.len(),
            merge_firsts(
                acc@.map_values(|p: (u32, usize)| (p.0, p.1 as int)),
                ids@,
                off as int,
                k as int,
            ) == merge_firsts(acc0, ids@, off as int, 0),
        decreases ids@.len() - k,
    {
        let g = ids[k];
        if !assoc_has_exec(acc, g) {
            let ghost before = acc@.map_values(|p: (u32, usize)| (p.0, p.1 as int));
            acc.push((g, off));
            proof {
                assert(acc@.map_values(|p: (u32, usize)| (p.0, p.1 as int)) =~= before.push(
                    (g, off as int),
                ));
            }
        }
        k = k + 1;
    }
}

/// The first recorded offset for `g`, if any.
fn assoc_get_exec(acc: &Vec<(u32, usize)>, g: u32) -> (r: Option<usize>)
    ensures
        match r {
            Some(c) => assoc_get(acc@.map_values(|p: (u32, usize)| (p.0, p.1 as int)), g) == Some(
                c as int,
            ),
            None => assoc_get(acc@.map_values(|p: (u32, usize)| (p.0, p.1 as int)), g) is None,
        },
{
    let ghost av = acc@.map_values(|p: (u32, usize)| (p.0, p.1 as int));
    proof {
        assert(av.skip(0) =~= av);
    }
    let mut k: usize = 0;
    while k < acc.len()
        invariant
            k <= acc@.len(),
            av == acc@.map_values(|p: (u32, usize)| (p.0, p.1 as int)),
            av.len() == acc@.len(),
            assoc_get(av, g) == assoc_get(av.skip(k as int), g),
        decreases acc@.len() - k,
    {
        proof {
            assert(av.skip(k as int).len() == av.len() - k);
            assert(av.skip(k as int)[0] == av[k as int]);
        }
        if acc[k].0 == g {
            return Some(acc[k].1);
        }
        k = k + 1;
        proof {
            assert(av.skip(k - 1).drop_first() =~= av.skip(k as int));
        }
    }
    proof {
        assert(av.skip(k as int).len() == 0);
    }
    None
}

/// Builds the reported group spans from the recorded firings.
#[verifier::loop_isolation(false)]
fn groups_exec(opens: &Vec<(u32, usize)>, closes: &Vec<(u32, usize)>) -> (r: Vec<GroupSpan>)
    ensures
        ({
            let gv = groups_of(
                opens@.map_values(|p: (u32, usize)| (p.0, p.1 as int)),
                closes@.map_values(|p: (u32, usize)| (p.0, p.1 as int)),
                0,
            );
            r@.len() == gv.len() && forall|k: int|
                0 <= k < gv.len() ==> {
                    let g = #[trigger] r@[k];
                    g.num == gv[k].0 && g.start as int == gv[k].1 && g.end as int == gv[k].2
                }
        }),
{
    let ghost ov = opens@.map_values(|p: (u32, usize)| (p.0, p.1 as int));
    let ghost cv = closes@.map_values(|p: (u32, usize)| (p.0, p.1 as int));
    let mut r: Vec<GroupSpan> = Vec::new();
    let mut k: usize = 0;
    while k < opens.len()
        invariant
            k <= opens@.len(),
            ov.len() == opens@.len(),
            groups_of(ov, cv, 0) == r@.map_values(
                |g: GroupSpan| (g.num, g.start as int, g.end as int),
            ) + groups_of(ov, cv, k as int),
        decreases opens@.len() - k,
    {
        let g = opens[k].0;
        let o = opens[k].1;
        let ghost rv_before = r@.map_values(|g: GroupSpan| (g.num, g.start as int, g.end as int));
        match assoc_get_exec(closes, g) {
            Some(c) => {
                if o <= c {
                    r.push(GroupSpan { num: g, start: o, end: c });
                    proof {
                        assert(r@.map_values(
                            |g: GroupSpan| (g.num, g.start as int, g.end as int),
                        ) =~= rv_before.push((g, o as int, c as int)));
                        assert(groups_of(ov, cv, k as int) =~= seq![(g, o as int, c as int)]
                            + groups_of(ov, cv, k + 1));
                    }
                }
            },
            None => {},
        }
        k = k + 1;
        proof {
            assert(groups_of(ov, cv, 0) =~= r@.map_values(
                |g: GroupSpan| (g.num, g.start as int, g.end as int),
            ) + groups_of(ov, cv, k as int));
        }
    }
    proof {
        let rv = r@.map_values(|g: GroupSpan| (g.num, g.start as int, g.end as int));
        assert(groups_of(ov, cv, 0) =~= rv + groups_of(ov, cv, opens@.len() as int));
        assert(groups_of(ov, cv, 0) =~= rv);
        assert forall|j: int| 0 <= j < rv.len() implies rv[j] == groups_of(ov, cv, 0)[j] by {}
    }
    r
}

/// Scans `text` left to right and returns every leftmost non-overlapping
/// match of the compiled pattern, in increasing offset order, each with
/// the capture-group spans observed during its attempt.
#[verifier::loop_isolation(false)]
#[verifier::rlimit(100)]
pub fn find(text: &str, model: &NfaModel) -> (r: Vec<Match>)
    ensures
        r@.len() == find_all(*model, text@, 0).len(),
        forall|k: int|
            0 <= k < r@.len() ==> match_matches(#[trigger] r@[k], find_all(*model, text@, 0)[k]),
{
    let n = text.unicode_len();
    let mut sv: Vec<NodePointer> = Vec::new();
    insert_sorted(&mut sv, model.start);
    let base = crate::nfa::closure_core(&model.nfa, &sv, true);
    proof {
        assert(sv@.to_set() =~= Set::empty().insert(model.start)) by {
            assert(sv@.contains(model.start));
            assert forall|q: NodePointer| #[trigger] sv@.contains(q) implies q == model.start by {}
        }
        assert(base@.to_set() == start_ctx(*model));
        lemma_sorted_of(base@);
    }
    let mut out: Vec<Match> = Vec::new();
    let ghost all = find_all(*model, text@, 0);
    let mut pos: usize = 0;
    while pos < n
        invariant
            n == text@.len(),
            pos <= n,
            sorted_strict(base@),
            base@.to_set() == start_ctx(*model),
            out@.len() <= all.len(),
            all == out@.map_values(
                |e: Match|
                    MatchView {
                        start: e.start as int,
                        end: e.end as int,
                        groups: e.groups@.map_values(
                            |g: GroupSpan| (g.num, g.start as int, g.end as int),
                        ),
                    },
            ) + find_all(*model, text@, pos as int),
            forall|k: int| 0 <= k < out@.len() ==> match_matches(#[trigger] out@[k], all[k]),
        decreases n - pos,
    {
        // one attempt from `pos`
        let mut ctx = copy_ptrs(&base);
        let mut opens: Vec<(u32, usize)> = Vec::new();
        let mut closes: Vec<(u32, usize)> = Vec::new();
        let news_o = collect_markers(&model.nfa, &ctx, true);
        let news_c = collect_markers(&model.nfa, &ctx, false);
        merge_exec(&mut opens, &news_o, pos);
        merge_exec(&mut closes, &news_c, pos);
        let ghost a = attempt_at(*model, text@, pos as int);
        proof {
            assert(opens@.map_values(|p: (u32, usize)| (p.0, p.1 as int)) == fire(
                model.nfa,
                start_ctx(*model),
                Seq::empty(),
                pos as int,
                true,
            )) by {
                assert(Seq::<(u32, usize)>::empty().map_values(
                    |p: (u32, usize)| (p.0, p.1 as int),
                ) =~= Seq::<(u32, int)>::empty());
            }
            assert(closes@.map_values(|p: (u32, usize)| (p.0, p.1 as int)) == fire(
                model.nfa,
                start_ctx(*model),
                Seq::empty(),
                pos as int,
                false,
            )) by {
                assert(Seq::<(u32, usize)>::empty().map_values(
                    |p: (u32, usize)| (p.0, p.1 as int),
                ) =~= Seq::<(u32, int)>::empty());
            }
        }
        let mut i: usize = pos;
        let mut endr: Option<usize> = None;
        while i < n && endr.is_none()
            invariant
                n == text@.len(),
                pos <= i <= n,
                sorted_strict(ctx@),
                a == attempt_at(*model, text@, pos as int),
                match endr {
                    Some(e) => a.end == Some(e as int) && pos < e <= n && a.opens == opens@
                        .map_values(|p: (u32, usize)| (p.0, p.1 as int)) && a.closes == closes@
                        .map_values(|p: (u32, usize)| (p.0, p.1 as int)),
                    None => a == attempt_rec(
                        *model,
                        text@,
                        ctx@.to_set(),
                        i as int,
                        opens@.map_values(|p: (u32, usize)| (p.0, p.1 as int)),
                        closes@.map_values(|p: (u32, usize)| (p.0, p.1 as int)),
                    ),
                },
            decreases n - i,
        {
            let c = text.get_char(i);
            let ctx2 = step_core(&model.nfa, &ctx, c, true);
            proof {
                lemma_sorted_of(ctx2@);
            }
            let news_o2 = collect_markers(&model.nfa, &ctx2, true);
            let news_c2 = collect_markers(&model.nfa, &ctx2, false);
            merge_exec(&mut opens, &news_o2, i + 1);
            merge_exec(&mut closes, &news_c2, i + 1);
            ctx = ctx2;
            if ptr_vec_has(&ctx, model.end) {
                endr = Some(i + 1);
            }
            i = i + 1;
        }
        proof {
            if endr is None {
                assert(i == n);
                assert(attempt_rec(
                    *model,
                    text@,
                    ctx@.to_set(),
                    i as int,
                    opens@.map_values(|p: (u32, usize)| (p.0, p.1 as int)),
                    closes@.map_values(|p: (u32, usize)| (p.0, p.1 as int)),
                ).end is None);
                assert(a.end is None);
            }
        }
        match endr {
            Some(e) => {
                let groups = groups_exec(&opens, &closes);
                let ghost rv_before = out@.map_values(
                    |e2: Match|
                        MatchView {
                            start: e2.start as int,
                            end: e2.end as int,
                            groups: e2.groups@.map_values(
                                |g: GroupSpan| (g.num, g.start as int, g.end as int),
                            ),
                        },
                );
                out.push(Match { start: pos, end: e, groups });
                pos = e;
                proof {
                    let mv = MatchView {
                        start: out@.last().start as int,
                        end: out@.last().end as int,
                        groups: out@.last().groups@.map_values(
                            |g: GroupSpan| (g.num, g.start as int, g.end as int),
                        ),
                    };
                    assert(out@.map_values(
                        |e2: Match|
                            MatchView {
                                start: e2.start as int,
                                end: e2.end as int,
                                groups: e2.groups@.map_values(
                                    |g: GroupSpan| (g.num, g.start as int, g.end as int),
                                ),
                            },
                    ) =~= rv_before.push(mv));
                    assert(mv.groups =~= groups_of(a.opens, a.closes, 0));
                    assert(find_all(*model, text@, (out@.last().start) as int) == seq![
                        MatchView {
                            start: out@.last().start as int,
                            end: out@.last().end as int,
                            groups: groups_of(a.opens, a.closes, 0),
                        },
                    ] + find_all(*model, text@, pos as int));
                    assert(mv == MatchView {
                        start: out@.last().start as int,
                        end: out@.last().end as int,
                        groups: groups_of(a.opens, a.closes, 0),
                    });
                    assert(all =~= rv_before.push(mv) + find_all(*model, text@, pos as int));
                    assert(match_matches(out@.last(), mv));
                }
            },
            None => {
                proof {
                    assert(find_all(*model, text@, pos as int) == find_all(
                        *model,
                        text@,
                        pos + 1,
                    ));
                }
                pos = pos + 1;
            },
        }
    }
    proof {
        assert(find_all(*model, text@, pos as int) =~= Seq::<MatchView>::empty());
        assert(all =~= out@.map_values(
            |e: Match|
                MatchView {
                    start: e.start as int,
                    end: e.end as int,
                    groups: e.groups@.map_values(
                        |g: GroupSpan| (g.num, g.start as int, g.end as int),
                    ),
                },
        ));
    }
    out
}

} // verus!
