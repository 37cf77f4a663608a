//! Deterministic-state compilation: subset construction flattens a
//! nondeterministic automaton into an equivalent form built from the same
//! primitives, in which every distinct canonical (epsilon-closed, sorted)
//! node-set is interned exactly once.

use vstd::prelude::*;
use vstd::seq_lib::*;
use vstd::set_lib::lemma_len_subset;

use crate::nfa::Context;
use crate::nfa::{
    copy_ptrs, dests_up_to, eps_closure, lemma_dest_in_dests, lemma_push_contains,
    lemma_reach_base, ptr_vec_has, sorted_strict, zw_edge, zw_path, Nfa, NfaError, NfaModel,
    NodePointer, Transition, TransitionType,
};

verus! {

/// Every transition destination lies inside the arena.
pub open spec fn arena_closed(nfa: Nfa) -> bool {
    forall|i: int, j: int|
        0 <= i < nfa.nodes@.len() && 0 <= j < nfa.trans(i).len() ==> nfa.valid_ptr(
            #[trigger] nfa.trans(i)[j].dest,
        )
}

/// Transition `j` of node `i` of the determinized automaton `d` is
/// justified: it is not an epsilon edge, it copies the tag of a source
/// transition leaving some member of `den[i]`, and its destination denotes
/// the epsilon-closure of that source transition's destination.
pub open spec fn trans_sound(src: Nfa, d: Nfa, den: Seq<Set<NodePointer>>, i: int, j: int) -> bool {
    let t = d.trans(i)[j];
    &&& !(t.kind is Epsilon)
    &&& t.dest.id < den.len()
    &&& exists|p: NodePointer, jj: int|
        den[i].contains(p) && src.valid_ptr(p) && 0 <= jj < src.trans(p.id as int).len()
            && #[trigger] src.trans(p.id as int)[jj].kind == t.kind && den[t.dest.id as int]
            == eps_closure(src, Set::empty().insert(src.trans(p.id as int)[jj].dest))
}

/// The non-epsilon source transition `j` out of member `p` of `den[i]` is
/// represented on node `i` of the determinized automaton: some transition
/// there carries the same tag and leads to the node denoting the
/// epsilon-closure of the source destination.
pub open spec fn trans_complete(
    src: Nfa,
    d: Nfa,
    den: Seq<Set<NodePointer>>,
    i: int,
    p: NodePointer,
    j: int,
) -> bool {
    exists|jd: int|
        0 <= jd < d.trans(i).len() && #[trigger] d.trans(i)[jd].kind == src.trans(p.id as int)[j].kind
            && d.trans(i)[jd].dest.id < den.len() && den[d.trans(i)[jd].dest.id as int]
            == eps_closure(src, Set::empty().insert(src.trans(p.id as int)[j].dest))
}

/// Transition `jd` of node `i` is an accepting marker: a zero-width edge
/// into the result's accepting node.
pub open spec fn accept_edge_at(d: Nfa, i: int, jd: int) -> bool {
    d.trans(i)[jd].kind is Epsilon && d.trans(i)[jd].dest.id == 1
}

/// Every transition of the determinized automaton is accounted for: an
/// epsilon edge is an accepting marker, present only on a node whose
/// denotation holds the source accepting node, and anything else is a
/// justified copy of a source transition.
pub open spec fn trans_ok(
    src: Nfa,
    src_end: NodePointer,
    d: Nfa,
    den: Seq<Set<NodePointer>>,
    i: int,
    j: int,
) -> bool {
    if d.trans(i)[j].kind is Epsilon {
        d.trans(i)[j].dest.id == 1 && den[i].contains(src_end)
    } else {
        trans_sound(src, d, den, i, j)
    }
}

/// `st` is the epsilon-closure of some source transition destination.
pub open spec fn closure_of_dest(src: Nfa, st: Set<NodePointer>) -> bool {
    exists|p: NodePointer, j: int|
        src.valid_ptr(p) && 0 <= j < src.trans(p.id as int).len() && st == eps_closure(
            src,
            Set::empty().insert(#[trigger] src.trans(p.id as int)[j].dest),
        )
}

/// Every denotation beyond the start and accepting nodes is the
/// epsilon-closure of some source transition destination.
pub open spec fn interned_closures(src: Nfa, den: Seq<Set<NodePointer>>) -> bool {
    forall|i: int| 2 <= i < den.len() ==> #[trigger] closure_of_dest(src, den[i])
}

/// The full correspondence between a source automaton (with start node
/// `src_start` and accepting node `src_end`) and its determinized form
/// `m`: `den` assigns every node of `m` the canonical source node-set it
/// stands for.  Denotations are pairwise distinct (the same canonical set
/// is never entered twice), the start node denotes the epsilon-closure of
/// the source start, every denotation beyond the start and accepting
/// nodes is the closure of some source transition destination, every
/// transition of `m` is an accepting marker or a justified copy of a
/// source transition, every non-epsilon source transition out of a
/// denoted member is represented, and acceptance is mapped: a node whose
/// denotation holds the source accepting node carries a zero-width edge
/// to the result's accepting node, and only such a node does.
pub open spec fn dfa_abstraction(
    src: Nfa,
    src_start: NodePointer,
    src_end: NodePointer,
    m: NfaModel,
    den: Seq<Set<NodePointer>>,
) -> bool {
    &&& den.len() == m.nfa.nodes@.len()
    &&& m.nfa.nodes@.len() >= 2
    &&& m.start.id == 0
    &&& m.end.id == 1
    &&& den[0] == eps_closure(src, Set::empty().insert(src_start))
    &&& den[1] == Set::<NodePointer>::empty()
    &&& m.nfa.trans(1).len() == 0
    &&& forall|i1: int, i2: int| 0 <= i1 < i2 < den.len() ==> den[i1] != den[i2]
    &&& interned_closures(src, den)
    &&& forall|i: int, j: int|
        #![trigger m.nfa.trans(i)[j]]
        0 <= i < den.len() && 0 <= j < m.nfa.trans(i).len() ==> trans_ok(
            src,
            src_end,
            m.nfa,
            den,
            i,
            j,
        )
    &&& forall|i: int, p: NodePointer, j: int|
        #![trigger den[i].contains(p), src.trans(p.id as int)[j]]
        0 <= i < den.len() && den[i].contains(p) && src.valid_ptr(p) && 0 <= j < src.trans(
            p.id as int,
        ).len() && !(src.trans(p.id as int)[j].kind is Epsilon) ==> trans_complete(
            src,
            m.nfa,
            den,
            i,
            p,
            j,
        )
    &&& forall|i: int|
        0 <= i < den.len() && #[trigger] den[i].contains(src_end) ==> exists|jd: int|
            0 <= jd < m.nfa.trans(i).len() && accept_edge_at(m.nfa, i, jd)
}

/// Some denotation witnesses the full correspondence between `src` and its
/// determinized form `m`.
pub open spec fn determinized(
    src: Nfa,
    src_start: NodePointer,
    src_end: NodePointer,
    m: NfaModel,
) -> bool {
    exists|den: Seq<Set<NodePointer>>| #[trigger] dfa_abstraction(src, src_start, src_end, m, den)
}

/// The pool every interned canonical set is drawn from: the closure of the
/// start node or of some transition destination.
pub open spec fn dfa_universe(src: Nfa, src_start: NodePointer) -> Seq<NodePointer> {
    seq![src_start] + dests_up_to(src, src.nodes@.len() as int)
}

/// Two strictly sorted pointer sequences holding the same set are equal:
/// sorting is a canonical form.
pub(crate) proof fn lemma_canonical_unique(a: Seq<NodePointer>, b: Seq<NodePointer>)
    requires
        sorted_strict(a),
        sorted_strict(b),
        a.to_set() == b.to_set(),
    ensures
        a == b,
    decreases a.len(),
{
    if a.len() == 0 {
        if b.len() > 0 {
            assert(b.to_set().contains(b[0]));
            assert(a.contains(b[0]));
            assert(false);
        }
        assert(a =~= b);
    } else if b.len() == 0 {
        assert(a.to_set().contains(a[0]));
        assert(b.contains(a[0]));
        assert(false);
    } else {
        assert(a.to_set().contains(a[0]));
        assert(b.contains(a[0]));
        let ia = choose|i: int| 0 <= i < b.len() && b[i] == a[0];
        if ia > 0 {
            assert(b[0].id < b[ia].id);
        }
        assert(b.to_set().contains(b[0]));
        assert(a.contains(b[0]));
        let ib = choose|i: int| 0 <= i < a.len() && a[i] == b[0];
        if ib > 0 {
            assert(a[0].id < a[ib].id);
        }
        assert(a[0] == b[0]);
        let a2 = a.drop_first();
        let b2 = b.drop_first();
        assert(sorted_strict(a2)) by {
            assert forall|i: int, j: int| 0 <= i < j < a2.len() implies a2[i].id < a2[j].id by {
                assert(a2[i] == a[i + 1] && a2[j] == a[j + 1]);
            }
        }
        assert(sorted_strict(b2)) by {
            assert forall|i: int, j: int| 0 <= i < j < b2.len() implies b2[i].id < b2[j].id by {
                assert(b2[i] == b[i + 1] && b2[j] == b[j + 1]);
            }
        }
        assert forall|q: NodePointer| #[trigger] a2.to_set().contains(q) implies b2.to_set()
            .contains(q) by {
            let i = choose|i: int| 0 <= i < a2.len() && a2[i] == q;
            assert(a[i + 1] == q);
            assert(q.id > a[0].id);
            assert(a.contains(q));
            assert(b.to_set().contains(q));
            assert(b.contains(q));
            let k = choose|k: int| 0 <= k < b.len() && b[k] == q;
            if k == 0 {
                assert(false);
            }
            assert(b2[k - 1] == q);
        }
        assert forall|q: NodePointer| #[trigger] b2.to_set().contains(q) implies a2.to_set()
            .contains(q) by {
            let i = choose|i: int| 0 <= i < b2.len() && b2[i] == q;
            assert(b[i + 1] == q);
            assert(q.id > b[0].id);
            assert(b.contains(q));
            assert(a.to_set().contains(q));
            assert(a.contains(q));
            let k = choose|k: int| 0 <= k < a.len() && a[k] == q;
            if k == 0 {
                assert(false);
            }
            assert(a2[k - 1] == q);
        }
        assert(a2.to_set() =~= b2.to_set());
        lemma_canonical_unique(a2, b2);
        assert(a2.len() == b2.len());
        assert(a.len() == b.len());
        assert forall|i: int| 0 <= i < a.len() implies a[i] == b[i] by {
            if i > 0 {
                assert(a2[i - 1] == b2[i - 1]);
                assert(a2[i - 1] == a[i]);
                assert(b2[i - 1] == b[i]);
            }
        }
        assert(a =~= b);
    }
}

/// Everything reachable from valid nodes stays valid in a closed arena.
proof fn lemma_closure_member_valid(nfa: Nfa, s: Set<NodePointer>, q: NodePointer)
    requires
        arena_closed(nfa),
        forall|p: NodePointer| s.contains(p) ==> nfa.valid_ptr(p),
        eps_closure(nfa, s).contains(q),
    ensures
        nfa.valid_ptr(q),
{
    let path = choose|path: Seq<NodePointer>|
        path.len() > 0 && s.contains(path[0]) && path.last() == q && #[trigger] zw_path(
            nfa,
            path,
            false,
        );
    if path.len() == 1 {
        assert(q == path[0]);
    } else {
        let i = path.len() - 2;
        assert(zw_edge(nfa, path[i], path[i + 1], false));
        let p = path[i];
        let j = choose|j: int|
            0 <= j < nfa.trans(p.id as int).len() && #[trigger] crate::nfa::zero_width(
                nfa.trans(p.id as int)[j].kind,
                false,
            ) && nfa.trans(p.id as int)[j].dest == path[i + 1];
        assert(nfa.valid_ptr(nfa.trans(p.id as int)[j].dest));
        assert(path[i + 1] == path.last());
    }
}

/// All recorded destinations are valid in a closed arena.
proof fn lemma_dests_valid(nfa: Nfa, n: int, q: NodePointer)
    requires
        arena_closed(nfa),
        n <= nfa.nodes@.len(),
        dests_up_to(nfa, n).contains(q),
    ensures
        nfa.valid_ptr(q),
    decreases n,
{
    if n <= 0 {
        assert(false);
    } else {
        let pre = dests_up_to(nfa, n - 1);
        let m = nfa.trans(n - 1).map_values(|t: Transition| t.dest);
        let i = choose|i: int| 0 <= i < (pre + m).len() && (pre + m)[i] == q;
        if i < pre.len() {
            assert(pre[i] == q);
            lemma_dests_valid(nfa, n - 1, q);
        } else {
            assert(m[i - pre.len()] == q);
            assert(q == nfa.trans(n - 1)[i - pre.len()].dest);
        }
    }
}

/// A recorded destination really is the destination of some transition.
proof fn lemma_dests_inv(nfa: Nfa, n: int, q: NodePointer)
    requires
        0 <= n <= nfa.nodes@.len(),
        dests_up_to(nfa, n).contains(q),
    ensures
        exists|p: NodePointer, j: int|
            nfa.valid_ptr(p) && 0 <= j < nfa.trans(p.id as int).len() && #[trigger] nfa.trans(
                p.id as int,
            )[j].dest == q,
    decreases n,
{
    if n <= 0 {
        assert(false);
    } else {
        let pre = dests_up_to(nfa, n - 1);
        let mm = nfa.trans(n - 1).map_values(|t: Transition| t.dest);
        let i = choose|i: int| 0 <= i < (pre + mm).len() && (pre + mm)[i] == q;
        if i < pre.len() {
            assert(pre[i] == q);
            lemma_dests_inv(nfa, n - 1, q);
        } else {
            broadcast use vstd::std_specs::vec::axiom_spec_len;

            assert(nfa.nodes.len() == nfa.nodes@.len());
            let p = NodePointer { id: (n - 1) as usize };
            assert(p.id as int == n - 1);
            let j = i - pre.len();
            assert(mm[j] == q);
            assert(nfa.trans(p.id as int)[j].dest == q);
        }
    }
}

/// A member of the interning pool is valid when the arena is closed and the
/// start node is valid.
proof fn lemma_universe_valid(src: Nfa, src_start: NodePointer, q: NodePointer)
    requires
        arena_closed(src),
        src.valid_ptr(src_start),
        dfa_universe(src, src_start).contains(q),
    ensures
        src.valid_ptr(q),
{
    let u = dfa_universe(src, src_start);
    let i = choose|i: int| 0 <= i < u.len() && u[i] == q;
    if i == 0 {
        assert(q == src_start);
    } else {
        assert(dests_up_to(src, src.nodes@.len() as int)[i - 1] == q);
        assert(dests_up_to(src, src.nodes@.len() as int).contains(q));
        lemma_dests_valid(src, src.nodes@.len() as int, q);
    }
}

/// A represented transition stays represented when the determinized
/// automaton only grows.
proof fn lemma_complete_preserved(
    src: Nfa,
    d1: Nfa,
    d2: Nfa,
    den1: Seq<Set<NodePointer>>,
    den2: Seq<Set<NodePointer>>,
    i: int,
    p: NodePointer,
    j: int,
)
    requires
        trans_complete(src, d1, den1, i, p, j),
        den2.len() >= den1.len(),
        forall|m: int| 0 <= m < den1.len() ==> den2[m] == den1[m],
        d2.trans(i).len() >= d1.trans(i).len(),
        forall|jd: int| 0 <= jd < d1.trans(i).len() ==> d2.trans(i)[jd] == d1.trans(i)[jd],
        0 <= i < den1.len(),
    ensures
        trans_complete(src, d2, den2, i, p, j),
{
    let jd = choose|jd: int|
        0 <= jd < d1.trans(i).len() && #[trigger] d1.trans(i)[jd].kind == src.trans(
            p.id as int,
        )[j].kind && d1.trans(i)[jd].dest.id < den1.len() && den1[d1.trans(i)[jd].dest.id as int]
            == eps_closure(src, Set::empty().insert(src.trans(p.id as int)[j].dest));
    assert(d2.trans(i)[jd] == d1.trans(i)[jd]);
}

/// A justified transition stays justified when the determinized automaton
/// only grows.
proof fn lemma_sound_preserved(
    src: Nfa,
    d1: Nfa,
    d2: Nfa,
    den1: Seq<Set<NodePointer>>,
    den2: Seq<Set<NodePointer>>,
    i: int,
    j: int,
)
    requires
        trans_sound(src, d1, den1, i, j),
        den2.len() >= den1.len(),
        forall|m: int| 0 <= m < den1.len() ==> den2[m] == den1[m],
        0 <= i < den1.len(),
        0 <= j < d1.trans(i).len(),
        d2.trans(i)[j] == d1.trans(i)[j],
    ensures
        trans_sound(src, d2, den2, i, j),
{
    let (p, jj): (NodePointer, int) = choose|p: NodePointer, jj: int|
        den1[i].contains(p) && src.valid_ptr(p) && 0 <= jj < src.trans(p.id as int).len()
            && #[trigger] src.trans(p.id as int)[jj].kind == d1.trans(i)[j].kind && den1[d1.trans(
            i,
        )[j].dest.id as int] == eps_closure(
            src,
            Set::empty().insert(src.trans(p.id as int)[jj].dest),
        );
    assert(den2[i] == den1[i]);
}

/// The bookkeeping carried through subset construction: `keys` are the
/// interned canonical sets, `vals` the result nodes standing for them,
/// `den` the denotation of every result node, and `wit` one source node
/// whose closure each key is.
spec fn build_inv(
    src: Nfa,
    src_start: NodePointer,
    src_end: NodePointer,
    dfa: Nfa,
    keys: Seq<Vec<NodePointer>>,
    vals: Seq<NodePointer>,
    stack: Seq<usize>,
    den: Seq<Set<NodePointer>>,
    wit: Seq<NodePointer>,
) -> bool {
    &&& dfa.nodes@.len() == keys.len() + 1
    &&& keys.len() == vals.len()
    &&& keys.len() == wit.len()
    &&& den.len() == dfa.nodes@.len()
    &&& keys.len() >= 1
    &&& dfa.trans(1).len() == 0
    &&& den[1] == Set::<NodePointer>::empty()
    &&& forall|i: int|
        0 <= i < vals.len() ==> (#[trigger] vals[i].id as int) == (if i == 0 {
            0int
        } else {
            i + 1
        })
    &&& forall|i: int| 0 <= i < keys.len() ==> sorted_strict(#[trigger] keys[i]@)
    &&& forall|i: int|
        #![trigger keys[i]]
        0 <= i < keys.len() ==> den[vals[i].id as int] == keys[i]@.to_set()
    &&& forall|i: int|
        #![trigger wit[i]]
        0 <= i < keys.len() ==> keys[i]@.to_set() == eps_closure(src, Set::empty().insert(wit[i]))
    &&& wit.no_duplicates()
    &&& wit[0] == src_start
    &&& den[0] == eps_closure(src, Set::empty().insert(src_start))
    &&& forall|q: NodePointer|
        #[trigger] wit.contains(q) ==> dfa_universe(src, src_start).contains(q)
    &&& forall|i: int|
        #![trigger wit[i]]
        1 <= i < wit.len() ==> dests_up_to(src, src.nodes@.len() as int).contains(wit[i])
    &&& forall|i: int| 0 <= i < stack.len() ==> (#[trigger] stack[i] as int) < keys.len()
    &&& forall|i: int, j: int|
        #![trigger dfa.trans(i)[j]]
        0 <= i < den.len() && 0 <= j < dfa.trans(i).len() ==> trans_ok(
            src,
            src_end,
            dfa,
            den,
            i,
            j,
        )
    &&& forall|i1: int, i2: int|
        0 <= i1 < i2 < keys.len() ==> #[trigger] keys[i1]@.to_set() != #[trigger] keys[i2]@.to_set()
}

/// Every interned set already taken off the worklist (`exempt` aside) has
/// all its members' non-epsilon transitions represented.
spec fn build_complete(
    src: Nfa,
    dfa: Nfa,
    keys: Seq<Vec<NodePointer>>,
    vals: Seq<NodePointer>,
    stack: Seq<usize>,
    den: Seq<Set<NodePointer>>,
    exempt: int,
) -> bool {
    forall|ki: int, p: NodePointer, j: int|
        #![trigger keys[ki]@.to_set().contains(p), src.trans(p.id as int)[j]]
        0 <= ki < keys.len() && !stack.contains(ki as usize) && ki != exempt && keys[ki]@.to_set()
            .contains(p) && src.valid_ptr(p) && 0 <= j < src.trans(p.id as int).len() && !(src.trans(
            p.id as int,
        )[j].kind is Epsilon) ==> trans_complete(src, dfa, den, vals[ki].id as int, p, j)
}

/// Every interned set already taken off the worklist (`exempt` aside) that
/// holds the source accepting node carries an accepting marker.
spec fn accept_done(
    src_end: NodePointer,
    dfa: Nfa,
    keys: Seq<Vec<NodePointer>>,
    vals: Seq<NodePointer>,
    stack: Seq<usize>,
    exempt: int,
) -> bool {
    forall|ki: int|
        #![trigger keys[ki]]
        0 <= ki < keys.len() && !stack.contains(ki as usize) && ki != exempt && keys[ki]@.to_set()
            .contains(src_end) ==> exists|jd: int|
            0 <= jd < dfa.trans(vals[ki].id as int).len() && #[trigger] accept_edge_at(
                dfa,
                vals[ki].id as int,
                jd,
            )
}

/// An accepting marker survives any growth of the automaton that keeps
/// the existing transitions of its node in place.
proof fn lemma_accept_edge_preserved(d1: Nfa, d2: Nfa, i: int)
    requires
        exists|jd: int| 0 <= jd < d1.trans(i).len() && #[trigger] accept_edge_at(d1, i, jd),
        d2.trans(i).len() >= d1.trans(i).len(),
        forall|jd: int| 0 <= jd < d1.trans(i).len() ==> d2.trans(i)[jd] == d1.trans(i)[jd],
    ensures
        exists|jd: int| 0 <= jd < d2.trans(i).len() && #[trigger] accept_edge_at(d2, i, jd),
{
    let jd = choose|jd: int| 0 <= jd < d1.trans(i).len() && accept_edge_at(d1, i, jd);
    assert(d2.trans(i)[jd] == d1.trans(i)[jd]);
    assert(accept_edge_at(d2, i, jd));
}

/// Copies a transition tag, preserving its value exactly.
fn clone_kind(k: &TransitionType) -> (r: TransitionType)
    ensures
        r == *k,
{
    match k {
        TransitionType::Epsilon => TransitionType::Epsilon,
        TransitionType::Alpha(c) => TransitionType::Alpha(*c),
        TransitionType::Range(s) => TransitionType::Range(s.clone()),
        TransitionType::NegativeRange(s) => TransitionType::NegativeRange(s.clone()),
        TransitionType::QuerySetRange(s) => TransitionType::QuerySetRange(s.clone()),
        TransitionType::Open(n) => TransitionType::Open(*n),
        TransitionType::Close(n) => TransitionType::Close(*n),
    }
}

/// Structural equality of two pointer vectors.
fn key_eq(a: &Vec<NodePointer>, b: &Vec<NodePointer>) -> (r: bool)
    ensures
        r == (a@ == b@),
{
    if a.len() != b.len() {
        return false;
    }
    let mut k: usize = 0;
    while k < a.len()
        invariant
            a@.len() == b@.len(),
            k <= a@.len(),
            forall|i: int| 0 <= i < k ==> a@[i] == b@[i],
        decreases a@.len() - k,
    {
        if a[k].id != b[k].id {
            proof {
                assert(a@[k as int] != b@[k as int]);
            }
            return false;
        }
        proof {
            assert(a@[k as int] == b@[k as int]);
        }
        k = k + 1;
    }
    proof {
        assert(a@ =~= b@);
    }
    true
}

/// Finds a recorded canonical set equal to `sup`.
fn find_key(keys: &Vec<Vec<NodePointer>>, sup: &Vec<NodePointer>) -> (r: Option<usize>)
    ensures
        r matches Some(i) ==> i < keys@.len() && keys@[i as int]@ == sup@,
        r is None ==> forall|i: int| 0 <= i < keys@.len() ==> keys@[i]@ != sup@,
{
    let mut k: usize = 0;
    while k < keys.len()
        invariant
            k <= keys@.len(),
            forall|i: int| 0 <= i < k ==> keys@[i]@ != sup@,
        decreases keys@.len() - k,
    {
        if key_eq(&keys[k], sup) {
            return Some(k);
        }
        k = k + 1;
    }
    None
}


/// Once the worklist is empty, the recorded bookkeeping yields the full
/// correspondence.
/// The recorded keys yield the interned-closure clause.
#[verifier::rlimit(100)]
#[verifier::spinoff_prover]
/// The closure of a recorded destination is the closure of a destination.
#[verifier::spinoff_prover]
proof fn lemma_closure_of_dest_from_wit(gsrc: Nfa, st: Set<NodePointer>, w: NodePointer)
    requires
        st == eps_closure(gsrc, Set::empty().insert(w)),
        dests_up_to(gsrc, gsrc.nodes@.len() as int).contains(w),
    ensures
        closure_of_dest(gsrc, st),
{
    lemma_dests_inv(gsrc, gsrc.nodes@.len() as int, w);
    let (p, j): (NodePointer, int) = choose|p: NodePointer, j: int|
        gsrc.valid_ptr(p) && 0 <= j < gsrc.trans(p.id as int).len() && #[trigger] gsrc.trans(
            p.id as int,
        )[j].dest == w;
    assert(st == eps_closure(gsrc, Set::empty().insert(gsrc.trans(p.id as int)[j].dest)));
    assert(closure_of_dest(gsrc, st));
}

#[verifier::spinoff_prover]
proof fn lemma_build_interned(
    gsrc: Nfa,
    keys: Seq<Vec<NodePointer>>,
    vals: Seq<NodePointer>,
    den: Seq<Set<NodePointer>>,
    wit: Seq<NodePointer>,
)
    requires
        keys.len() == vals.len(),
        keys.len() == wit.len(),
        den.len() == keys.len() + 1,
        forall|i: int|
            0 <= i < vals.len() ==> (#[trigger] vals[i].id as int) == (if i == 0 {
                0int
            } else {
                i + 1
            }),
        forall|i: int|
            #![trigger keys[i]]
            0 <= i < keys.len() ==> den[vals[i].id as int] == keys[i]@.to_set(),
        forall|i: int|
            #![trigger wit[i]]
            0 <= i < keys.len() ==> keys[i]@.to_set() == eps_closure(
                gsrc,
                Set::empty().insert(wit[i]),
            ),
        forall|i: int|
            #![trigger wit[i]]
            1 <= i < wit.len() ==> dests_up_to(gsrc, gsrc.nodes@.len() as int).contains(wit[i]),
    ensures
        interned_closures(gsrc, den),
{
    assert forall|i: int| 2 <= i < den.len() implies #[trigger] closure_of_dest(
        gsrc,
        den[i],
    ) by {
        let k: int = i - 1;
        assert(vals[k].id as int == i);
        assert(den[i] == keys[k]@.to_set());
        assert(keys[k]@.to_set() == eps_closure(gsrc, Set::empty().insert(wit[k])));
        assert(dests_up_to(gsrc, gsrc.nodes@.len() as int).contains(wit[k]));
        lemma_closure_of_dest_from_wit(gsrc, den[i], wit[k]);
    }
}

/// With the worklist drained, every denotation holding the source
/// accepting node has its marker.
#[verifier::spinoff_prover]
proof fn lemma_build_acceptance(
    gsrc_end: NodePointer,
    dfa: Nfa,
    keys: Seq<Vec<NodePointer>>,
    vals: Seq<NodePointer>,
    stack: Seq<usize>,
    den: Seq<Set<NodePointer>>,
)
    requires
        keys.len() == vals.len(),
        keys.len() >= 1,
        den.len() == keys.len() + 1,
        den[1] == Set::<NodePointer>::empty(),
        forall|i: int|
            0 <= i < vals.len() ==> (#[trigger] vals[i].id as int) == (if i == 0 {
                0int
            } else {
                i + 1
            }),
        forall|i: int|
            #![trigger keys[i]]
            0 <= i < keys.len() ==> den[vals[i].id as int] == keys[i]@.to_set(),
        accept_done(gsrc_end, dfa, keys, vals, stack, -1),
        stack.len() == 0,
    ensures
        forall|i: int|
            0 <= i < den.len() && #[trigger] den[i].contains(gsrc_end) ==> exists|jd: int|
                0 <= jd < dfa.trans(i).len() && accept_edge_at(dfa, i, jd),
{
    assert forall|i: int|
        0 <= i < den.len() && #[trigger] den[i].contains(gsrc_end) implies exists|jd: int|
        0 <= jd < dfa.trans(i).len() && accept_edge_at(dfa, i, jd) by {
        if i != 1 {
            let k: int = if i == 0 {
                0
            } else {
                i - 1
            };
            assert(vals[k].id as int == i);
            assert(den[i] == keys[k]@.to_set());
            assert(keys[k]@.to_set().contains(gsrc_end));
            assert(!stack.contains(k as usize));
        }
    }
}

/// The drained worklist leaves pairwise distinct denotations: interned
/// sets are distinct, and the accepting node's empty denotation differs
/// from every nonempty closure.
#[verifier::spinoff_prover]
proof fn lemma_build_distinct(
    gsrc: Nfa,
    keys: Seq<Vec<NodePointer>>,
    vals: Seq<NodePointer>,
    den: Seq<Set<NodePointer>>,
    wit: Seq<NodePointer>,
)
    requires
        keys.len() == vals.len(),
        keys.len() == wit.len(),
        keys.len() >= 1,
        den.len() == keys.len() + 1,
        den[1] == Set::<NodePointer>::empty(),
        forall|i: int|
            0 <= i < vals.len() ==> (#[trigger] vals[i].id as int) == (if i == 0 {
                0int
            } else {
                i + 1
            }),
        forall|i: int|
            #![trigger keys[i]]
            0 <= i < keys.len() ==> den[vals[i].id as int] == keys[i]@.to_set(),
        forall|i: int|
            #![trigger wit[i]]
            0 <= i < keys.len() ==> keys[i]@.to_set() == eps_closure(
                gsrc,
                Set::empty().insert(wit[i]),
            ),
        forall|i1: int, i2: int|
            0 <= i1 < i2 < keys.len() ==> #[trigger] keys[i1]@.to_set() != #[trigger] keys[i2]@.to_set(),
    ensures
        forall|i1: int, i2: int| 0 <= i1 < i2 < den.len() ==> den[i1] != den[i2],
{
    assert forall|i1: int, i2: int| 0 <= i1 < i2 < den.len() implies den[i1] != den[i2] by {
        let k1: int = if i1 == 0 {
            0
        } else {
            i1 - 1
        };
        let k2: int = if i2 == 0 {
            0
        } else {
            i2 - 1
        };
        if i2 == 1 {
            assert(vals[0].id as int == 0);
            assert(den[i1] == keys[0]@.to_set());
            assert(keys[0]@.to_set().contains(wit[0])) by {
                lemma_reach_base(gsrc, Set::empty().insert(wit[0]), wit[0], false);
            }
        } else if i1 == 1 {
            assert(vals[k2].id as int == i2);
            assert(den[i2] == keys[k2]@.to_set());
            assert(keys[k2]@.to_set().contains(wit[k2])) by {
                lemma_reach_base(gsrc, Set::empty().insert(wit[k2]), wit[k2], false);
            }
        } else {
            assert(vals[k1].id as int == i1);
            assert(vals[k2].id as int == i2);
            assert(den[i1] == keys[k1]@.to_set());
            assert(den[i2] == keys[k2]@.to_set());
        }
    }
}

/// With the worklist drained, every denoted non-epsilon source transition
/// is represented.
#[verifier::spinoff_prover]
proof fn lemma_build_represented(
    gsrc: Nfa,
    dfa: Nfa,
    keys: Seq<Vec<NodePointer>>,
    vals: Seq<NodePointer>,
    stack: Seq<usize>,
    den: Seq<Set<NodePointer>>,
)
    requires
        keys.len() == vals.len(),
        keys.len() >= 1,
        den.len() == keys.len() + 1,
        den[1] == Set::<NodePointer>::empty(),
        forall|i: int|
            0 <= i < vals.len() ==> (#[trigger] vals[i].id as int) == (if i == 0 {
                0int
            } else {
                i + 1
            }),
        forall|i: int|
            #![trigger keys[i]]
            0 <= i < keys.len() ==> den[vals[i].id as int] == keys[i]@.to_set(),
        build_complete(gsrc, dfa, keys, vals, stack, den, -1),
        stack.len() == 0,
    ensures
        forall|i: int, p: NodePointer, j: int|
            #![trigger den[i].contains(p), gsrc.trans(p.id as int)[j]]
            0 <= i < den.len() && den[i].contains(p) && gsrc.valid_ptr(p) && 0 <= j < gsrc.trans(
                p.id as int,
            ).len() && !(gsrc.trans(p.id as int)[j].kind is Epsilon) ==> trans_complete(
                gsrc,
                dfa,
                den,
                i,
                p,
                j,
            ),
{
    assert forall|i: int, p: NodePointer, j: int|
        #![trigger den[i].contains(p), gsrc.trans(p.id as int)[j]]
        0 <= i < den.len() && den[i].contains(p) && gsrc.valid_ptr(p) && 0 <= j < gsrc.trans(
            p.id as int,
        ).len() && !(gsrc.trans(p.id as int)[j].kind is Epsilon) implies trans_complete(
        gsrc,
        dfa,
        den,
        i,
        p,
        j,
    ) by {
        if i != 1 {
            let k2: int = if i == 0 {
                0
            } else {
                i - 1
            };
            assert(vals[k2].id as int == i);
            assert(keys[k2]@.to_set().contains(p));
            assert(!stack.contains(k2 as usize));
        }
    }
}

#[verifier::rlimit(100)]
#[verifier::spinoff_prover]
proof fn lemma_build_done(
    gsrc: Nfa,
    src_start: NodePointer,
    gsrc_end: NodePointer,
    dfa: Nfa,
    keys: Seq<Vec<NodePointer>>,
    vals: Seq<NodePointer>,
    stack: Seq<usize>,
    den: Seq<Set<NodePointer>>,
    wit: Seq<NodePointer>,
    m: NfaModel,
)
    requires
        build_inv(gsrc, src_start, gsrc_end, dfa, keys, vals, stack, den, wit),
        build_complete(gsrc, dfa, keys, vals, stack, den, -1),
        accept_done(gsrc_end, dfa, keys, vals, stack, -1),
        stack.len() == 0,
        m.nfa == dfa,
        m.start.id == 0,
        m.end.id == 1,
    ensures
        dfa_abstraction(gsrc, src_start, gsrc_end, m, den),
{
            lemma_build_interned(gsrc, keys, vals, den, wit);
            lemma_build_acceptance(gsrc_end, dfa, keys, vals, stack, den);
            lemma_build_distinct(gsrc, keys, vals, den, wit);
            lemma_build_represented(gsrc, dfa, keys, vals, stack, den);
            assert forall|i: int, j: int|
                #![trigger m.nfa.trans(i)[j]]
                0 <= i < den.len() && 0 <= j < m.nfa.trans(i).len() implies trans_ok(
                gsrc,
                gsrc_end,
                m.nfa,
                den,
                i,
                j,
            ) by {
                assert(trans_ok(gsrc, gsrc_end, dfa, den, i, j));
            }
            assert(dfa_abstraction(gsrc, src_start, gsrc_end, m, den));
        
}

impl NfaModel {

    /// Subset construction.  Starting from the epsilon-closure of the start
    /// node, every canonical closed node-set reachable across one
    /// non-epsilon transition becomes one node of the result, interned so
    /// the same set is never entered twice; each result transition copies
    /// the tag of the source transition that produced it.  Succeeds on
    /// every automaton whose transition destinations all lie inside the
    /// arena and whose start node is valid; a dangling pointer found during
    /// construction is reported as an internal invariant violation.
    #[verifier::loop_isolation(false)]
    #[verifier::rlimit(100)]
    pub fn to_dfa(&self) -> (r: Result<NfaModel, NfaError>)
        ensures
            arena_closed(self.nfa) && self.nfa.valid_ptr(self.start) ==> r is Ok,
            r matches Ok(m) ==> determinized(self.nfa, self.start, self.end, m),
            r matches Err(e) ==> e == NfaError::InternalInvariantViolation && !(arena_closed(
                self.nfa,
            ) && self.nfa.valid_ptr(self.start)),
    {
        let src = &self.nfa;
        let ghost gsrc: Nfa = self.nfa;
        let ghost src_start: NodePointer = self.start;
        let ghost gsrc_end: NodePointer = self.end;
        let mut dfa = Nfa::new(Vec::new());
        let start = dfa.new_node();
        let end = dfa.new_node();
        let mut seedv: Vec<NodePointer> = Vec::new();
        seedv.push(self.start);
        let ghost seedseq = seedv@;
        let seed_ctx = Context::add_epsilons(seedv, src);
        proof {
            assert forall|q: NodePointer| #[trigger] seedseq.contains(q) implies q == src_start by {
                let i = choose|i: int| 0 <= i < seedseq.len() && seedseq[i] == q;
            }
            assert(seedseq[0] == src_start);
            assert(seedseq.contains(src_start));
            assert(seedseq.to_set() =~= Set::empty().insert(src_start));
        }
        let mut keys: Vec<Vec<NodePointer>> = Vec::new();
        let mut vals: Vec<NodePointer> = Vec::new();
        let mut stack: Vec<usize> = Vec::new();
        let ghost den0: Set<NodePointer> = eps_closure(gsrc, Set::empty().insert(src_start));
        let ghost mut den: Seq<Set<NodePointer>> = seq![den0, Set::<NodePointer>::empty()];
        let ghost mut wit: Seq<NodePointer> = seq![src_start];
        keys.push(seed_ctx.nodes);
        vals.push(start);
        stack.push(0);
        proof {
            assert(dfa_universe(gsrc, src_start)[0] == src_start);
            assert forall|q: NodePointer| #[trigger] wit.contains(q) implies dfa_universe(
                gsrc,
                src_start,
            ).contains(q) by {
                let i = choose|i: int| 0 <= i < wit.len() && wit[i] == q;
                assert(q == src_start);
            }
            assert(build_inv(gsrc, src_start, gsrc_end, dfa, keys@, vals@, stack@, den, wit));
            assert(stack@[0] == 0usize);
            assert(stack@.contains(0usize));
            assert(build_complete(gsrc, dfa, keys@, vals@, stack@, den, -1));
            assert(accept_done(gsrc_end, dfa, keys@, vals@, stack@, -1));
        }
        while stack.len() > 0
            invariant
                build_inv(gsrc, src_start, gsrc_end, dfa, keys@, vals@, stack@, den, wit),
                build_complete(gsrc, dfa, keys@, vals@, stack@, den, -1),
                accept_done(gsrc_end, dfa, keys@, vals@, stack@, -1),
                start.id == 0,
                end.id == 1,
            decreases dfa_universe(gsrc, src_start).to_set().len() + 1 - keys@.len(), stack@.len(),
        {
            let ghost pre_pop = stack@;
            let kio = stack.pop();
            let ki = kio.unwrap();
            proof {
                assert(pre_pop =~= stack@.push(ki));
                lemma_push_contains::<usize>(stack@, ki);
            }
            let my_p = vals[ki];
            let members = copy_ptrs(&keys[ki]);
            // map acceptance: a set holding the source accepting node gets
            // a zero-width edge to the result's accepting node
            let has_end = ptr_vec_has(&members, self.end);
            if has_end {
                let ghost dfa_a: Nfa = dfa;
                let ghost acc_len: int = dfa.trans(my_p.id as int).len() as int;
                let res0 = dfa.add_transition(&my_p, Transition::new(TransitionType::Epsilon, end));
                proof {
                    assert(dfa_a.valid_ptr(my_p));
                    assert(res0 is Ok);
                    assert(my_p.id as int != 1);
                    assert(den[my_p.id as int] == keys@[ki as int]@.to_set());
                    assert(keys@[ki as int]@.to_set().contains(gsrc_end));
                    assert(accept_edge_at(dfa, my_p.id as int, acc_len));
                    assert forall|i: int, j2: int|
                        #![trigger dfa.trans(i)[j2]]
                        0 <= i < den.len() && 0 <= j2 < dfa.trans(i).len() implies trans_ok(
                        gsrc,
                        gsrc_end,
                        dfa,
                        den,
                        i,
                        j2,
                    ) by {
                        if i == my_p.id as int && j2 == acc_len {
                        } else {
                            if i == my_p.id as int {
                                assert(dfa.trans(i)[j2] == dfa_a.trans(i)[j2]);
                            } else {
                                assert(dfa.nodes@[i] == dfa_a.nodes@[i]);
                            }
                            assert(trans_ok(gsrc, gsrc_end, dfa_a, den, i, j2));
                            if !(dfa.trans(i)[j2].kind is Epsilon) {
                                lemma_sound_preserved(gsrc, dfa_a, dfa, den, den, i, j2);
                            }
                        }
                    }
                    assert forall|k2: int, p2: NodePointer, j2: int|
                        #![trigger keys@[k2]@.to_set().contains(p2), gsrc.trans(p2.id as int)[j2]]
                        0 <= k2 < keys@.len() && !stack@.contains(k2 as usize) && k2 != ki as int
                            && keys@[k2]@.to_set().contains(p2) && gsrc.valid_ptr(p2) && 0 <= j2
                            < gsrc.trans(p2.id as int).len() && !(gsrc.trans(
                            p2.id as int,
                        )[j2].kind is Epsilon) implies trans_complete(
                        gsrc,
                        dfa,
                        den,
                        vals@[k2].id as int,
                        p2,
                        j2,
                    ) by {
                        lemma_complete_preserved(
                            gsrc,
                            dfa_a,
                            dfa,
                            den,
                            den,
                            vals@[k2].id as int,
                            p2,
                            j2,
                        );
                    }
                    assert forall|k2: int|
                        #![trigger keys@[k2]]
                        0 <= k2 < keys@.len() && !stack@.contains(k2 as usize) && k2 != ki as int
                            && keys@[k2]@.to_set().contains(gsrc_end) implies exists|jd: int|
                        0 <= jd < dfa.trans(vals@[k2].id as int).len() && #[trigger] accept_edge_at(
                            dfa,
                            vals@[k2].id as int,
                            jd,
                        ) by {
                        lemma_accept_edge_preserved(dfa_a, dfa, vals@[k2].id as int);
                    }
                }
                match res0 {
                    Ok(_) => {},
                    Err(_) => {
                        proof {
                            assert(false);
                        }
                        return Err(NfaError::InternalInvariantViolation);
                    },
                }
            }
            proof {
                if keys@[ki as int]@.to_set().contains(gsrc_end) {
                    assert(members@.contains(gsrc_end));
                    assert(has_end);
                    assert(exists|jd: int|
                        0 <= jd < dfa.trans(my_p.id as int).len() && #[trigger] accept_edge_at(
                            dfa,
                            my_p.id as int,
                            jd,
                        ));
                }
            }
            let ghost keys_head: int = keys@.len() as int;
            let ghost stack_head: int = stack@.len() as int;
            let mut idx: usize = 0;
            while idx < members.len()
                invariant
                    build_inv(gsrc, src_start, gsrc_end, dfa, keys@, vals@, stack@, den, wit),
                    build_complete(gsrc, dfa, keys@, vals@, stack@, den, ki as int),
                    accept_done(gsrc_end, dfa, keys@, vals@, stack@, ki as int),
                    keys@[ki as int]@.to_set().contains(gsrc_end) ==> exists|jd: int|
                        0 <= jd < dfa.trans(my_p.id as int).len() && #[trigger] accept_edge_at(
                            dfa,
                            my_p.id as int,
                            jd,
                        ),
                    idx <= members@.len(),
                    ki < keys@.len(),
                    members@ == keys@[ki as int]@,
                    my_p == vals@[ki as int],
                    keys@.len() >= keys_head,
                    stack@.len() - stack_head == keys@.len() - keys_head,
                    forall|i2: int, j: int|
                        #![trigger gsrc.trans(members@[i2].id as int)[j]]
                        0 <= i2 < idx && gsrc.valid_ptr(members@[i2]) && 0 <= j < gsrc.trans(
                            members@[i2].id as int,
                        ).len() && !(gsrc.trans(members@[i2].id as int)[j].kind is Epsilon)
                            ==> trans_complete(gsrc, dfa, den, my_p.id as int, members@[i2], j),
                decreases members@.len() - idx,
            {
                let p = members[idx];
                proof {
                    assert(members@[idx as int] == p);
                    assert(members@.contains(p));
                    assert(keys@[ki as int]@.to_set().contains(p));
                }
                if p.id >= src.nodes.len() {
                    proof {
                        if arena_closed(gsrc) && gsrc.valid_ptr(src_start) {
                            assert(wit.contains(wit[ki as int]));
                            lemma_universe_valid(gsrc, src_start, wit[ki as int]);
                            assert(keys@[ki as int]@.to_set() == eps_closure(
                                gsrc,
                                Set::empty().insert(wit[ki as int]),
                            ));
                            assert forall|z: NodePointer|
                                Set::empty().insert(wit[ki as int]).contains(z) implies gsrc.valid_ptr(
                                z,
                            ) by {}
                            lemma_closure_member_valid(
                                gsrc,
                                Set::empty().insert(wit[ki as int]),
                                p,
                            );
                            assert(false);
                        }
                    }
                    return Err(NfaError::InternalInvariantViolation);
                }
                let tcount = src.nodes[p.id].transitions.len();
                let mut j: usize = 0;
                while j < tcount
                    invariant
                        build_inv(gsrc, src_start, gsrc_end, dfa, keys@, vals@, stack@, den, wit),
                        build_complete(gsrc, dfa, keys@, vals@, stack@, den, ki as int),
                        accept_done(gsrc_end, dfa, keys@, vals@, stack@, ki as int),
                        keys@[ki as int]@.to_set().contains(gsrc_end) ==> exists|jd: int|
                            0 <= jd < dfa.trans(my_p.id as int).len() && #[trigger] accept_edge_at(
                                dfa,
                                my_p.id as int,
                                jd,
                            ),
                        j <= tcount,
                        tcount == gsrc.trans(p.id as int).len(),
                        gsrc.valid_ptr(p),
                        idx < members@.len(),
                        p == members@[idx as int],
                        ki < keys@.len(),
                        members@ == keys@[ki as int]@,
                        my_p == vals@[ki as int],
                        keys@.len() >= keys_head,
                        stack@.len() - stack_head == keys@.len() - keys_head,
                        forall|i2: int, j2: int|
                            #![trigger gsrc.trans(members@[i2].id as int)[j2]]
                            0 <= i2 < idx && gsrc.valid_ptr(members@[i2]) && 0 <= j2 < gsrc.trans(
                                members@[i2].id as int,
                            ).len() && !(gsrc.trans(members@[i2].id as int)[j2].kind is Epsilon)
                                ==> trans_complete(gsrc, dfa, den, my_p.id as int, members@[i2], j2),
                        forall|jj: int|
                            0 <= jj < j && !(#[trigger] gsrc.trans(p.id as int)[jj].kind is Epsilon)
                                ==> trans_complete(gsrc, dfa, den, my_p.id as int, p, jj),
                    decreases tcount - j,
                {
                    let is_eps = match &src.nodes[p.id].transitions[j].kind {
                        TransitionType::Epsilon => true,
                        _ => false,
                    };
                    if !is_eps {
                        let t_dest = src.nodes[p.id].transitions[j].dest;
                        let mut dv: Vec<NodePointer> = Vec::new();
                        dv.push(t_dest);
                        let ghost dvseq = dv@;
                        let dctx = Context::add_epsilons(dv, src);
                        let sup = dctx.nodes;
                        let ghost supset: Set<NodePointer> = sup@.to_set();
                        proof {
                            assert forall|q: NodePointer| #[trigger] dvseq.contains(q) implies q
                                == t_dest by {
                                let i = choose|i: int| 0 <= i < dvseq.len() && dvseq[i] == q;
                            }
                            assert(dvseq[0] == t_dest);
                            assert(dvseq.contains(t_dest));
                            assert(dvseq.to_set() =~= Set::empty().insert(t_dest));
                            assert(supset == eps_closure(gsrc, Set::empty().insert(t_dest)));
                        }
                        let found = find_key(&keys, &sup);
                        let d_ptr: NodePointer = match found {
                            Some(pos) => {
                                proof {
                                    assert(keys@[pos as int]@ == sup@);
                                    assert(den[vals@[pos as int].id as int] == supset);
                                }
                                vals[pos]
                            },
                            None => {
                                let ghost dfa_b: Nfa = dfa;
                                let y = dfa.new_node();
                                let newki = keys.len();
                                let ghost keys_b = keys@;
                                let ghost vals_b = vals@;
                                let ghost stack_b = stack@;
                                keys.push(sup);
                                vals.push(y);
                                stack.push(newki);
                                proof {
                                    let den_b = den;
                                    let wit_b = wit;
                                    den = den.push(supset);
                                    // the new witness is genuinely new: an old
                                    // witness with the same closure would mean
                                    // an equal canonical key, which the search
                                    // ruled out
                                    assert forall|i: int| 0 <= i < wit_b.len() implies wit_b[i]
                                        != t_dest by {
                                        if wit_b[i] == t_dest {
                                            assert(keys@[i]@.to_set() == eps_closure(
                                                gsrc,
                                                Set::empty().insert(t_dest),
                                            ));
                                            lemma_canonical_unique(keys@[i]@, sup@);
                                            assert(keys@[i]@ != sup@);
                                            assert(false);
                                        }
                                    }
                                    wit = wit.push(t_dest);
                                    assert(wit.no_duplicates()) by {
                                        assert forall|i1: int, i2: int|
                                            0 <= i1 < wit.len() && 0 <= i2 < wit.len() && i1
                                                != i2 implies wit[i1] != wit[i2] by {
                                            if i1 < wit.len() - 1 && i2 < wit.len() - 1 {
                                                assert(wit[i1] == wit_b[i1] && wit[i2]
                                                    == wit_b[i2]);
                                            } else if i1 == wit.len() - 1 && i2 < wit.len() - 1 {
                                                assert(wit[i2] == wit_b[i2] && wit[i1] == t_dest);
                                            } else {
                                                assert(wit[i1] == wit_b[i1] && wit[i2] == t_dest);
                                            }
                                        }
                                    }
                                    lemma_dest_in_dests(gsrc, p, j as int, gsrc.nodes@.len() as int);
                                    assert forall|q: NodePointer| #[trigger] wit.contains(
                                        q,
                                    ) implies dfa_universe(gsrc, src_start).contains(q) by {
                                        let i = choose|i: int| 0 <= i < wit.len() && wit[i] == q;
                                        if i < wit.len() - 1 {
                                            assert(wit_b[i] == q);
                                            assert(wit_b.contains(q));
                                        } else {
                                            assert(q == t_dest);
                                            let dall = dests_up_to(gsrc, gsrc.nodes@.len() as int);
                                            let di = choose|di: int|
                                                0 <= di < dall.len() && dall[di] == t_dest;
                                            assert(dfa_universe(gsrc, src_start)[di + 1] == q);
                                        }
                                    }
                                    // distinctness of the new key
                                    assert forall|i: int| 0 <= i < keys@.len() - 1 implies #[trigger] keys@[i]@.to_set()
                                        != supset by {
                                        if keys@[i]@.to_set() == supset {
                                            lemma_canonical_unique(keys@[i]@, sup@);
                                        }
                                    }
                                    // frame the transition facts over the grown automaton
                                    assert forall|i: int, j2: int|
                                        #![trigger dfa.trans(i)[j2]]
                                        0 <= i < den.len() && 0 <= j2 < dfa.trans(i).len() implies trans_ok(
                                        gsrc,
                                        gsrc_end,
                                        dfa,
                                        den,
                                        i,
                                        j2,
                                    ) by {
                                        if i < dfa_b.nodes@.len() {
                                            assert(dfa.nodes@[i] == dfa_b.nodes@[i]);
                                            assert(trans_ok(gsrc, gsrc_end, dfa_b, den_b, i, j2));
                                            assert(den[i] == den_b[i]);
                                            if !(dfa.trans(i)[j2].kind is Epsilon) {
                                                lemma_sound_preserved(
                                                    gsrc,
                                                    dfa_b,
                                                    dfa,
                                                    den_b,
                                                    den,
                                                    i,
                                                    j2,
                                                );
                                            }
                                        } else {
                                            assert(dfa.trans(i).len() == 0);
                                        }
                                    }
                                    // accepting markers survive: no transitions changed
                                    assert forall|k2: int|
                                        #![trigger keys@[k2]]
                                        0 <= k2 < keys@.len() && !stack@.contains(k2 as usize) && k2
                                            != ki as int && keys@[k2]@.to_set().contains(
                                            gsrc_end,
                                        ) implies exists|jd: int|
                                        0 <= jd < dfa.trans(vals@[k2].id as int).len()
                                            && #[trigger] accept_edge_at(
                                            dfa,
                                            vals@[k2].id as int,
                                            jd,
                                        ) by {
                                        assert(k2 < keys@.len() - 1) by {
                                            if k2 == keys@.len() - 1 {
                                                assert(stack@[stack@.len() - 1] == newki);
                                                assert(stack@.contains(newki));
                                            }
                                        }
                                        lemma_push_contains::<usize>(stack_b, newki);
                                        assert(stack@ == stack_b.push(newki));
                                        assert(!stack_b.contains(k2 as usize));
                                        assert(keys_b[k2] == keys@[k2]);
                                        assert(vals_b[k2] == vals@[k2]);
                                        assert(dfa.nodes@[vals@[k2].id as int] == dfa_b.nodes@[vals@[k2].id as int]);
                                        lemma_accept_edge_preserved(dfa_b, dfa, vals@[k2].id as int);
                                    }
                                    if keys@[ki as int]@.to_set().contains(gsrc_end) {
                                        assert(dfa.nodes@[my_p.id as int] == dfa_b.nodes@[my_p.id as int]);
                                        lemma_accept_edge_preserved(dfa_b, dfa, my_p.id as int);
                                    }
                                    // the recorded witnesses stay transition destinations
                                    assert forall|i: int|
                                        #![trigger wit[i]]
                                        1 <= i < wit.len() implies dests_up_to(
                                        gsrc,
                                        gsrc.nodes@.len() as int,
                                    ).contains(wit[i]) by {
                                        if i < wit.len() - 1 {
                                            assert(wit[i] == wit_b[i]);
                                        } else {
                                            assert(wit[i] == t_dest);
                                        }
                                    }
                                    // frame the completeness facts
                                    assert forall|k2: int, p2: NodePointer, j2: int|
                                        #![trigger keys@[k2]@.to_set().contains(p2), gsrc.trans(p2.id as int)[j2]]
                                        0 <= k2 < keys@.len() && !stack@.contains(k2 as usize) && k2
                                            != ki as int && keys@[k2]@.to_set().contains(p2)
                                            && gsrc.valid_ptr(p2) && 0 <= j2 < gsrc.trans(
                                            p2.id as int,
                                        ).len() && !(gsrc.trans(p2.id as int)[j2].kind is Epsilon) implies trans_complete(
                                        gsrc,
                                        dfa,
                                        den,
                                        vals@[k2].id as int,
                                        p2,
                                        j2,
                                    ) by {
                                        assert(k2 < keys@.len() - 1) by {
                                            if k2 == keys@.len() - 1 {
                                                assert(stack@[stack@.len() - 1] == newki);
                                                assert(stack@.contains(newki));
                                            }
                                        }
                                        lemma_push_contains::<usize>(stack_b, newki);
                                        assert(stack@ == stack_b.push(newki));
                                        assert(!stack_b.contains(k2 as usize));
                                        assert(vals@[k2] == vals_b[k2]);
                                        assert(keys@[k2] == keys_b[k2]);
                                        assert(keys_b[k2]@.to_set().contains(p2));
                                        assert(trans_complete(
                                            gsrc,
                                            dfa_b,
                                            den_b,
                                            vals_b[k2].id as int,
                                            p2,
                                            j2,
                                        ));
                                        lemma_complete_preserved(
                                            gsrc,
                                            dfa_b,
                                            dfa,
                                            den_b,
                                            den,
                                            vals@[k2].id as int,
                                            p2,
                                            j2,
                                        );
                                    }
                                    assert forall|i2: int, j2: int|
                                        #![trigger gsrc.trans(members@[i2].id as int)[j2]]
                                        0 <= i2 < idx && gsrc.valid_ptr(members@[i2]) && 0 <= j2
                                            < gsrc.trans(members@[i2].id as int).len() && !(gsrc.trans(
                                            members@[i2].id as int,
                                        )[j2].kind is Epsilon) implies trans_complete(
                                        gsrc,
                                        dfa,
                                        den,
                                        my_p.id as int,
                                        members@[i2],
                                        j2,
                                    ) by {
                                        lemma_complete_preserved(
                                            gsrc,
                                            dfa_b,
                                            dfa,
                                            den_b,
                                            den,
                                            my_p.id as int,
                                            members@[i2],
                                            j2,
                                        );
                                    }
                                    assert forall|jj: int|
                                        0 <= jj < j && !(#[trigger] gsrc.trans(
                                            p.id as int,
                                        )[jj].kind is Epsilon) implies trans_complete(
                                        gsrc,
                                        dfa,
                                        den,
                                        my_p.id as int,
                                        p,
                                        jj,
                                    ) by {
                                        lemma_complete_preserved(
                                            gsrc,
                                            dfa_b,
                                            dfa,
                                            den_b,
                                            den,
                                            my_p.id as int,
                                            p,
                                            jj,
                                        );
                                    }
                                }
                                y
                            },
                        };
                        let kind2 = clone_kind(&src.nodes[p.id].transitions[j].kind);
                        let ghost dfa_c: Nfa = dfa;
                        let ghost old_len: int = dfa.trans(my_p.id as int).len() as int;
                        let res = dfa.add_transition(&my_p, Transition::new(kind2, d_ptr));
                        proof {
                            assert(dfa_c.valid_ptr(my_p));
                            assert(res is Ok);
                            assert(my_p.id as int != 1);
                            assert(den[d_ptr.id as int] == supset);
                            // the appended transition is justified by (p, j)
                            assert(dfa.trans(my_p.id as int)[old_len].kind == gsrc.trans(
                                p.id as int,
                            )[j as int].kind);
                            assert(den[my_p.id as int] == keys@[ki as int]@.to_set());
                            assert(trans_sound(gsrc, dfa, den, my_p.id as int, old_len));
                            assert(!(dfa.trans(my_p.id as int)[old_len].kind is Epsilon));
                            assert forall|i: int, j2: int|
                                #![trigger dfa.trans(i)[j2]]
                                0 <= i < den.len() && 0 <= j2 < dfa.trans(i).len() implies trans_ok(
                                gsrc,
                                gsrc_end,
                                dfa,
                                den,
                                i,
                                j2,
                            ) by {
                                if i == my_p.id as int && j2 < old_len {
                                    assert(dfa.trans(i)[j2] == dfa_c.trans(i)[j2]);
                                    assert(trans_ok(gsrc, gsrc_end, dfa_c, den, i, j2));
                                    if !(dfa.trans(i)[j2].kind is Epsilon) {
                                        lemma_sound_preserved(gsrc, dfa_c, dfa, den, den, i, j2);
                                    }
                                } else if i != my_p.id as int {
                                    assert(dfa.nodes@[i] == dfa_c.nodes@[i]);
                                    assert(trans_ok(gsrc, gsrc_end, dfa_c, den, i, j2));
                                    if !(dfa.trans(i)[j2].kind is Epsilon) {
                                        lemma_sound_preserved(gsrc, dfa_c, dfa, den, den, i, j2);
                                    }
                                }
                            }
                            // accepting markers survive the append
                            assert forall|k2: int|
                                #![trigger keys@[k2]]
                                0 <= k2 < keys@.len() && !stack@.contains(k2 as usize) && k2
                                    != ki as int && keys@[k2]@.to_set().contains(
                                    gsrc_end,
                                ) implies exists|jd: int|
                                0 <= jd < dfa.trans(vals@[k2].id as int).len()
                                    && #[trigger] accept_edge_at(dfa, vals@[k2].id as int, jd) by {
                                lemma_accept_edge_preserved(dfa_c, dfa, vals@[k2].id as int);
                            }
                            if keys@[ki as int]@.to_set().contains(gsrc_end) {
                                lemma_accept_edge_preserved(dfa_c, dfa, my_p.id as int);
                            }
                            // completeness facts survive the append
                            assert forall|k2: int, p2: NodePointer, j2: int|
                                #![trigger keys@[k2]@.to_set().contains(p2), gsrc.trans(p2.id as int)[j2]]
                                0 <= k2 < keys@.len() && !stack@.contains(k2 as usize) && k2
                                    != ki as int && keys@[k2]@.to_set().contains(p2)
                                    && gsrc.valid_ptr(p2) && 0 <= j2 < gsrc.trans(
                                    p2.id as int,
                                ).len() && !(gsrc.trans(p2.id as int)[j2].kind is Epsilon) implies trans_complete(
                                gsrc,
                                dfa,
                                den,
                                vals@[k2].id as int,
                                p2,
                                j2,
                            ) by {
                                lemma_complete_preserved(
                                    gsrc,
                                    dfa_c,
                                    dfa,
                                    den,
                                    den,
                                    vals@[k2].id as int,
                                    p2,
                                    j2,
                                );
                            }
                            assert forall|i2: int, j2: int|
                                #![trigger gsrc.trans(members@[i2].id as int)[j2]]
                                0 <= i2 < idx && gsrc.valid_ptr(members@[i2]) && 0 <= j2
                                    < gsrc.trans(members@[i2].id as int).len() && !(gsrc.trans(
                                    members@[i2].id as int,
                                )[j2].kind is Epsilon) implies trans_complete(
                                gsrc,
                                dfa,
                                den,
                                my_p.id as int,
                                members@[i2],
                                j2,
                            ) by {
                                lemma_complete_preserved(
                                    gsrc,
                                    dfa_c,
                                    dfa,
                                    den,
                                    den,
                                    my_p.id as int,
                                    members@[i2],
                                    j2,
                                );
                            }
                            assert forall|jj: int|
                                0 <= jj < j + 1 && !(#[trigger] gsrc.trans(
                                    p.id as int,
                                )[jj].kind is Epsilon) implies trans_complete(
                                gsrc,
                                dfa,
                                den,
                                my_p.id as int,
                                p,
                                jj,
                            ) by {
                                if jj < j {
                                    lemma_complete_preserved(
                                        gsrc,
                                        dfa_c,
                                        dfa,
                                        den,
                                        den,
                                        my_p.id as int,
                                        p,
                                        jj,
                                    );
                                } else {
                                    assert(dfa.trans(my_p.id as int)[old_len].kind == gsrc.trans(
                                        p.id as int,
                                    )[jj].kind);
                                    assert(trans_complete(gsrc, dfa, den, my_p.id as int, p, jj));
                                }
                            }
                        }
                        match res {
                            Ok(_) => {},
                            Err(_) => {
                                proof {
                                    assert(false);
                                }
                                return Err(NfaError::InternalInvariantViolation);
                            },
                        }
                    }
                    j = j + 1;
                }
                idx = idx + 1;
            }
            proof {
                // the popped set is now fully represented
                assert forall|k2: int, p2: NodePointer, j2: int|
                    #![trigger keys@[k2]@.to_set().contains(p2), gsrc.trans(p2.id as int)[j2]]
                    0 <= k2 < keys@.len() && !stack@.contains(k2 as usize) && keys@[k2]@.to_set()
                        .contains(p2) && gsrc.valid_ptr(p2) && 0 <= j2 < gsrc.trans(
                        p2.id as int,
                    ).len() && !(gsrc.trans(p2.id as int)[j2].kind is Epsilon) implies trans_complete(
                    gsrc,
                    dfa,
                    den,
                    vals@[k2].id as int,
                    p2,
                    j2,
                ) by {
                    if k2 == ki as int {
                        assert(keys@[ki as int]@.contains(p2));
                        let i2 = choose|i2: int|
                            0 <= i2 < members@.len() && members@[i2] == p2;
                        assert(gsrc.trans(members@[i2].id as int)[j2].kind == gsrc.trans(
                            p2.id as int,
                        )[j2].kind);
                    }
                }
                // the popped set's accepting marker, if owed, was added
                // when it was taken off the worklist
                assert forall|k2: int|
                    #![trigger keys@[k2]]
                    0 <= k2 < keys@.len() && !stack@.contains(k2 as usize) && keys@[k2]@.to_set()
                        .contains(gsrc_end) implies exists|jd: int|
                    0 <= jd < dfa.trans(vals@[k2].id as int).len() && #[trigger] accept_edge_at(
                        dfa,
                        vals@[k2].id as int,
                        jd,
                    ) by {
                    if k2 == ki as int {
                        assert(my_p == vals@[ki as int]);
                    }
                }
                // cardinality: the interned keys never outnumber the pool
                wit.unique_seq_to_set();
                broadcast use vstd::seq_lib::seq_to_set_is_finite;

                assert(wit.to_set().subset_of(dfa_universe(gsrc, src_start).to_set())) by {
                    assert forall|q: NodePointer| wit.to_set().contains(q) implies dfa_universe(
                        gsrc,
                        src_start,
                    ).to_set().contains(q) by {
                        assert(wit.contains(q));
                        assert(dfa_universe(gsrc, src_start).contains(q));
                    }
                }
                lemma_len_subset(wit.to_set(), dfa_universe(gsrc, src_start).to_set());
            }
        }
        let m = NfaModel::new(dfa, start, end);
        proof {
            lemma_build_done(gsrc, src_start, gsrc_end, dfa, keys@, vals@, stack@, den, wit, m);
            assert(determinized(gsrc, src_start, gsrc_end, m)) by {
                assert forall|i: int, j: int|
                #![trigger m.nfa.trans(i)[j]]
                0 <= i < den.len() && 0 <= j < m.nfa.trans(i).len() implies trans_ok(
                gsrc,
                gsrc_end,
                m.nfa,
                den,
                i,
                j,
            ) by {
                assert(trans_ok(gsrc, gsrc_end, dfa, den, i, j));
            }
            assert(dfa_abstraction(gsrc, src_start, gsrc_end, m, den));
            }
            assert(determinized(self.nfa, self.start, self.end, m));
        }
        Ok(m)
    }
}


/// The shape of every determinized automaton: zero-width edges lead only
/// into the accepting node, the accepting node has no outgoing
/// transitions, and character transitions never enter it.
pub open spec fn accept_shaped(nfa: Nfa, end: NodePointer) -> bool {
    &&& end.id < nfa.nodes@.len()
    &&& nfa.trans(end.id as int).len() == 0
    &&& forall|i: int, j: int|
        0 <= i < nfa.nodes@.len() && 0 <= j < nfa.trans(i).len() ==> (((
        #[trigger] nfa.trans(i)[j]).kind is Epsilon) ==> nfa.trans(i)[j].dest == end) && (!(
        nfa.trans(i)[j].kind is Epsilon) ==> nfa.trans(i)[j].dest != end)
}

/// A determinized form has the accepting shape.
pub proof fn lemma_dfa_shape(
    src: Nfa,
    src_start: NodePointer,
    src_end: NodePointer,
    m: NfaModel,
    den: Seq<Set<NodePointer>>,
)
    requires
        dfa_abstraction(src, src_start, src_end, m, den),
    ensures
        accept_shaped(m.nfa, m.end),
{
    assert forall|i: int, j: int|
        0 <= i < m.nfa.nodes@.len() && 0 <= j < m.nfa.trans(i).len() implies (((
    #[trigger] m.nfa.trans(i)[j]).kind is Epsilon) ==> m.nfa.trans(i)[j].dest == m.end) && (!(
    m.nfa.trans(i)[j].kind is Epsilon) ==> m.nfa.trans(i)[j].dest != m.end) by {
        assert(trans_ok(src, src_end, m.nfa, den, i, j));
        let t = m.nfa.trans(i)[j];
        if t.kind is Epsilon {
            assert(t.dest.id == 1 && m.end.id == 1);
            assert(t.dest == m.end);
        } else {
            let (p, jj): (NodePointer, int) = choose|p: NodePointer, jj: int|
                den[i].contains(p) && src.valid_ptr(p) && 0 <= jj < src.trans(p.id as int).len()
                    && #[trigger] src.trans(p.id as int)[jj].kind == t.kind && den[t.dest.id as int]
                    == eps_closure(src, Set::empty().insert(src.trans(p.id as int)[jj].dest));
            let d0 = src.trans(p.id as int)[jj].dest;
            lemma_reach_base(src, Set::empty().insert(d0), d0, false);
            assert(den[t.dest.id as int].contains(d0));
            if t.dest.id as int == 1 {
                assert(false);
            }
        }
    }
}

/// Some active node carries a zero-width edge (under the accepting shape,
/// necessarily into the accepting node).
pub open spec fn has_accept(nfa: Nfa, s: Set<NodePointer>) -> bool {
    exists|p: NodePointer, j: int|
        s.contains(p) && nfa.valid_ptr(p) && 0 <= j < nfa.trans(p.id as int).len() && (
        #[trigger] nfa.trans(p.id as int)[j]).kind is Epsilon
}

/// Under the accepting shape, the epsilon-closure of a set adds exactly
/// the accepting node, and only when some member carries a marker: this
/// is why re-determinizing a determinized pattern is structurally stable,
/// as simulation can collapse nothing further.
pub proof fn lemma_shaped_closure(nfa: Nfa, end: NodePointer, s: Set<NodePointer>)
    requires
        accept_shaped(nfa, end),
    ensures
        eps_closure(nfa, s) == (if has_accept(nfa, s) {
            s.insert(end)
        } else {
            s
        }),
{
    assert forall|q: NodePointer| eps_closure(nfa, s).contains(q) implies s.contains(q) || (q == end
        && has_accept(nfa, s)) by {
        let path = choose|path: Seq<NodePointer>|
            path.len() > 0 && s.contains(path[0]) && path.last() == q && #[trigger] zw_path(
                nfa,
                path,
                false,
            );
        if path.len() > 1 {
            let i: int = 0;
            assert(zw_edge(nfa, path[i], path[i + 1], false));
            let p = path[0];
            let j = choose|j: int|
                0 <= j < nfa.trans(p.id as int).len() && #[trigger] crate::nfa::zero_width(
                    nfa.trans(p.id as int)[j].kind,
                    false,
                ) && nfa.trans(p.id as int)[j].dest == path[1];
            assert(nfa.trans(p.id as int)[j].kind is Epsilon);
            assert(path[1] == end);
            if path.len() > 2 {
                let i2: int = 1;
                assert(zw_edge(nfa, path[i2], path[i2 + 1], false));
                assert(nfa.valid_ptr(path[1]));
                assert(false);
            }
            assert(q == end);
            assert(has_accept(nfa, s));
        }
    }
    assert forall|q: NodePointer| s.contains(q) implies eps_closure(nfa, s).contains(q) by {
        lemma_reach_base(nfa, s, q, false);
    }
    if has_accept(nfa, s) {
        let (p, j): (NodePointer, int) = choose|p: NodePointer, j: int|
            s.contains(p) && nfa.valid_ptr(p) && 0 <= j < nfa.trans(p.id as int).len() && (
            #[trigger] nfa.trans(p.id as int)[j]).kind is Epsilon;
        assert(nfa.trans(p.id as int)[j].dest == end);
        assert(crate::nfa::zero_width(nfa.trans(p.id as int)[j].kind, false));
        assert(zw_edge(nfa, p, end, false));
        lemma_reach_base(nfa, s, p, false);
        crate::nfa::lemma_reach_extend(nfa, s, p, end, false);
        assert(eps_closure(nfa, s) =~= s.insert(end));
    } else {
        assert(eps_closure(nfa, s) =~= s);
    }
}

} // verus!
