//! Construction and execution of nondeterministic finite automata.
//!
//! Nodes live in a flat arena addressed by integer index, so cyclic graphs
//! (epsilon loops included) need no shared ownership.  A `Context` is the set
//! of currently active nodes; stepping it across one input symbol and closing
//! the result under zero-width edges are the two simulation primitives.

use vstd::prelude::*;
use vstd::seq_lib::*;
use vstd::set_lib::lemma_len_subset;
use vstd::string::StrSliceExecFns;

verus! {

/// The error kinds the automaton layer reports.
#[derive(Debug, Clone, Copy, PartialEq, Eq, Structural)]
pub enum NfaError {
    /// A builder call named a source node outside the arena.
    InvalidTransitionSource,
    /// A pattern specification handed in by a caller was unusable.
    MalformedPattern,
    /// An internal bookkeeping invariant was broken; never reported by
    /// verified code.
    InternalInvariantViolation,
}

/// An opaque index naming one node of the arena that minted it.
#[derive(Debug, Copy, Clone, Hash, PartialEq, Eq, Structural)]
pub struct NodePointer {
    pub id: usize,
}

impl NodePointer {
    pub fn new(id: usize) -> (r: Self)
        ensures
            r.id == id,
    {
        Self { id }
    }
}

/// The tag of one outgoing edge.
///
/// `Epsilon` is always traversable and consumes nothing.  `Alpha` matches one
/// exact character, `Range` a character contained in its set, `NegativeRange`
/// one not contained in it.  `QuerySetRange` carries a semantic predicate
/// expression; it is never matched by character stepping and is evaluated
/// only after a textual match is complete.  `Open`/`Close` are zero-width
/// capture-group boundary markers paired by their number.
#[derive(Debug, Clone)]
pub enum TransitionType {
    Epsilon,
    Alpha(char),
    Range(String),
    NegativeRange(String),
    QuerySetRange(String),
    Open(u32),
    Close(u32),
}

/// One outgoing edge: a tag and the destination node.
#[derive(Debug, Clone)]
pub struct Transition {
    pub kind: TransitionType,
    pub dest: NodePointer,
}

impl Transition {
    pub fn new(kind: TransitionType, dest: NodePointer) -> (r: Self)
        ensures
            r.kind == kind && r.dest == dest,
    {
        Self { kind, dest }
    }
}

/// One node: its ordered outgoing transitions.
#[derive(Debug, Clone)]
pub struct Node {
    pub transitions: Vec<Transition>,
}

impl Node {
    pub fn new() -> (r: Self)
        ensures
            r.transitions@ == Seq::<Transition>::empty(),
    {
        Self { transitions: Vec::new() }
    }
}

/// The owning arena of nodes.  Nodes are only ever appended, so a
/// `NodePointer` is valid exactly when its index is below the node count.
#[derive(Debug, Clone)]
pub struct Nfa {
    pub nodes: Vec<Node>,
}

/// True of a character-consuming transition tag that accepts input `c`.
pub open spec fn char_matches(k: TransitionType, c: char) -> bool {
    match k {
        TransitionType::Alpha(a) => a == c,
        TransitionType::Range(s) => s@.contains(c),
        TransitionType::NegativeRange(s) => !s@.contains(c),
        _ => false,
    }
}

/// True of a tag traversed without consuming input: always of `Epsilon`, and
/// of the capture markers when `groups` is set.
pub open spec fn zero_width(k: TransitionType, groups: bool) -> bool {
    k is Epsilon || (groups && (k is Open || k is Close))
}

impl Nfa {
    /// The transitions leaving node `i`.
    pub open spec fn trans(&self, i: int) -> Seq<Transition> {
        self.nodes@[i].transitions@
    }

    /// A pointer is valid for this arena iff its index is in range.
    pub open spec fn valid_ptr(&self, p: NodePointer) -> bool {
        p.id < self.nodes@.len()
    }
}

/// A zero-width edge from `p` to `q`.
pub open spec fn zw_edge(nfa: Nfa, p: NodePointer, q: NodePointer, groups: bool) -> bool {
    &&& nfa.valid_ptr(p)
    &&& exists|j: int|
        0 <= j < nfa.trans(p.id as int).len() && #[trigger] zero_width(
            nfa.trans(p.id as int)[j].kind,
            groups,
        ) && nfa.trans(p.id as int)[j].dest == q
}

/// `path` walks zero-width edges from its first node to its last.
pub open spec fn zw_path(nfa: Nfa, path: Seq<NodePointer>, groups: bool) -> bool {
    forall|i: int| 0 <= i < path.len() - 1 ==> zw_edge(nfa, path[i], #[trigger] path[i + 1], groups)
}

/// `q` is reachable from some member of `s` along zero-width edges.
pub open spec fn zw_reach(nfa: Nfa, s: Set<NodePointer>, q: NodePointer, groups: bool) -> bool {
    exists|path: Seq<NodePointer>|
        path.len() > 0 && s.contains(path[0]) && path.last() == q && #[trigger] zw_path(
            nfa,
            path,
            groups,
        )
}

/// The fixpoint set of nodes reachable from `s` along zero-width edges.
pub open spec fn zw_closure(nfa: Nfa, s: Set<NodePointer>, groups: bool) -> Set<NodePointer> {
    Set::new(|q: NodePointer| zw_reach(nfa, s, q, groups))
}

/// The epsilon-closure of `s`: capture markers are not traversed.
pub open spec fn eps_closure(nfa: Nfa, s: Set<NodePointer>) -> Set<NodePointer> {
    zw_closure(nfa, s, false)
}

/// The destinations reachable from `s` by consuming exactly the character
/// `c` across one matching transition, before any closure.
pub open spec fn step_once(nfa: Nfa, s: Set<NodePointer>, c: char) -> Set<NodePointer> {
    Set::new(
        |q: NodePointer|
            exists|p: NodePointer, j: int|
                s.contains(p) && nfa.valid_ptr(p) && 0 <= j < nfa.trans(p.id as int).len()
                    && char_matches(#[trigger] nfa.trans(p.id as int)[j].kind, c) && nfa.trans(
                    p.id as int,
                )[j].dest == q,
    )
}

/// One full simulation step: consume `c`, then close under epsilon edges.
pub open spec fn step_spec(nfa: Nfa, s: Set<NodePointer>, c: char) -> Set<NodePointer> {
    eps_closure(nfa, step_once(nfa, s, c))
}

/// `post` is `pre` with transition `t` appended to node `from` and nothing
/// else changed.
pub open spec fn edge_added(pre: Nfa, post: Nfa, from: int, t: Transition) -> bool {
    &&& post.nodes@.len() == pre.nodes@.len()
    &&& post.trans(from) == pre.trans(from).push(t)
    &&& forall|i: int| 0 <= i < pre.nodes@.len() && i != from ==> post.nodes@[i] == pre.nodes@[i]
}

impl Nfa {
    pub fn new(nodes: Vec<Node>) -> (r: Self)
        ensures
            r.nodes@ == nodes@,
    {
        Self { nodes }
    }

    /// How many nodes the arena holds.
    pub fn node_count(&self) -> (r: usize)
        ensures
            r == self.nodes@.len(),
    {
        self.nodes.len()
    }

    pub fn get(&self, i: &NodePointer) -> (r: Option<&Node>)
        ensures
            self.valid_ptr(*i) ==> (r matches Some(n) && *n == self.nodes@[i.id as int]),
            !self.valid_ptr(*i) ==> r is None,
    {
        if i.id < self.nodes.len() {
            Some(&self.nodes[i.id])
        } else {
            None
        }
    }

    /// Appends a fresh empty node and returns its pointer.
    pub fn new_node(&mut self) -> (r: NodePointer)
        ensures
            final(self).nodes@.len() == old(self).nodes@.len() + 1,
            forall|i: int|
                0 <= i < old(self).nodes@.len() ==> final(self).nodes@[i] == old(self).nodes@[i],
            final(self).trans(old(self).nodes@.len() as int) == Seq::<Transition>::empty(),
            r.id == old(self).nodes@.len(),
    {
        self.add_node(Node::new())
    }

    /// Appends `node` and returns its pointer.
    pub fn add_node(&mut self, node: Node) -> (r: NodePointer)
        ensures
            final(self).nodes@ == old(self).nodes@.push(node),
            r.id == old(self).nodes@.len(),
    {
        self.nodes.push(node);
        NodePointer::new(self.nodes.len() - 1)
    }

    pub fn add_transition_range(
        &mut self,
        from: &NodePointer,
        to: &NodePointer,
        s: String,
    ) -> (r: Result<(), NfaError>)
        ensures
            old(self).valid_ptr(*from) ==> r is Ok && edge_added(
                *old(self),
                *final(self),
                from.id as int,
                (Transition { kind: TransitionType::Range(s), dest: *to }),
            ),
            !old(self).valid_ptr(*from) ==> r == Err::<(), NfaError>(
                NfaError::InvalidTransitionSource,
            ) && *final(self) == *old(self),
    {
        self.add_transition(from, Transition::new(TransitionType::Range(s), *to))
    }

    pub fn add_transition_queryset(
        &mut self,
        from: &NodePointer,
        to: &NodePointer,
        s: String,
    ) -> (r: Result<(), NfaError>)
        ensures
            old(self).valid_ptr(*from) ==> r is Ok && edge_added(
                *old(self),
                *final(self),
                from.id as int,
                (Transition { kind: TransitionType::QuerySetRange(s), dest: *to }),
            ),
            !old(self).valid_ptr(*from) ==> r == Err::<(), NfaError>(
                NfaError::InvalidTransitionSource,
            ) && *final(self) == *old(self),
    {
        self.add_transition(from, Transition::new(TransitionType::QuerySetRange(s), *to))
    }

    pub fn add_transition_negativerange(
        &mut self,
        from: &NodePointer,
        to: &NodePointer,
        s: String,
    ) -> (r: Result<(), NfaError>)
        ensures
            old(self).valid_ptr(*from) ==> r is Ok && edge_added(
                *old(self),
                *final(self),
                from.id as int,
                (Transition { kind: TransitionType::NegativeRange(s), dest: *to }),
            ),
            !old(self).valid_ptr(*from) ==> r == Err::<(), NfaError>(
                NfaError::InvalidTransitionSource,
            ) && *final(self) == *old(self),
    {
        self.add_transition(from, Transition::new(TransitionType::NegativeRange(s), *to))
    }

    pub fn add_transition_alpha(
        &mut self,
        from: &NodePointer,
        to: &NodePointer,
        on: char,
    ) -> (r: Result<(), NfaError>)
        ensures
            old(self).valid_ptr(*from) ==> r is Ok && edge_added(
                *old(self),
                *final(self),
                from.id as int,
                (Transition { kind: TransitionType::Alpha(on), dest: *to }),
            ),
            !old(self).valid_ptr(*from) ==> r == Err::<(), NfaError>(
                NfaError::InvalidTransitionSource,
            ) && *final(self) == *old(self),
    {
        self.add_transition(from, Transition::new(TransitionType::Alpha(on), *to))
    }

    pub fn add_transition_epsilon(&mut self, from: &NodePointer, to: &NodePointer) -> (r: Result<
        (),
        NfaError,
    >)
        ensures
            old(self).valid_ptr(*from) ==> r is Ok && edge_added(
                *old(self),
                *final(self),
                from.id as int,
                (Transition { kind: TransitionType::Epsilon, dest: *to }),
            ),
            !old(self).valid_ptr(*from) ==> r == Err::<(), NfaError>(
                NfaError::InvalidTransitionSource,
            ) && *final(self) == *old(self),
    {
        self.add_transition(from, Transition::new(TransitionType::Epsilon, *to))
    }

    /// Adds the paired capture markers of group `num`: an `Open` edge and a
    /// `Close` edge sharing one number.  The second edge is only added when
    /// the first source was valid.
    pub fn add_group(
        &mut self,
        start_from: &NodePointer,
        start_to: &NodePointer,
        end_from: &NodePointer,
        end_to: &NodePointer,
        num: u32,
    ) -> (r: Result<(), NfaError>)
        ensures
            old(self).valid_ptr(*start_from) && old(self).valid_ptr(*end_from) ==> r is Ok
                && exists|mid: Nfa|
                #![auto]
                edge_added(
                    *old(self),
                    mid,
                    start_from.id as int,
                    (Transition { kind: TransitionType::Open(num), dest: *start_to }),
                ) && edge_added(
                    mid,
                    *final(self),
                    end_from.id as int,
                    (Transition { kind: TransitionType::Close(num), dest: *end_to }),
                ),
            !old(self).valid_ptr(*start_from) ==> r == Err::<(), NfaError>(
                NfaError::InvalidTransitionSource,
            ) && *final(self) == *old(self),
            old(self).valid_ptr(*start_from) && !old(self).valid_ptr(*end_from) ==> r == Err::<
                (),
                NfaError,
            >(NfaError::InvalidTransitionSource) && edge_added(
                *old(self),
                *final(self),
                start_from.id as int,
                (Transition { kind: TransitionType::Open(num), dest: *start_to }),
            ),
    {
        let r = self.add_transition(
            start_from,
            Transition::new(TransitionType::Open(num), *start_to),
        );
        match r {
            Ok(()) => self.add_transition(
                end_from,
                Transition::new(TransitionType::Close(num), *end_to),
            ),
            Err(e) => Err(e),
        }
    }

    /// Appends `to` to the transitions of node `from`; rejects an
    /// out-of-range source and leaves the arena unchanged then.
    pub fn add_transition(&mut self, from: &NodePointer, to: Transition) -> (r: Result<
        (),
        NfaError,
    >)
        ensures
            old(self).valid_ptr(*from) ==> r is Ok && edge_added(
                *old(self),
                *final(self),
                from.id as int,
                to,
            ),
            !old(self).valid_ptr(*from) ==> r == Err::<(), NfaError>(
                NfaError::InvalidTransitionSource,
            ) && *final(self) == *old(self),
    {
        if from.id < self.nodes.len() {
            self.nodes[from.id].transitions.push(to);
            Ok(())
        } else {
            Err(NfaError::InvalidTransitionSource)
        }
    }
}


/// Pointers in strictly ascending index order: the canonical form of a set
/// of node pointers.
pub open spec fn sorted_strict(s: Seq<NodePointer>) -> bool {
    forall|i: int, j: int| 0 <= i < j < s.len() ==> s[i].id < s[j].id
}

pub(crate) proof fn lemma_sorted_no_dup(s: Seq<NodePointer>)
    requires
        sorted_strict(s),
    ensures
        s.no_duplicates(),
{
    assert forall|i: int, j: int| 0 <= i < s.len() && 0 <= j < s.len() && i != j implies s[i]
        != s[j] by {
        if i < j {
            assert(s[i].id < s[j].id);
        } else {
            assert(s[j].id < s[i].id);
        }
    }
}

/// Whether `v` holds `p`, by linear scan.
pub(crate) fn ptr_vec_has(v: &Vec<NodePointer>, p: NodePointer) -> (r: bool)
    ensures
        r == v@.contains(p),
{
    let mut k: usize = 0;
    while k < v.len()
        invariant
            k <= v@.len(),
            forall|i: int| 0 <= i < k ==> v@[i] != p,
        decreases v@.len() - k,
    {
        if v[k].id == p.id {
            proof {
                assert(v@[k as int] == p);
            }
            return true;
        }
        proof {
            assert(v@[k as int] != p);
        }
        k = k + 1;
    }
    false
}

/// Inserts `p` into a strictly sorted vector, keeping it sorted and
/// duplicate-free; a pointer already present leaves the vector unchanged.
pub(crate) fn insert_sorted(v: &mut Vec<NodePointer>, p: NodePointer)
    requires
        sorted_strict(old(v)@),
    ensures
        sorted_strict(final(v)@),
        forall|q: NodePointer| #[trigger] final(v)@.contains(q) <==> (old(v)@.contains(q) || q
            == p),
        old(v)@.contains(p) ==> final(v)@ == old(v)@,
        !old(v)@.contains(p) ==> final(v)@.len() == old(v)@.len() + 1,
{
    let mut k: usize = 0;
    while k < v.len() && v[k].id < p.id
        invariant
            k <= v@.len(),
            forall|i: int| 0 <= i < k ==> v@[i].id < p.id,
            v@ == old(v)@,
        decreases v@.len() - k,
    {
        k = k + 1;
    }
    if k < v.len() && v[k].id == p.id {
        proof {
            assert(v@[k as int] == p);
            assert(v@.contains(p));
        }
    } else {
        proof {
            assert forall|i: int| k <= i < v@.len() implies v@[i].id > p.id by {
                if i > k {
                    assert(v@[k as int].id < v@[i].id);
                }
            }
            if v@.contains(p) {
                let i = choose|i: int| 0 <= i < v@.len() && v@[i] == p;
                assert(false);
            }
            old(v)@.insert_ensures(k as int, p);
        }
        v.insert(k, p);
        proof {
            let pre = old(v)@;
            let post = v@;
            assert forall|i: int, j: int| 0 <= i < j < post.len() implies post[i].id
                < post[j].id by {
                if j < k {
                    assert(post[i] == pre[i] && post[j] == pre[j]);
                } else if i < k && j == k {
                    assert(post[i] == pre[i] && post[j] == p);
                } else if i < k && j > k {
                    assert(post[i] == pre[i] && post[j] == pre[j - 1]);
                    if i < j - 1 {
                    } else {
                        assert(post[j].id > p.id);
                    }
                } else if i == k {
                    assert(post[i] == p && post[j] == pre[j - 1]);
                    assert(pre[j - 1].id > p.id);
                } else {
                    assert(post[i] == pre[i - 1] && post[j] == pre[j - 1]);
                }
            }
            assert forall|q: NodePointer| #[trigger] post.contains(q) implies (pre.contains(q) || q
                == p) by {
                let i = choose|i: int| 0 <= i < post.len() && post[i] == q;
                if i < k {
                    assert(pre[i] == q);
                } else if i == k {
                } else {
                    assert(pre[i - 1] == q);
                }
            }
            assert forall|q: NodePointer| pre.contains(q) || q == p implies #[trigger] post.contains(
                q,
            ) by {
                if pre.contains(q) {
                    let i = choose|i: int| 0 <= i < pre.len() && pre[i] == q;
                    if i < k {
                        assert(post[i] == q);
                    } else {
                        assert(post[i + 1] == q);
                    }
                } else {
                    assert(post[k as int] == q);
                }
            }
        }
    }
}

/// Copies a pointer vector element by element.
pub(crate) fn copy_ptrs(v: &Vec<NodePointer>) -> (r: Vec<NodePointer>)
    ensures
        r@ == v@,
{
    let mut r: Vec<NodePointer> = Vec::new();
    let mut k: usize = 0;
    while k < v.len()
        invariant
            k <= v@.len(),
            r@ == v@.subrange(0, k as int),
        decreases v@.len() - k,
    {
        r.push(v[k]);
        k = k + 1;
        proof {
            assert(r@ =~= v@.subrange(0, k as int));
        }
    }
    proof {
        assert(r@ =~= v@);
    }
    r
}

/// Tests the zero-width predicate of a transition tag.
pub(crate) fn is_zero_width(k: &TransitionType, groups: bool) -> (r: bool)
    ensures
        r == zero_width(*k, groups),
{
    match k {
        TransitionType::Epsilon => true,
        TransitionType::Open(_) => groups,
        TransitionType::Close(_) => groups,
        _ => false,
    }
}

/// All transition destinations of the first `n` nodes, in order.
pub open spec fn dests_up_to(nfa: Nfa, n: int) -> Seq<NodePointer>
    decreases n,
{
    if n <= 0 {
        Seq::empty()
    } else {
        dests_up_to(nfa, n - 1) + nfa.trans(n - 1).map_values(|t: Transition| t.dest)
    }
}

pub(crate) proof fn lemma_dest_in_dests(nfa: Nfa, p: NodePointer, j: int, n: int)
    requires
        (p.id as int) < n,
        n <= nfa.nodes@.len(),
        0 <= j < nfa.trans(p.id as int).len(),
    ensures
        dests_up_to(nfa, n).contains(nfa.trans(p.id as int)[j].dest),
    decreases n,
{
    let d = nfa.trans(p.id as int)[j].dest;
    if p.id as int == n - 1 {
        let m = nfa.trans(n - 1).map_values(|t: Transition| t.dest);
        assert(m[j] == d);
        let pre = dests_up_to(nfa, n - 1);
        assert(dests_up_to(nfa, n)[pre.len() + j] == m[j]);
    } else {
        lemma_dest_in_dests(nfa, p, j, n - 1);
        let pre = dests_up_to(nfa, n - 1);
        let i = choose|i: int| 0 <= i < pre.len() && pre[i] == d;
        assert(dests_up_to(nfa, n)[i] == pre[i]);
    }
}

pub(crate) proof fn lemma_reach_base(nfa: Nfa, s: Set<NodePointer>, p: NodePointer, groups: bool)
    requires
        s.contains(p),
    ensures
        zw_reach(nfa, s, p, groups),
{
    let path = seq![p];
    assert(zw_path(nfa, path, groups));
    assert(path.last() == p);
}

pub(crate) proof fn lemma_reach_extend(
    nfa: Nfa,
    s: Set<NodePointer>,
    p: NodePointer,
    q: NodePointer,
    groups: bool,
)
    requires
        zw_reach(nfa, s, p, groups),
        zw_edge(nfa, p, q, groups),
    ensures
        zw_reach(nfa, s, q, groups),
{
    let path = choose|path: Seq<NodePointer>|
        path.len() > 0 && s.contains(path[0]) && path.last() == p && #[trigger] zw_path(
            nfa,
            path,
            groups,
        );
    let path2 = path.push(q);
    assert forall|i: int| #![trigger path2[i]] 0 <= i < path2.len() - 1 implies zw_edge(
        nfa,
        path2[i],
        path2[i + 1],
        groups,
    ) by {
        if i < path.len() - 1 {
            assert(path2[i] == path[i] && path2[i + 1] == path[i + 1]);
            assert(zw_edge(nfa, path[i], path[i + 1], groups));
        } else {
            assert(path2[i] == path.last() && path2[i + 1] == q);
        }
    }
    assert(path2.last() == q && s.contains(path2[0]));
    assert(zw_path(nfa, path2, groups));
}

/// A set that contains `s` and is closed under zero-width edges contains
/// the end of every zero-width path out of `s`.
pub(crate) proof fn lemma_path_in_closed(
    nfa: Nfa,
    s: Set<NodePointer>,
    r: Set<NodePointer>,
    path: Seq<NodePointer>,
    groups: bool,
)
    requires
        s.subset_of(r),
        forall|p: NodePointer, q: NodePointer|
            r.contains(p) && #[trigger] zw_edge(nfa, p, q, groups) ==> r.contains(q),
        path.len() > 0,
        s.contains(path[0]),
        zw_path(nfa, path, groups),
    ensures
        r.contains(path.last()),
    decreases path.len(),
{
    if path.len() == 1 {
        assert(r.contains(path[0]));
    } else {
        let head = path.drop_last();
        assert forall|i: int| #![trigger head[i]] 0 <= i < head.len() - 1 implies zw_edge(
            nfa,
            head[i],
            head[i + 1],
            groups,
        ) by {
            assert(head[i] == path[i] && head[i + 1] == path[i + 1]);
            assert(zw_edge(nfa, path[i], path[i + 1], groups));
        }
        assert(head[0] == path[0]);
        lemma_path_in_closed(nfa, s, r, head, groups);
        let i = path.len() - 2;
        assert(zw_edge(nfa, path[i], path[i + 1], groups));
        assert(head.last() == path[i]);
        assert(path[i + 1] == path.last());
    }
}

pub(crate) proof fn lemma_push_contains<A>(s: Seq<A>, x: A)
    ensures
        forall|q: A| #[trigger] s.push(x).contains(q) <==> (s.contains(q) || q == x),
{
    assert forall|q: A| #[trigger] s.push(x).contains(q) implies (s.contains(q) || q == x) by {
        let i = choose|i: int| 0 <= i < s.push(x).len() && s.push(x)[i] == q;
        if i < s.len() {
            assert(s[i] == q);
        }
    }
    assert forall|q: A| s.contains(q) || q == x implies #[trigger] s.push(x).contains(q) by {
        if s.contains(q) {
            let i = choose|i: int| 0 <= i < s.len() && s[i] == q;
            assert(s.push(x)[i] == q);
        } else {
            assert(s.push(x)[s.len() as int] == q);
        }
    }
}

/// Worklist computation of the zero-width closure of `init`.
#[verifier::loop_isolation(false)]
#[verifier::rlimit(60)]
pub(crate) fn closure_core(nfa: &Nfa, init: &Vec<NodePointer>, groups: bool) -> (r: Vec<NodePointer>)
    requires
        sorted_strict(init@),
    ensures
        sorted_strict(r@),
        r@.to_set() == zw_closure(*nfa, init@.to_set(), groups),
{
    let ghost s0: Set<NodePointer> = init@.to_set();
    let ghost uni: Seq<NodePointer> = init@ + dests_up_to(*nfa, nfa.nodes@.len() as int);
    let mut result = copy_ptrs(init);
    let mut pending = copy_ptrs(init);
    proof {
        assert forall|q: NodePointer| #[trigger] result@.contains(q) implies zw_reach(
            *nfa,
            s0,
            q,
            groups,
        ) by {
            lemma_reach_base(*nfa, s0, q, groups);
        }
        assert forall|q: NodePointer| #[trigger] result@.contains(q) implies uni.contains(q) by {
            let i = choose|i: int| 0 <= i < init@.len() && init@[i] == q;
            assert(uni[i] == q);
        }
    }
    while pending.len() > 0
        invariant
            sorted_strict(result@),
            forall|q: NodePointer| #[trigger] result@.contains(q) ==> uni.contains(q),
            forall|q: NodePointer| #[trigger] result@.contains(q) ==> zw_reach(*nfa, s0, q, groups),
            forall|q: NodePointer| init@.contains(q) ==> result@.contains(q),
            forall|q: NodePointer| pending@.contains(q) ==> result@.contains(q),
            forall|p: NodePointer, q: NodePointer|
                result@.contains(p) && !pending@.contains(p) && #[trigger] zw_edge(
                    *nfa,
                    p,
                    q,
                    groups,
                ) ==> result@.contains(q),
        decreases uni.to_set().len() - result@.len(), pending@.len(),
    {
        proof {
            lemma_sorted_no_dup(result@);
            result@.unique_seq_to_set();
            broadcast use vstd::seq_lib::seq_to_set_is_finite;

            assert(result@.to_set().subset_of(uni.to_set())) by {
                assert forall|q: NodePointer| result@.to_set().contains(q) implies uni.to_set()
                    .contains(q) by {
                    assert(result@.contains(q));
                    assert(uni.contains(q));
                }
            }
            lemma_len_subset(result@.to_set(), uni.to_set());
        }
        let ghost pre_pop = pending@;
        let popped = pending.pop();
        let p = popped.unwrap();
        let ghost pending_before = pending@;
        let ghost result_head: int = result@.len() as int;
        proof {
            assert(pre_pop =~= pending@.push(p));
            assert forall|x: NodePointer| #[trigger] pre_pop.contains(x) implies (pending@.contains(
                x,
            ) || x == p) by {
                let i = choose|i: int| 0 <= i < pre_pop.len() && pre_pop[i] == x;
                if i < pre_pop.len() - 1 {
                    assert(pending@[i] == x);
                }
            }
            assert forall|x: NodePointer| #[trigger] pending@.contains(x) implies pre_pop.contains(
                x,
            ) by {
                let i = choose|i: int| 0 <= i < pending@.len() && pending@[i] == x;
                assert(pre_pop[i] == x);
            }
            assert(pre_pop[pre_pop.len() - 1] == p);
            assert(pre_pop.contains(p));
            assert(result@.contains(p));
        }
        if p.id < nfa.nodes.len() {
            let mut j: usize = 0;
            while j < nfa.nodes[p.id].transitions.len()
                invariant
                    p.id < nfa.nodes@.len(),
                    j <= nfa.trans(p.id as int).len(),
                    sorted_strict(result@),
                    forall|q: NodePointer| #[trigger] result@.contains(q) ==> uni.contains(q),
                    forall|q: NodePointer| #[trigger] result@.contains(q) ==> zw_reach(
                        *nfa,
                        s0,
                        q,
                        groups,
                    ),
                    forall|q: NodePointer| init@.contains(q) ==> result@.contains(q),
                    forall|q: NodePointer| pending@.contains(q) ==> result@.contains(q),
                    forall|pp: NodePointer, q: NodePointer|
                        result@.contains(pp) && !pending@.contains(pp) && pp != p && #[trigger] zw_edge(
                            *nfa,
                            pp,
                            q,
                            groups,
                        ) ==> result@.contains(q),
                    forall|jj: int|
                        0 <= jj < j && zero_width(#[trigger] nfa.trans(p.id as int)[jj].kind, groups)
                            ==> result@.contains(nfa.trans(p.id as int)[jj].dest),
                    result@.contains(p),
                    result@.len() >= result_head,
                    pending@.len() - pending_before.len() == result@.len() - result_head,
                decreases nfa.trans(p.id as int).len() - j,
            {
                let t_dest = nfa.nodes[p.id].transitions[j].dest;
                let zw = is_zero_width(&nfa.nodes[p.id].transitions[j].kind, groups);
                if zw {
                    if !ptr_vec_has(&result, t_dest) {
                        proof {
                            assert(zw_edge(*nfa, p, t_dest, groups));
                            lemma_reach_extend(*nfa, s0, p, t_dest, groups);
                            lemma_dest_in_dests(*nfa, p, j as int, nfa.nodes@.len() as int);
                            let i = choose|i: int|
                                0 <= i < dests_up_to(*nfa, nfa.nodes@.len() as int).len()
                                    && dests_up_to(*nfa, nfa.nodes@.len() as int)[i] == t_dest;
                            assert(uni[init@.len() + i] == t_dest);
                        }
                        insert_sorted(&mut result, t_dest);
                        let ghost pend2 = pending@;
                        pending.push(t_dest);
                        proof {
                            lemma_push_contains(pend2, t_dest);
                            assert(pending@[pending@.len() - 1] == t_dest);
                            assert(pending@.contains(t_dest));
                        }
                    }
                }
                j = j + 1;
            }
            proof {
                assert forall|q: NodePointer| #[trigger] zw_edge(*nfa, p, q, groups) implies result@.contains(
                    q,
                ) by {
                    let jj = choose|jj: int|
                        0 <= jj < nfa.trans(p.id as int).len() && #[trigger] zero_width(
                            nfa.trans(p.id as int)[jj].kind,
                            groups,
                        ) && nfa.trans(p.id as int)[jj].dest == q;
                    assert(result@.contains(nfa.trans(p.id as int)[jj].dest));
                }
            }
        } else {
            proof {
                assert forall|q: NodePointer| #[trigger] zw_edge(*nfa, p, q, groups) implies result@.contains(
                    q,
                ) by {
                    assert(nfa.valid_ptr(p));
                }
            }
        }
        proof {
            lemma_sorted_no_dup(result@);
            result@.unique_seq_to_set();
            broadcast use vstd::seq_lib::seq_to_set_is_finite;

            assert(result@.to_set().subset_of(uni.to_set())) by {
                assert forall|q: NodePointer| result@.to_set().contains(q) implies uni.to_set()
                    .contains(q) by {
                    assert(result@.contains(q));
                    assert(uni.contains(q));
                }
            }
            lemma_len_subset(result@.to_set(), uni.to_set());
        }
    }
    proof {
        let rset = result@.to_set();
        assert(s0.subset_of(rset)) by {
            assert forall|q: NodePointer| s0.contains(q) implies rset.contains(q) by {
                assert(init@.contains(q));
                assert(result@.contains(q));
            }
        }
        assert forall|p: NodePointer, q: NodePointer|
            rset.contains(p) && #[trigger] zw_edge(*nfa, p, q, groups) implies rset.contains(q) by {
            assert(result@.contains(p));
            assert(result@.contains(q));
        }
        assert forall|q: NodePointer| zw_closure(*nfa, s0, groups).contains(q) implies rset.contains(
            q,
        ) by {
            let path = choose|path: Seq<NodePointer>|
                path.len() > 0 && s0.contains(path[0]) && path.last() == q && #[trigger] zw_path(
                    *nfa,
                    path,
                    groups,
                );
            lemma_path_in_closed(*nfa, s0, rset, path, groups);
        }
        assert forall|q: NodePointer| rset.contains(q) implies zw_closure(*nfa, s0, groups).contains(
            q,
        ) by {
            assert(result@.contains(q));
        }
        assert(rset =~= zw_closure(*nfa, s0, groups));
    }
    result
}


/// Whether the string `s` holds the character `c`.
pub(crate) fn str_contains_char(s: &str, c: char) -> (r: bool)
    ensures
        r == s@.contains(c),
{
    let n = s.unicode_len();
    let mut k: usize = 0;
    while k < n
        invariant
            n == s@.len(),
            k <= n,
            forall|i: int| 0 <= i < k ==> s@[i] != c,
        decreases n - k,
    {
        if s.get_char(k) == c {
            proof {
                assert(s@[k as int] == c);
            }
            return true;
        }
        k = k + 1;
    }
    proof {
        if s@.contains(c) {
            let i = choose|i: int| 0 <= i < s@.len() && s@[i] == c;
            assert(false);
        }
    }
    false
}

/// Tests one transition tag against one input character.
pub(crate) fn char_matches_exec(k: &TransitionType, c: char) -> (r: bool)
    ensures
        r == char_matches(*k, c),
{
    match k {
        TransitionType::Alpha(a) => *a == c,
        TransitionType::Range(s) => str_contains_char(s.as_str(), c),
        TransitionType::NegativeRange(s) => !str_contains_char(s.as_str(), c),
        _ => false,
    }
}

/// `q` is the destination of a character-matching transition out of one of
/// the first `bound` pointers of `ptrs`.
spec fn hit_from(nfa: Nfa, ptrs: Seq<NodePointer>, bound: int, c: char, q: NodePointer) -> bool {
    exists|kk: int, j: int|
        0 <= kk < bound && nfa.valid_ptr(ptrs[kk]) && 0 <= j < nfa.trans(ptrs[kk].id as int).len()
            && char_matches(#[trigger] nfa.trans(ptrs[kk].id as int)[j].kind, c) && nfa.trans(
            ptrs[kk].id as int,
        )[j].dest == q
}

/// `q` is the destination of one of the first `jbound` transitions of node
/// `p` that matches `c`.
spec fn hit_at(nfa: Nfa, p: NodePointer, jbound: int, c: char, q: NodePointer) -> bool {
    nfa.valid_ptr(p) && exists|j: int|
        0 <= j < jbound && j < nfa.trans(p.id as int).len() && char_matches(
            #[trigger] nfa.trans(p.id as int)[j].kind,
            c,
        ) && nfa.trans(p.id as int)[j].dest == q
}

/// A simulation context: the set of automaton nodes currently active, held
/// in canonical (strictly ascending) order.  Contexts are recomputed, never
/// mutated, so any number of them may walk one automaton independently.
#[derive(Debug, Clone)]
pub struct Context {
    pub nodes: Vec<NodePointer>,
}

impl Context {
    /// Canonical form: node indices strictly ascending, so no duplicates.
    pub open spec fn wf(&self) -> bool {
        sorted_strict(self.nodes@)
    }

    /// The set of active nodes this context denotes.
    pub open spec fn as_set(&self) -> Set<NodePointer> {
        self.nodes@.to_set()
    }

    /// Builds the context holding exactly the given pointers.
    pub fn new(nodes: Vec<NodePointer>) -> (r: Self)
        ensures
            r.wf(),
            r.as_set() == nodes@.to_set(),
    {
        let mut v: Vec<NodePointer> = Vec::new();
        let mut k: usize = 0;
        while k < nodes.len()
            invariant
                k <= nodes@.len(),
                sorted_strict(v@),
                forall|q: NodePointer| #[trigger] v@.contains(q) <==> nodes@.subrange(
                    0,
                    k as int,
                ).contains(q),
            decreases nodes@.len() - k,
        {
            let ghost pre = nodes@.subrange(0, k as int);
            insert_sorted(&mut v, nodes[k]);
            k = k + 1;
            proof {
                assert(nodes@.subrange(0, k as int) =~= pre.push(nodes@[k - 1]));
                lemma_push_contains(pre, nodes@[k - 1]);
            }
        }
        proof {
            assert(nodes@.subrange(0, nodes@.len() as int) =~= nodes@);
            assert(v@.to_set() =~= nodes@.to_set());
        }
        Self { nodes: v }
    }

    /// Whether node `i` is active in this context.
    pub fn contains(&self, i: &NodePointer) -> (r: bool)
        ensures
            r == self.as_set().contains(*i),
    {
        ptr_vec_has(&self.nodes, *i)
    }

    /// How many nodes are active.
    pub fn len(&self) -> (r: usize)
        ensures
            r == self.nodes@.len(),
            self.wf() ==> r == self.as_set().len(),
    {
        proof {
            if self.wf() {
                lemma_sorted_no_dup(self.nodes@);
                self.nodes@.unique_seq_to_set();
            }
        }
        self.nodes.len()
    }

    /// Advances the active set across the input symbol `input`: every
    /// matching `Alpha`, `Range` or `NegativeRange` transition out of an
    /// active node contributes its destination, and the collected set is
    /// closed under epsilon edges.  Semantic-predicate and capture-marker
    /// transitions never match a character.  The receiver is not changed.
    pub fn step(&self, nfa: &Nfa, input: char) -> (r: Self)
        ensures
            r.wf(),
            r.as_set() == step_spec(*nfa, self.as_set(), input),
    {
        let closed = step_core(nfa, &self.nodes, input, false);
        Self { nodes: closed }
    }
}

/// One simulation step over an arbitrary pointer vector: consume `input`
/// across the matching transitions of its members, then close the result
/// under zero-width edges (capture markers included when `groups` is set).
#[verifier::loop_isolation(false)]
#[verifier::rlimit(60)]
pub(crate) fn step_core(nfa: &Nfa, ptrs_in: &Vec<NodePointer>, input: char, groups: bool) -> (r:
    Vec<NodePointer>)
    ensures
        sorted_strict(r@),
        r@.to_set() == zw_closure(*nfa, step_once(*nfa, ptrs_in@.to_set(), input), groups),
    {
        let ptrs = ptrs_in;
        let mut hits: Vec<NodePointer> = Vec::new();
        let mut k: usize = 0;
        while k < ptrs.len()
            invariant
                k <= ptrs@.len(),
                sorted_strict(hits@),
                forall|q: NodePointer| #[trigger] hits@.contains(q) <==> hit_from(
                    *nfa,
                    ptrs@,
                    k as int,
                    input,
                    q,
                ),
            decreases ptrs@.len() - k,
        {
            let p = ptrs[k];
            if p.id < nfa.nodes.len() {
                let mut j: usize = 0;
                while j < nfa.nodes[p.id].transitions.len()
                    invariant
                        j <= nfa.trans(p.id as int).len(),
                        sorted_strict(hits@),
                        forall|q: NodePointer| #[trigger] hits@.contains(q) <==> (hit_from(
                            *nfa,
                            ptrs@,
                            k as int,
                            input,
                            q,
                        ) || hit_at(*nfa, p, j as int, input, q)),
                    decreases nfa.trans(p.id as int).len() - j,
                {
                    let matched = char_matches_exec(&nfa.nodes[p.id].transitions[j].kind, input);
                    let ghost jj: int = j as int;
                    if matched {
                        let d = nfa.nodes[p.id].transitions[j].dest;
                        insert_sorted(&mut hits, d);
                        proof {
                            assert(hit_at(*nfa, p, jj + 1, input, d));
                        }
                    }
                    j = j + 1;
                    proof {
                        assert forall|q: NodePointer|
                            hit_at(*nfa, p, jj + 1, input, q) && q != nfa.trans(
                                p.id as int,
                            )[jj].dest implies hit_at(*nfa, p, jj, input, q) by {
                            let j2 = choose|j2: int|
                                0 <= j2 < jj + 1 && j2 < nfa.trans(p.id as int).len()
                                    && char_matches(
                                    #[trigger] nfa.trans(p.id as int)[j2].kind,
                                    input,
                                ) && nfa.trans(p.id as int)[j2].dest == q;
                            assert(j2 < jj);
                        }
                        if !char_matches(nfa.trans(p.id as int)[jj].kind, input) {
                            assert forall|q: NodePointer|
                                hit_at(*nfa, p, jj + 1, input, q) implies hit_at(
                                *nfa,
                                p,
                                jj,
                                input,
                                q,
                            ) by {
                                let j2 = choose|j2: int|
                                    0 <= j2 < jj + 1 && j2 < nfa.trans(p.id as int).len()
                                        && char_matches(
                                        #[trigger] nfa.trans(p.id as int)[j2].kind,
                                        input,
                                    ) && nfa.trans(p.id as int)[j2].dest == q;
                                assert(j2 < jj);
                            }
                        }
                    }
                }
            }
            k = k + 1;
            proof {
                let kk: int = k as int;
                assert forall|q: NodePointer|
                    hit_from(*nfa, ptrs@, kk, input, q) implies (hit_from(
                    *nfa,
                    ptrs@,
                    kk - 1,
                    input,
                    q,
                ) || hit_at(*nfa, ptrs@[kk - 1], nfa.trans(ptrs@[kk - 1].id as int).len() as int, input, q)) by {
                    let (k2, j2): (int, int) = choose|k2: int, j2: int|
                        0 <= k2 < kk && nfa.valid_ptr(ptrs@[k2]) && 0 <= j2 < nfa.trans(
                            ptrs@[k2].id as int,
                        ).len() && char_matches(
                            #[trigger] nfa.trans(ptrs@[k2].id as int)[j2].kind,
                            input,
                        ) && nfa.trans(ptrs@[k2].id as int)[j2].dest == q;
                    if k2 == kk - 1 {
                        assert(hit_at(
                            *nfa,
                            ptrs@[kk - 1],
                            nfa.trans(ptrs@[kk - 1].id as int).len() as int,
                            input,
                            q,
                        ));
                    }
                }
                assert forall|q: NodePointer|
                    hit_at(
                        *nfa,
                        ptrs@[kk - 1],
                        nfa.trans(ptrs@[kk - 1].id as int).len() as int,
                        input,
                        q,
                    ) implies hit_from(*nfa, ptrs@, kk, input, q) by {
                    let p2 = ptrs@[kk - 1];
                    let j2 = choose|j2: int|
                        0 <= j2 < nfa.trans(p2.id as int).len() && char_matches(
                            #[trigger] nfa.trans(p2.id as int)[j2].kind,
                            input,
                        ) && nfa.trans(p2.id as int)[j2].dest == q;
                    assert(hit_from(*nfa, ptrs@, kk, input, q));
                }
            }
        }
        proof {
            let sset = ptrs_in@.to_set();
            assert forall|q: NodePointer| #[trigger] hits@.contains(q) implies step_once(
                *nfa,
                sset,
                input,
            ).contains(q) by {
                let (k2, j2): (int, int) = choose|k2: int, j2: int|
                    0 <= k2 < ptrs@.len() && nfa.valid_ptr(ptrs@[k2]) && 0 <= j2 < nfa.trans(
                        ptrs@[k2].id as int,
                    ).len() && char_matches(
                        #[trigger] nfa.trans(ptrs@[k2].id as int)[j2].kind,
                        input,
                    ) && nfa.trans(ptrs@[k2].id as int)[j2].dest == q;
                assert(ptrs@.contains(ptrs@[k2]));
                assert(sset.contains(ptrs@[k2]));
            }
            assert forall|q: NodePointer| step_once(*nfa, sset, input).contains(q) implies hits@.contains(
                q,
            ) by {
                let (p2, j2): (NodePointer, int) = choose|p2: NodePointer, j2: int|
                    sset.contains(p2) && nfa.valid_ptr(p2) && 0 <= j2 < nfa.trans(
                        p2.id as int,
                    ).len() && char_matches(#[trigger] nfa.trans(p2.id as int)[j2].kind, input)
                        && nfa.trans(p2.id as int)[j2].dest == q;
                assert(ptrs@.contains(p2));
                let k2 = choose|k2: int| 0 <= k2 < ptrs@.len() && ptrs@[k2] == p2;
                assert(hit_from(*nfa, ptrs@, ptrs@.len() as int, input, q));
            }
            assert(hits@.to_set() =~= step_once(*nfa, sset, input));
        }
        closure_core(nfa, &hits, groups)
    }

impl Context {
    /// Closes `nodes` under epsilon transitions, to a fixpoint: the result
    /// holds the given nodes and every node reachable from them along
    /// epsilon edges, and nothing else.
    pub fn add_epsilons(nodes: Vec<NodePointer>, nfa: &Nfa) -> (r: Self)
        ensures
            r.wf(),
            r.as_set() == eps_closure(*nfa, nodes@.to_set()),
    {
        let seed = Context::new(nodes);
        let closed = closure_core(nfa, &seed.nodes, false);
        Self { nodes: closed }
    }
}


/// A compiled pattern: an automaton together with its designated start and
/// accepting nodes.
#[derive(Debug, Clone)]
pub struct NfaModel {
    pub nfa: Nfa,
    pub start: NodePointer,
    pub end: NodePointer,
}

impl NfaModel {
    pub fn new(nfa: Nfa, start: NodePointer, end: NodePointer) -> (r: Self)
        ensures
            r.nfa == nfa && r.start == start && r.end == end,
    {
        Self { nfa, start, end }
    }
}

/// Epsilon-closure is idempotent: closing an already-closed set yields the
/// same set.
pub proof fn lemma_eps_closure_idempotent(nfa: Nfa, s: Set<NodePointer>)
    ensures
        eps_closure(nfa, eps_closure(nfa, s)) == eps_closure(nfa, s),
{
    let c = eps_closure(nfa, s);
    assert forall|p: NodePointer, q: NodePointer|
        c.contains(p) && #[trigger] zw_edge(nfa, p, q, false) implies c.contains(q) by {
        lemma_reach_extend(nfa, s, p, q, false);
    }
    assert forall|q: NodePointer| eps_closure(nfa, c).contains(q) implies c.contains(q) by {
        let path = choose|path: Seq<NodePointer>|
            path.len() > 0 && c.contains(path[0]) && path.last() == q && #[trigger] zw_path(
                nfa,
                path,
                false,
            );
        lemma_path_in_closed(nfa, c, c, path, false);
    }
    assert forall|q: NodePointer| c.contains(q) implies eps_closure(nfa, c).contains(q) by {
        lemma_reach_base(nfa, c, q, false);
    }
    assert(eps_closure(nfa, c) =~= c);
}

/// A node enters a stepped context only through a transition whose tag
/// matches the consumed character: for any character, a transition
/// restricted to a different literal or set contributes no destination, so
/// everything in the stepped set is epsilon-reachable from the destination
/// of some transition that did match.
pub proof fn lemma_step_requires_match(nfa: Nfa, s: Set<NodePointer>, c: char, q: NodePointer)
    requires
        step_spec(nfa, s, c).contains(q),
    ensures
        exists|p: NodePointer, j: int|
            s.contains(p) && nfa.valid_ptr(p) && 0 <= j < nfa.trans(p.id as int).len()
                && char_matches(#[trigger] nfa.trans(p.id as int)[j].kind, c) && zw_reach(
                nfa,
                Set::empty().insert(nfa.trans(p.id as int)[j].dest),
                q,
                false,
            ),
{
    let path = choose|path: Seq<NodePointer>|
        path.len() > 0 && step_once(nfa, s, c).contains(path[0]) && path.last() == q
            && #[trigger] zw_path(nfa, path, false);
    let (p, j): (NodePointer, int) = choose|p: NodePointer, j: int|
        s.contains(p) && nfa.valid_ptr(p) && 0 <= j < nfa.trans(p.id as int).len() && char_matches(
            #[trigger] nfa.trans(p.id as int)[j].kind,
            c,
        ) && nfa.trans(p.id as int)[j].dest == path[0];
    let d = nfa.trans(p.id as int)[j].dest;
    assert(Set::empty().insert(d).contains(path[0]));
    assert(zw_reach(nfa, Set::empty().insert(d), q, false));
}

} // verus!
