//! The automaton core: state reservation, transition insertion with
//! incremental epsilon-closure maintenance, and subset simulation.

use vstd::prelude::*;

use crate::automaton::reach::eps_reaches;
use crate::automaton::reach::lemma_no_out_edge;
use crate::automaton::reach::lemma_pred_closed;
use crate::automaton::reach::lemma_reach_endpoints;
use crate::automaton::reach::lemma_reach_mono;
use crate::automaton::reach::lemma_reaches_insert;
use crate::automaton::reach::lemma_reaches_trans;
use crate::automaton::reach::reach_n;

verus! {

broadcast use vstd::seq_lib::lemma_seq_contains_after_push;

/// Number of state identifiers available to all automata sharing a space.
pub const NODE_LIMIT: usize = 1000;

/// Errors reported by automaton construction.
#[derive(Debug, PartialEq, Eq, Structural)]
pub enum NFAError {
    /// A supplied state identifier is not owned by the automaton.
    NonReservedState,
    /// A reservation request overlaps an already reserved identifier.
    AlreadyReservedState,
}

/// A nondeterministic finite automaton over integer state identifiers in
/// `[0, NODE_LIMIT)`.
#[derive(Debug)]
pub struct NFA {
    /// The designated initial state.
    pub start: i32,
    /// The designated accepting state.
    pub finish: i32,
    /// `reserved_state[s]` holds when this automaton owns state `s`.
    reserved_state: Vec<bool>,
    /// Labeled moves, epsilon included: `(a, c, b)` is a move from `a`
    /// to `b` on symbol `c`. Free of duplicates.
    move_table: Vec<(i32, char, i32)>,
    /// The pairs `(p, q)` with `q` epsilon-reachable from `p` through one or
    /// more epsilon moves: the eagerly maintained transitive closure.
    epsilon_forward: Vec<(i32, i32)>,
    /// The direct epsilon edges `(p, q)`, kept as the back-edge index that
    /// closure maintenance walks.
    epsilon_backward: Vec<(i32, i32)>,
}

impl NFA {
    /// The designated initial state, for contracts.
    pub closed spec fn spec_start(self) -> i32 {
        self.start
    }

    /// The designated accepting state, for contracts.
    pub closed spec fn spec_finish(self) -> i32 {
        self.finish
    }

    /// State `s` is currently owned by this automaton.
    pub closed spec fn is_reserved_spec(self, s: i32) -> bool {
        0 <= s < (NODE_LIMIT as i32) && self.reserved_state@[s as int]
    }

    /// The automaton has a move from `a` to `b` on symbol `c`.
    pub closed spec fn has_edge(self, a: i32, c: char, b: i32) -> bool {
        self.move_table@.contains((a, c, b))
    }

    /// The direct epsilon edges of the transition relation.
    pub open spec fn eps_edges(self) -> Set<(i32, i32)> {
        Set::new(|pq: (i32, i32)| self.has_edge(pq.0, '@', pq.1))
    }

    /// `q` stands in the maintained forward closure entry of `p`.
    pub closed spec fn fwd_contains(self, p: i32, q: i32) -> bool {
        self.epsilon_forward@.contains((p, q))
    }

    /// The back-edge index records the direct epsilon edge `(p, q)`.
    pub closed spec fn bwd_contains(self, p: i32, q: i32) -> bool {
        self.epsilon_backward@.contains((p, q))
    }

    /// Well-formedness: the tables have capacity for every identifier, hold
    /// no duplicate entries, mention reserved states only, the back-edge
    /// index records exactly the direct epsilon edges, and the forward table
    /// is exactly epsilon reachability over the inserted edges.
    pub closed spec fn inv(self) -> bool {
        &&& self.reserved_state@.len() == NODE_LIMIT as int
        &&& self.move_table@.no_duplicates()
        &&& self.epsilon_forward@.no_duplicates()
        &&& self.epsilon_backward@.no_duplicates()
        &&& forall|a: i32, c: char, b: i32| #[trigger]
            self.has_edge(a, c, b) ==> self.is_reserved_spec(a) && self.is_reserved_spec(b)
        &&& forall|p: i32, q: i32| #[trigger]
            self.bwd_contains(p, q) <==> self.has_edge(p, '@', q)
        &&& forall|p: i32, q: i32| #[trigger]
            self.fwd_contains(p, q) <==> eps_reaches(self.eps_edges(), p, q)
    }
}

/// How many entries of a visit-mark table are set.
spec fn count_trues(s: Seq<bool>) -> int
    decreases s.len(),
{
    if s.len() == 0 {
        0
    } else {
        count_trues(s.drop_last()) + if s.last() {
            1int
        } else {
            0int
        }
    }
}

proof fn lemma_count_trues_bound(s: Seq<bool>)
    ensures
        0 <= count_trues(s) <= s.len(),
    decreases s.len(),
{
    if s.len() > 0 {
        lemma_count_trues_bound(s.drop_last());
    }
}

proof fn lemma_count_trues_update(s: Seq<bool>, i: int)
    requires
        0 <= i < s.len(),
        !s[i],
    ensures
        count_trues(s.update(i, true)) == count_trues(s) + 1,
    decreases s.len(),
{
    if i == s.len() - 1 {
        assert(s.update(i, true).drop_last() =~= s.drop_last());
    } else {
        assert(s.update(i, true).drop_last() =~= s.drop_last().update(i, true));
        lemma_count_trues_update(s.drop_last(), i);
    }
}

/// State `x` is marked in a visit table of the full capacity.
spec fn vis_state(v: Seq<bool>, x: i32) -> bool {
    0 <= x < NODE_LIMIT as i32 && v[x as int]
}

/// Removing the last element of a duplicate-free list removes exactly that
/// element.
proof fn lemma_drop_last_contains(s: Seq<i32>)
    requires
        s.no_duplicates(),
        s.len() > 0,
    ensures
        s.drop_last().no_duplicates(),
        forall|y: i32| #[trigger]
            s.drop_last().contains(y) <==> (s.contains(y) && y != s.last()),
{
    assert forall|y: i32| #[trigger]
        s.drop_last().contains(y) <==> (s.contains(y) && y != s.last()) by {
        if s.drop_last().contains(y) {
            let i = choose|i: int| 0 <= i < s.drop_last().len() && s.drop_last()[i] == y;
            assert(s[i] == y);
            assert(s[i] != s[s.len() - 1]);
            assert(s.contains(y));
        }
        if s.contains(y) && y != s.last() {
            let i = choose|i: int| 0 <= i < s.len() && s[i] == y;
            assert(i != s.len() - 1);
            assert(s.drop_last()[i] == y);
            assert(s.drop_last().contains(y));
        }
    }
}

/// Linear scan of a state list for one state.
fn state_list_has(list: &Vec<i32>, x: i32) -> (r: bool)
    ensures
        r == list@.contains(x),
{
    let mut i: usize = 0;
    while i < list.len()
        invariant
            i <= list@.len(),
            forall|j: int| 0 <= j < i ==> list@[j] != x,
        decreases list@.len() - i,
    {
        if list[i] == x {
            return true;
        }
        i = i + 1;
    }
    false
}

/// Appends a state unless the list already holds it.
fn state_list_insert(list: &mut Vec<i32>, x: i32)
    requires
        old(list)@.no_duplicates(),
    ensures
        final(list)@.no_duplicates(),
        forall|y: i32| final(list)@.contains(y) <==> (old(list)@.contains(y) || y == x),
{
    if !state_list_has(list, x) {
        list.push(x);
    }
}

/// Linear scan of a pair list for one pair.
fn pair_list_has(list: &Vec<(i32, i32)>, p: i32, q: i32) -> (r: bool)
    ensures
        r == list@.contains((p, q)),
{
    let mut i: usize = 0;
    while i < list.len()
        invariant
            i <= list@.len(),
            forall|j: int| 0 <= j < i ==> list@[j] != (p, q),
        decreases list@.len() - i,
    {
        let (x, y) = list[i];
        if x == p && y == q {
            assert(list@[i as int] == (p, q));
            return true;
        }
        i = i + 1;
    }
    false
}

/// Appends a pair unless the list already holds it.
fn pair_list_insert(list: &mut Vec<(i32, i32)>, p: i32, q: i32)
    requires
        old(list)@.no_duplicates(),
    ensures
        final(list)@.no_duplicates(),
        forall|x: i32, y: i32| final(list)@.contains((x, y)) <==> (old(list)@.contains((x, y))
            || (x == p && y == q)),
{
    if !pair_list_has(list, p, q) {
        list.push((p, q));
    }
}

/// Linear scan of the move table for one move.
fn move_list_has(list: &Vec<(i32, char, i32)>, a: i32, c: char, b: i32) -> (r: bool)
    ensures
        r == list@.contains((a, c, b)),
{
    let mut i: usize = 0;
    while i < list.len()
        invariant
            i <= list@.len(),
            forall|j: int| 0 <= j < i ==> list@[j] != (a, c, b),
        decreases list@.len() - i,
    {
        let (x, s, y) = list[i];
        if x == a && s == c && y == b {
            assert(list@[i as int] == (a, c, b));
            return true;
        }
        i = i + 1;
    }
    false
}

impl NFA {
    /// Whether the automaton owns `state`. Identifiers outside
    /// `[0, NODE_LIMIT)` are reported as not reserved.
    pub fn check_state(&self, state: &i32) -> (r: bool)
        requires
            self.inv(),
        ensures
            r == self.is_reserved_spec(*state),
    {
        if 0 <= *state && *state < NODE_LIMIT as i32 {
            return self.reserved_state[*state as usize];
        }
        false
    }

    /// Builds an automaton owning the inclusive state range
    /// `[state_f, state_t]`, with `state_f` as start and `state_t` as finish
    /// and no transitions. An empty range (`state_f > state_t`) yields an
    /// automaton that owns no states.
    pub fn new(state_f: i32, state_t: i32) -> (nfa: NFA)
        requires
            state_f <= state_t ==> 0 <= state_f && state_t < NODE_LIMIT as i32,
        ensures
            nfa.inv(),
            nfa.spec_start() == state_f,
            nfa.spec_finish() == state_t,
            forall|s: i32| nfa.is_reserved_spec(s) <==> state_f <= s <= state_t,
            forall|a: i32, c: char, b: i32| !nfa.has_edge(a, c, b),
            forall|p: i32, q: i32| !nfa.fwd_contains(p, q),
    {
        let mut reserved: Vec<bool> = Vec::new();
        let mut i: usize = 0;
        while i < NODE_LIMIT
            invariant
                i == reserved@.len(),
                i <= NODE_LIMIT,
                forall|j: int| 0 <= j < i ==> (reserved@[j] <==> state_f as int <= j
                    <= state_t as int),
            decreases NODE_LIMIT - i,
        {
            reserved.push(state_f <= i as i32 && i as i32 <= state_t);
            i = i + 1;
        }
        let nfa = NFA {
            start: state_f,
            finish: state_t,
            reserved_state: reserved,
            move_table: Vec::new(),
            epsilon_forward: Vec::new(),
            epsilon_backward: Vec::new(),
        };
        proof {
            assert forall|p: i32, q: i32| !eps_reaches(nfa.eps_edges(), p, q) by {
                lemma_no_out_edge(nfa.eps_edges(), p, q);
            }
        }
        nfa
    }

    /// Extends the automaton's owned state space by the inclusive range
    /// `[state_f, state_t]`. Fails with `AlreadyReservedState`, changing
    /// nothing, when any state of the range is already reserved: the whole
    /// range is checked before any state is marked.
    pub fn reserve(nfa: NFA, state_f: i32, state_t: i32) -> (r: Result<NFA, NFAError>)
        requires
            nfa.inv(),
            state_f <= state_t ==> 0 <= state_f && state_t < NODE_LIMIT as i32,
        ensures
            match r {
                Ok(n) => {
                    &&& forall|s: i32| state_f <= s <= state_t ==> !nfa.is_reserved_spec(s)
                    &&& n.inv()
                    &&& n.spec_start() == nfa.spec_start()
                    &&& n.spec_finish() == nfa.spec_finish()
                    &&& forall|s: i32| #[trigger]
                        n.is_reserved_spec(s) <==> (nfa.is_reserved_spec(s) || (state_f <= s
                            <= state_t))
                    &&& forall|a: i32, c: char, b: i32| #[trigger]
                        n.has_edge(a, c, b) <==> nfa.has_edge(a, c, b)
                    &&& forall|p: i32, q: i32| #[trigger]
                        n.fwd_contains(p, q) <==> nfa.fwd_contains(p, q)
                },
                Err(e) => {
                    &&& e == NFAError::AlreadyReservedState
                    &&& exists|s: i32| state_f <= s <= state_t && nfa.is_reserved_spec(s)
                },
            },
    {
        if state_f > state_t {
            return Ok(nfa);
        }
        let mut s = state_f;
        while s <= state_t
            invariant
                nfa.inv(),
                0 <= state_f,
                state_t < NODE_LIMIT as i32,
                state_f <= s <= state_t + 1,
                forall|x: i32| state_f <= x < s ==> !nfa.is_reserved_spec(x),
            decreases state_t + 1 - s,
        {
            if nfa.check_state(&s) {
                return Err(NFAError::AlreadyReservedState);
            }
            s = s + 1;
        }
        let ghost orig = nfa;
        let mut nfa = nfa;
        let mut s = state_f;
        while s <= state_t
            invariant
                orig.inv(),
                0 <= state_f,
                state_t < NODE_LIMIT as i32,
                state_f <= s <= state_t + 1,
                nfa.start == orig.start,
                nfa.finish == orig.finish,
                nfa.move_table@ == orig.move_table@,
                nfa.epsilon_forward@ == orig.epsilon_forward@,
                nfa.epsilon_backward@ == orig.epsilon_backward@,
                nfa.reserved_state@.len() == NODE_LIMIT as int,
                forall|x: i32| #[trigger]
                    nfa.is_reserved_spec(x) <==> (orig.is_reserved_spec(x) || (state_f <= x < s)),
            decreases state_t + 1 - s,
        {
            let ghost pre = nfa;
            nfa.reserved_state.set(s as usize, true);
            proof {
                assert forall|x: i32| #[trigger]
                    nfa.is_reserved_spec(x) <==> (orig.is_reserved_spec(x) || (state_f <= x < s
                        + 1)) by {
                    assert(pre.is_reserved_spec(x) <==> (orig.is_reserved_spec(x) || (state_f <= x
                        < s)));
                }
            }
            s = s + 1;
        }
        proof {
            Self::lemma_reserved_only_grown(orig, nfa);
        }
        Ok(nfa)
    }

    /// Combines the two automata's state spaces: the result owns every state
    /// of `nfa_a` and every state of `nfa_b`. Fails with
    /// `AlreadyReservedState` when the two own a common state; the overlap
    /// check covers the whole space before any state is claimed. Only the
    /// state space is combined: the second automaton's transitions and
    /// closures are not carried over, and the two designated merge states
    /// await the caller's bridging transitions and are unused here.
    pub fn merge(nfa_a: NFA, nfa_b: NFA, _merge_state_a: i32, _merge_state_b: i32) -> (r: Result<
        NFA,
        NFAError,
    >)
        requires
            nfa_a.inv(),
            nfa_b.inv(),
        ensures
            match r {
                Ok(n) => {
                    &&& forall|s: i32|
                        !(nfa_a.is_reserved_spec(s) && #[trigger] nfa_b.is_reserved_spec(s))
                    &&& n.inv()
                    &&& n.spec_start() == nfa_a.spec_start()
                    &&& n.spec_finish() == nfa_a.spec_finish()
                    &&& forall|s: i32| #[trigger]
                        n.is_reserved_spec(s) <==> (nfa_a.is_reserved_spec(s)
                            || nfa_b.is_reserved_spec(s))
                    &&& forall|a: i32, c: char, b: i32| #[trigger]
                        n.has_edge(a, c, b) <==> nfa_a.has_edge(a, c, b)
                    &&& forall|p: i32, q: i32| #[trigger]
                        n.fwd_contains(p, q) <==> nfa_a.fwd_contains(p, q)
                },
                Err(e) => {
                    &&& e == NFAError::AlreadyReservedState
                    &&& exists|s: i32|
                        nfa_a.is_reserved_spec(s) && #[trigger] nfa_b.is_reserved_spec(s)
                },
            },
    {
        let mut i: usize = 0;
        while i < NODE_LIMIT
            invariant
                nfa_a.inv(),
                nfa_b.inv(),
                i <= NODE_LIMIT,
                forall|x: i32|
                    0 <= x < i as i32 ==> !(nfa_a.is_reserved_spec(x)
                        && #[trigger] nfa_b.is_reserved_spec(x)),
            decreases NODE_LIMIT - i,
        {
            let si = i as i32;
            if nfa_a.check_state(&si) && nfa_b.check_state(&si) {
                return Err(NFAError::AlreadyReservedState);
            }
            i = i + 1;
        }
        let ghost orig = nfa_a;
        let mut nfa_a = nfa_a;
        let mut i: usize = 0;
        while i < NODE_LIMIT
            invariant
                orig.inv(),
                nfa_b.inv(),
                i <= NODE_LIMIT,
                nfa_a.start == orig.start,
                nfa_a.finish == orig.finish,
                nfa_a.move_table@ == orig.move_table@,
                nfa_a.epsilon_forward@ == orig.epsilon_forward@,
                nfa_a.epsilon_backward@ == orig.epsilon_backward@,
                nfa_a.reserved_state@.len() == NODE_LIMIT as int,
                forall|x: i32| #[trigger]
                    nfa_a.is_reserved_spec(x) <==> (orig.is_reserved_spec(x) || (
                    nfa_b.is_reserved_spec(x) && 0 <= x < i as i32)),
            decreases NODE_LIMIT - i,
        {
            let si = i as i32;
            if nfa_b.check_state(&si) {
                let ghost pre = nfa_a;
                nfa_a.reserved_state.set(i, true);
                proof {
                    assert forall|x: i32| #[trigger]
                        nfa_a.is_reserved_spec(x) <==> (orig.is_reserved_spec(x) || (
                        nfa_b.is_reserved_spec(x) && 0 <= x < i as i32 + 1)) by {
                        assert(pre.is_reserved_spec(x) <==> (orig.is_reserved_spec(x) || (
                        nfa_b.is_reserved_spec(x) && 0 <= x < i as i32)));
                    }
                }
            }
            i = i + 1;
        }
        proof {
            Self::lemma_reserved_only_grown(orig, nfa_a);
            assert forall|x: i32| #[trigger]
                nfa_a.is_reserved_spec(x) <==> (orig.is_reserved_spec(x)
                    || nfa_b.is_reserved_spec(x)) by {
                if nfa_b.is_reserved_spec(x) {
                    assert(0 <= x < NODE_LIMIT as i32);
                }
            }
        }
        Ok(nfa_a)
    }

    /// The set of states one `c`-labeled move away from `state`, as a list
    /// free of duplicates. An unreserved state has no moves, so its answer
    /// is empty rather than an error.
    pub fn get_closure(&self, state: &i32, c: &char) -> (r: Vec<i32>)
        requires
            self.inv(),
        ensures
            r@.no_duplicates(),
            forall|b: i32| r@.contains(b) <==> self.has_edge(*state, *c, b),
    {
        let mut result: Vec<i32> = Vec::new();
        if self.check_state(state) {
            let mut i: usize = 0;
            while i < self.move_table.len()
                invariant
                    self.inv(),
                    i <= self.move_table@.len(),
                    result@.no_duplicates(),
                    forall|b: i32|
                        result@.contains(b) <==> exists|j: int|
                            0 <= j < i && self.move_table@[j] == (*state, *c, b),
                decreases self.move_table@.len() - i,
            {
                let (x, s, y) = self.move_table[i];
                if x == *state && s == *c {
                    assert(self.move_table@[i as int] == (*state, *c, y));
                    state_list_insert(&mut result, y);
                }
                i = i + 1;
            }
            proof {
                assert forall|b: i32| result@.contains(b) <==> self.has_edge(*state, *c, b) by {
                    if self.has_edge(*state, *c, b) {
                        let j = choose|j: int|
                            0 <= j < self.move_table@.len() && self.move_table@[j] == (
                            *state,
                            *c,
                            b,
                            );
                        assert(exists|j: int|
                            0 <= j < self.move_table@.len() && self.move_table@[j] == (
                            *state,
                            *c,
                            b,
                            ));
                    }
                }
            }
        } else {
            proof {
                assert forall|b: i32| !self.has_edge(*state, *c, b) by {
                    if self.has_edge(*state, *c, b) {
                        assert(self.is_reserved_spec(*state));
                    }
                }
            }
        }
        result
    }

    /// The union of the epsilon-forward closures of the given states, as a
    /// list free of duplicates. States the automaton does not own contribute
    /// nothing.
    pub fn get_epsilon_closure(&self, states: &Vec<i32>) -> (r: Vec<i32>)
        requires
            self.inv(),
        ensures
            r@.no_duplicates(),
            forall|q: i32|
                r@.contains(q) <==> exists|p: i32|
                    states@.contains(p) && self.is_reserved_spec(p) && #[trigger] self.fwd_contains(
                        p,
                        q,
                    ),
    {
        let mut result: Vec<i32> = Vec::new();
        let mut k: usize = 0;
        while k < states.len()
            invariant
                self.inv(),
                k <= states@.len(),
                result@.no_duplicates(),
                forall|q: i32|
                    result@.contains(q) <==> exists|m: int|
                        0 <= m < k && self.is_reserved_spec(states@[m]) && #[trigger]
                        self.fwd_contains(states@[m], q),
            decreases states@.len() - k,
        {
            let p = states[k];
            if self.check_state(&p) {
                let mut t: usize = 0;
                while t < self.epsilon_forward.len()
                    invariant
                        self.inv(),
                        t <= self.epsilon_forward@.len(),
                        k < states@.len(),
                        p == states@[k as int],
                        self.is_reserved_spec(p),
                        result@.no_duplicates(),
                        forall|q: i32|
                            result@.contains(q) <==> ((exists|m: int|
                                0 <= m < k && self.is_reserved_spec(states@[m]) && #[trigger]
                                self.fwd_contains(states@[m], q)) || (exists|j: int|
                                0 <= j < t && self.epsilon_forward@[j] == (p, q))),
                    decreases self.epsilon_forward@.len() - t,
                {
                    let (a, b) = self.epsilon_forward[t];
                    if a == p {
                        assert(self.epsilon_forward@[t as int] == (p, b));
                        state_list_insert(&mut result, b);
                    }
                    t = t + 1;
                }
                proof {
                    assert forall|q: i32|
                        result@.contains(q) <==> ((exists|m: int|
                            0 <= m < k && self.is_reserved_spec(states@[m]) && #[trigger]
                            self.fwd_contains(states@[m], q)) || self.fwd_contains(p, q)) by {
                        if self.fwd_contains(p, q) {
                            let j = choose|j: int|
                                0 <= j < self.epsilon_forward@.len() && self.epsilon_forward@[j]
                                    == (p, q);
                            assert(exists|j: int|
                                0 <= j < self.epsilon_forward@.len() && self.epsilon_forward@[j]
                                    == (p, q));
                        }
                    }
                }
            }
            k = k + 1;
            proof {
                assert forall|q: i32|
                    result@.contains(q) <==> exists|m: int|
                        0 <= m < k && self.is_reserved_spec(states@[m]) && #[trigger]
                        self.fwd_contains(states@[m], q) by {
                    if result@.contains(q) {
                        let m = choose|m: int|
                            0 <= m < k - 1 && self.is_reserved_spec(states@[m])
                                && self.fwd_contains(states@[m], q);
                        if 0 <= m < k - 1 && self.is_reserved_spec(states@[m])
                            && self.fwd_contains(states@[m], q) {
                        } else {
                            assert(self.is_reserved_spec(states@[k - 1]) && self.fwd_contains(
                                states@[k - 1],
                                q,
                            ));
                        }
                    }
                }
            }
        }
        proof {
            assert forall|q: i32|
                result@.contains(q) <==> exists|p: i32|
                    states@.contains(p) && self.is_reserved_spec(p) && #[trigger]
                    self.fwd_contains(p, q) by {
                if result@.contains(q) {
                    let m = choose|m: int|
                        0 <= m < states@.len() && self.is_reserved_spec(states@[m])
                            && self.fwd_contains(states@[m], q);
                    assert(states@.contains(states@[m]));
                }
                if exists|p: i32|
                    states@.contains(p) && self.is_reserved_spec(p) && #[trigger] self.fwd_contains(
                        p,
                        q,
                    ) {
                    let p = choose|p: i32|
                        states@.contains(p) && self.is_reserved_spec(p) && #[trigger]
                        self.fwd_contains(p, q);
                    let m = choose|m: int| 0 <= m < states@.len() && states@[m] == p;
                    assert(self.is_reserved_spec(states@[m]) && self.fwd_contains(states@[m], q));
                }
            }
        }
        result
    }

    /// The states one `c`-labeled move away from any state of `s`.
    pub open spec fn step_set(self, s: Set<i32>, c: char) -> Set<i32> {
        Set::new(|b: i32| exists|a: i32| s.contains(a) && self.has_edge(a, c, b))
    }

    /// `s` together with everything epsilon-reachable from its reserved
    /// states; states the automaton does not own contribute nothing.
    pub open spec fn eps_extend(self, s: Set<i32>) -> Set<i32> {
        s.union(
            Set::new(
                |q: i32|
                    exists|p: i32|
                        s.contains(p) && self.is_reserved_spec(p) && self.fwd_contains(p, q),
            ),
        )
    }

    /// The active set after consuming `input`: the start state with its
    /// epsilon closure, then one labeled step extended by its own epsilon
    /// closure per symbol.
    pub open spec fn active_after(self, input: Seq<char>) -> Set<i32>
        decreases input.len(),
    {
        if input.len() == 0 {
            self.eps_extend(Set::empty().insert(self.spec_start()))
        } else {
            self.eps_extend(self.step_set(self.active_after(input.drop_last()), input.last()))
        }
    }

    /// Runs the automaton on `target` and reports whether the accepting
    /// state is active after the whole input is consumed.
    #[verifier::loop_isolation(false)]
    pub fn simulate(&self, target: String) -> (r: bool)
        requires
            self.inv(),
        ensures
            r == self.active_after(target@).contains(self.spec_finish()),
    {
        let ghost input = target@;
        let st = target.as_str();
        let n = st.unicode_len();
        let mut old_states: Vec<i32> = Vec::new();
        old_states.push(self.start);
        let eps0 = self.get_epsilon_closure(&old_states);
        let mut i0: usize = 0;
        while i0 < eps0.len()
            invariant
                i0 <= eps0@.len(),
                old_states@.no_duplicates(),
                forall|x: i32| #[trigger]
                    old_states@.contains(x) <==> (x == self.spec_start() || exists|j: int|
                        0 <= j < i0 && eps0@[j] == x),
            decreases eps0@.len() - i0,
        {
            state_list_insert(&mut old_states, eps0[i0]);
            i0 = i0 + 1;
        }
        proof {
            assert forall|x: i32| #[trigger]
                old_states@.contains(x) <==> self.active_after(input.take(0)).contains(x) by {
                let init = Set::empty().insert(self.spec_start());
                if old_states@.contains(x) && x != self.spec_start() {
                    let j = choose|j: int| 0 <= j < eps0@.len() && eps0@[j] == x;
                    assert(eps0@.contains(x));
                    let p = choose|p: i32|
                        #![auto]
                        Seq::empty().push(self.spec_start()).contains(p) && self.is_reserved_spec(p)
                            && self.fwd_contains(p, x);
                    assert(init.contains(p));
                }
                if self.active_after(input.take(0)).contains(x) && x != self.spec_start() {
                    let p = choose|p: i32|
                        #![auto]
                        init.contains(p) && self.is_reserved_spec(p) && self.fwd_contains(p, x);
                    assert(Seq::empty().push(self.spec_start()).contains(p));
                    assert(eps0@.contains(x));
                    let j = choose|j: int| 0 <= j < eps0@.len() && eps0@[j] == x;
                    assert(exists|j: int| 0 <= j < eps0@.len() && eps0@[j] == x);
                }
            }
        }
        let mut idx: usize = 0;
        while idx < n
            invariant
                idx <= n,
                n == input.len(),
                st@ == input,
                old_states@.no_duplicates(),
                forall|x: i32| #[trigger]
                    old_states@.contains(x) <==> self.active_after(
                        input.take(idx as int),
                    ).contains(x),
            decreases n - idx,
        {
            let c = st.get_char(idx);
            let ghost act = self.active_after(input.take(idx as int));
            // every state one c-move away from the active set
            let mut stepped: Vec<i32> = Vec::new();
            let mut k: usize = 0;
            while k < old_states.len()
                invariant
                    k <= old_states@.len(),
                    stepped@.no_duplicates(),
                    forall|b: i32| #[trigger]
                        stepped@.contains(b) <==> exists|m: int|
                            0 <= m < k && self.has_edge(old_states@[m], c, b),
                decreases old_states@.len() - k,
            {
                let a = old_states[k];
                let dests = self.get_closure(&a, &c);
                let ghost stepped0 = stepped@;
                let mut d: usize = 0;
                while d < dests.len()
                    invariant
                        d <= dests@.len(),
                        stepped@.no_duplicates(),
                        forall|b: i32| #[trigger]
                            stepped@.contains(b) <==> (stepped0.contains(b) || exists|w: int|
                                0 <= w < d && dests@[w] == b),
                    decreases dests@.len() - d,
                {
                    state_list_insert(&mut stepped, dests[d]);
                    d = d + 1;
                }
                proof {
                    assert forall|b: i32| #[trigger]
                        stepped@.contains(b) <==> exists|m: int|
                            0 <= m < k + 1 && self.has_edge(old_states@[m], c, b) by {
                        if stepped@.contains(b) {
                            if stepped0.contains(b) {
                                let m = choose|m: int|
                                    0 <= m < k && self.has_edge(old_states@[m], c, b);
                                assert(0 <= m < k + 1 && self.has_edge(old_states@[m], c, b));
                            } else {
                                let w = choose|w: int| 0 <= w < dests@.len() && dests@[w] == b;
                                assert(dests@.contains(b));
                                assert(self.has_edge(old_states@[k as int], c, b));
                            }
                        }
                        if exists|m: int| 0 <= m < k + 1 && self.has_edge(old_states@[m], c, b) {
                            let m = choose|m: int|
                                0 <= m < k + 1 && self.has_edge(old_states@[m], c, b);
                            if m < k {
                                assert(exists|m: int|
                                    0 <= m < k && self.has_edge(old_states@[m], c, b));
                            } else {
                                assert(dests@.contains(b));
                                let w = choose|w: int| 0 <= w < dests@.len() && dests@[w] == b;
                                assert(exists|w: int| 0 <= w < dests@.len() && dests@[w] == b);
                            }
                        }
                    }
                }
                k = k + 1;
            }
            proof {
                assert forall|b: i32| #[trigger]
                    stepped@.contains(b) <==> self.step_set(act, c).contains(b) by {
                    if stepped@.contains(b) {
                        let m = choose|m: int|
                            0 <= m < old_states@.len() && self.has_edge(old_states@[m], c, b);
                        assert(old_states@.contains(old_states@[m]));
                        assert(act.contains(old_states@[m]));
                    }
                    if self.step_set(act, c).contains(b) {
                        let a = choose|a: i32| act.contains(a) && self.has_edge(a, c, b);
                        assert(old_states@.contains(a));
                        let m = choose|m: int| 0 <= m < old_states@.len() && old_states@[m] == a;
                        assert(self.has_edge(old_states@[m], c, b));
                    }
                }
            }
            // extend the stepped set with its own epsilon closure
            let eps = self.get_epsilon_closure(&stepped);
            let mut next: Vec<i32> = stepped;
            let ghost next0 = next@;
            let mut g: usize = 0;
            while g < eps.len()
                invariant
                    g <= eps@.len(),
                    next@.no_duplicates(),
                    forall|x: i32| #[trigger]
                        next@.contains(x) <==> (next0.contains(x) || exists|w: int|
                            0 <= w < g && eps@[w] == x),
                decreases eps@.len() - g,
            {
                state_list_insert(&mut next, eps[g]);
                g = g + 1;
            }
            proof {
                let stepset = self.step_set(act, c);
                assert forall|x: i32| #[trigger]
                    next@.contains(x) <==> self.eps_extend(stepset).contains(x) by {
                    if next@.contains(x) {
                        if next0.contains(x) {
                            assert(stepset.contains(x));
                        } else {
                            let w = choose|w: int| 0 <= w < eps@.len() && eps@[w] == x;
                            assert(eps@.contains(x));
                            let p = choose|p: i32|
                                #![auto]
                                next0.contains(p) && self.is_reserved_spec(p) && self.fwd_contains(
                                    p,
                                    x,
                                );
                            assert(stepset.contains(p));
                        }
                    }
                    if self.eps_extend(stepset).contains(x) {
                        if stepset.contains(x) {
                            assert(next0.contains(x));
                        } else {
                            let p = choose|p: i32|
                                #![auto]
                                stepset.contains(p) && self.is_reserved_spec(p)
                                    && self.fwd_contains(p, x);
                            assert(next0.contains(p));
                            assert(eps@.contains(x));
                            let w = choose|w: int| 0 <= w < eps@.len() && eps@[w] == x;
                            assert(exists|w: int| 0 <= w < eps@.len() && eps@[w] == x);
                        }
                    }
                }
                assert(input.take(idx as int + 1).drop_last() =~= input.take(idx as int));
                assert(input.take(idx as int + 1).last() == input[idx as int]);
            }
            old_states = next;
            idx = idx + 1;
        }
        proof {
            assert(input.take(n as int) =~= input);
        }
        state_list_has(&old_states, self.finish)
    }

    /// Every field but the forward-closure table agrees with `other`.
    spec fn same_but_forward(self, other: NFA) -> bool {
        &&& self.move_table@ == other.move_table@
        &&& self.epsilon_backward@ == other.epsilon_backward@
        &&& self.reserved_state@ == other.reserved_state@
        &&& self.start == other.start
        &&& self.finish == other.finish
    }

    /// Connects a move from `state_a` to `state_b` on symbol `c`, where
    /// `'@'` stands for epsilon. An epsilon move also folds the states it
    /// newly reaches into the forward closure of every state that can reach
    /// `state_a`, keeping the closure tables exact. Fails with
    /// `NonReservedState`, changing nothing, unless the automaton owns both
    /// states. Inserting the same move twice adds nothing.
    #[verifier::loop_isolation(false)]
    pub fn set_chain(&mut self, state_a: i32, state_b: i32, c: char) -> (r: Result<(), NFAError>)
        requires
            old(self).inv(),
        ensures
            match r {
                Ok(()) => {
                    &&& old(self).is_reserved_spec(state_a)
                    &&& old(self).is_reserved_spec(state_b)
                    &&& final(self).inv()
                    &&& final(self).spec_start() == old(self).spec_start()
                    &&& final(self).spec_finish() == old(self).spec_finish()
                    &&& forall|s: i32| #[trigger]
                        final(self).is_reserved_spec(s) <==> old(self).is_reserved_spec(s)
                    &&& forall|x: i32, cc: char, y: i32| #[trigger]
                        final(self).has_edge(x, cc, y) <==> (old(self).has_edge(x, cc, y) || (x
                            == state_a && cc == c && y == state_b))
                },
                Err(e) => {
                    &&& e == NFAError::NonReservedState
                    &&& !(old(self).is_reserved_spec(state_a) && old(self).is_reserved_spec(
                        state_b,
                    ))
                    &&& *final(self) == *old(self)
                },
            },
    {
        if !(self.check_state(&state_a) && self.check_state(&state_b)) {
            return Err(NFAError::NonReservedState);
        }
        let ghost orig = *self;
        if !move_list_has(&self.move_table, state_a, c, state_b) {
            self.move_table.push((state_a, c, state_b));
        }
        proof {
            assert(self.move_table@.no_duplicates());
            assert(forall|x: i32, cc: char, y: i32| #[trigger]
                self.move_table@.contains((x, cc, y)) <==> (orig.has_edge(x, cc, y) || (x
                    == state_a && cc == c && y == state_b)));
        }
        if c == '@' {
            pair_list_insert(&mut self.epsilon_backward, state_a, state_b);
            pair_list_insert(&mut self.epsilon_forward, state_a, state_b);
            let ghost mid = *self;
            let ghost e_old = orig.eps_edges();
            let ghost e1 = e_old.insert((state_a, state_b));
            proof {
                assert(self.eps_edges() =~= e1);
                assert forall|x: i32, y: i32| #[trigger]
                    self.epsilon_backward@.contains((x, y)) <==> e1.contains((x, y)) by {
                    assert(orig.bwd_contains(x, y) <==> orig.has_edge(x, '@', y));
                }
                assert forall|x: i32, y: i32| #[trigger]
                    e1.contains((x, y)) implies orig.is_reserved_spec(x) && orig.is_reserved_spec(
                    y,
                ) by {
                    if !(x == state_a && y == state_b) {
                        assert(orig.has_edge(x, '@', y));
                    }
                }
            }
            // the states newly reachable by whoever reaches state_a: all of
            // forward[state_a], the fresh direct edge included, and all of
            // forward[state_b]
            let mut newly: Vec<i32> = Vec::new();
            let mut t: usize = 0;
            while t < self.epsilon_forward.len()
                invariant
                    t <= self.epsilon_forward@.len(),
                    newly@.no_duplicates(),
                    forall|q: i32| #[trigger]
                        newly@.contains(q) <==> exists|j: int|
                            0 <= j < t && (self.epsilon_forward@[j] == (state_a, q)
                                || self.epsilon_forward@[j] == (state_b, q)),
                decreases self.epsilon_forward@.len() - t,
            {
                let (x, y) = self.epsilon_forward[t];
                if x == state_a || x == state_b {
                    assert(self.epsilon_forward@[t as int] == (x, y));
                    state_list_insert(&mut newly, y);
                }
                t = t + 1;
            }
            proof {
                assert forall|q: i32| #[trigger]
                    newly@.contains(q) <==> (q == state_b || eps_reaches(e_old, state_a, q)
                        || eps_reaches(e_old, state_b, q)) by {
                    if newly@.contains(q) {
                        let j = choose|j: int|
                            0 <= j < self.epsilon_forward@.len() && (self.epsilon_forward@[j] == (
                            state_a,
                            q,
                            ) || self.epsilon_forward@[j] == (state_b, q));
                        assert(self.epsilon_forward@.contains((state_a, q))
                            || self.epsilon_forward@.contains((state_b, q)));
                        assert(q == state_b || orig.fwd_contains(state_a, q) || orig.fwd_contains(
                            state_b,
                            q,
                        ));
                    }
                    if q == state_b || eps_reaches(e_old, state_a, q) || eps_reaches(
                        e_old,
                        state_b,
                        q,
                    ) {
                        if q == state_b || eps_reaches(e_old, state_a, q) {
                            if q != state_b {
                                assert(orig.fwd_contains(state_a, q));
                            }
                            assert(self.epsilon_forward@.contains((state_a, q)));
                            let j = choose|j: int|
                                0 <= j < self.epsilon_forward@.len() && self.epsilon_forward@[j]
                                    == (state_a, q);
                            assert(0 <= j < self.epsilon_forward@.len() && (self.epsilon_forward@[j]
                                == (state_a, q) || self.epsilon_forward@[j] == (state_b, q)));
                        } else {
                            assert(orig.fwd_contains(state_b, q));
                            assert(self.epsilon_forward@.contains((state_b, q)));
                            let j = choose|j: int|
                                0 <= j < self.epsilon_forward@.len() && self.epsilon_forward@[j]
                                    == (state_b, q);
                            assert(0 <= j < self.epsilon_forward@.len() && (self.epsilon_forward@[j]
                                == (state_a, q) || self.epsilon_forward@[j] == (state_b, q)));
                        }
                    }
                }
                assert forall|q: i32| #[trigger]
                    newly@.contains(q) implies orig.is_reserved_spec(q) by {
                    if q != state_b {
                        if eps_reaches(e_old, state_a, q) {
                            let n = choose|n: nat| 1 <= n && reach_n(e_old, state_a, q, n);
                            lemma_reach_endpoints(e_old, state_a, q, n);
                            let m = choose|m: i32| e_old.contains((m, q));
                            assert(orig.has_edge(m, '@', q));
                        } else {
                            let n = choose|n: nat| 1 <= n && reach_n(e_old, state_b, q, n);
                            lemma_reach_endpoints(e_old, state_b, q, n);
                            let m = choose|m: i32| e_old.contains((m, q));
                            assert(orig.has_edge(m, '@', q));
                        }
                    }
                }
            }
            // walk every state that can reach state_a over the back edges,
            // folding the newly reachable set into its forward closure
            let mut visited: Vec<bool> = Vec::new();
            let mut w: usize = 0;
            while w < NODE_LIMIT
                invariant
                    w == visited@.len(),
                    w <= NODE_LIMIT,
                    forall|j: int| 0 <= j < w ==> !visited@[j],
                decreases NODE_LIMIT - w,
            {
                visited.push(false);
                w = w + 1;
            }
            let ghost blank = visited@;
            proof {
                lemma_count_trues_bound(blank);
            }
            visited.set(state_a as usize, true);
            proof {
                lemma_count_trues_bound(visited@);
            }
            let mut stack: Vec<i32> = Vec::new();
            stack.push(state_a);
            proof {
                assert(stack@.contains(state_a));
                assert forall|x: i32| #[trigger]
                    vis_state(visited@, x) implies (x == state_a || eps_reaches(
                    e1,
                    x,
                    state_a,
                )) by {
                    if x != state_a {
                        assert(!blank[x as int]);
                    }
                }
            }
            while stack.len() > 0
                invariant
                    self.same_but_forward(mid),
                    self.epsilon_forward@.no_duplicates(),
                    visited@.len() == NODE_LIMIT as int,
                    0 <= count_trues(visited@) <= NODE_LIMIT as int,
                    vis_state(visited@, state_a),
                    forall|x: i32| #[trigger]
                        vis_state(visited@, x) ==> (x == state_a || eps_reaches(e1, x, state_a)),
                    forall|i: int| 0 <= i < stack@.len() ==> vis_state(visited@, #[trigger] stack@[i]),
                    stack@.no_duplicates(),
                    forall|x: i32, y: i32|
                        vis_state(visited@, y) && !stack@.contains(y) && #[trigger] e1.contains(
                            (x, y),
                        ) ==> vis_state(visited@, x),
                    forall|p: i32, q: i32| #[trigger]
                        self.epsilon_forward@.contains((p, q)) <==> (mid.epsilon_forward@.contains(
                            (p, q),
                        ) || (vis_state(visited@, p) && !stack@.contains(p) && newly@.contains(q))),
                decreases 2 * (NODE_LIMIT as int - count_trues(visited@)) + stack@.len(),
            {
                let ghost visited0 = visited@;
                let ghost stack0 = stack@;
                let ghost fwd0 = self.epsilon_forward@;
                proof {
                    lemma_drop_last_contains(stack0);
                }
                let s = match stack.pop() {
                    Some(v) => v,
                    None => {
                        proof {
                            assert(false);
                        }
                        0i32
                    },
                };
                let ghost stack1 = stack@;
                // fold the newly reachable states into forward[s]
                let mut u: usize = 0;
                while u < newly.len()
                    invariant
                        u <= newly@.len(),
                        self.same_but_forward(mid),
                        self.epsilon_forward@.no_duplicates(),
                        forall|p: i32, q: i32| #[trigger]
                            self.epsilon_forward@.contains((p, q)) <==> (fwd0.contains((p, q)) || (p
                                == s && exists|v: int| 0 <= v < u && newly@[v] == q)),
                    decreases newly@.len() - u,
                {
                    let nq = newly[u];
                    let ghost fwd_pre = self.epsilon_forward@;
                    pair_list_insert(&mut self.epsilon_forward, s, nq);
                    proof {
                        assert forall|p: i32, q: i32| #[trigger]
                            self.epsilon_forward@.contains((p, q)) <==> (fwd0.contains((p, q)) || (p
                                == s && exists|v: int| 0 <= v < u + 1 && newly@[v] == q)) by {
                            assert(fwd_pre.contains((p, q)) <==> (fwd0.contains((p, q)) || (p == s
                                && exists|v: int| 0 <= v < u && newly@[v] == q)));
                            if p == s && q == nq {
                                assert(newly@[u as int] == q);
                            }
                            if p == s && exists|v: int| 0 <= v < u + 1 && newly@[v] == q {
                                let v = choose|v: int| 0 <= v < u + 1 && newly@[v] == q;
                                if v == u as int {
                                    assert(q == nq);
                                }
                            }
                        }
                    }
                    u = u + 1;
                }
                proof {
                    assert forall|p: i32, q: i32| #[trigger]
                        self.epsilon_forward@.contains((p, q)) <==> (fwd0.contains((p, q)) || (p
                            == s && newly@.contains(q))) by {
                        if p == s && newly@.contains(q) {
                            let v = choose|v: int| 0 <= v < newly@.len() && newly@[v] == q;
                            assert(exists|v: int| 0 <= v < newly@.len() && newly@[v] == q);
                        }
                    }
                }
                // mark and queue the direct predecessors of s
                let mut j: usize = 0;
                while j < self.epsilon_backward.len()
                    invariant
                        j <= self.epsilon_backward@.len(),
                        visited@.len() == NODE_LIMIT as int,
                        0 <= count_trues(visited@) <= NODE_LIMIT as int,
                        2 * (NODE_LIMIT as int - count_trues(visited@)) + stack@.len() <= 2 * (
                        NODE_LIMIT as int - count_trues(visited0)) + stack0.len() - 1,
                        vis_state(visited@, state_a),
                        vis_state(visited@, s),
                        forall|x: i32| #[trigger]
                            vis_state(visited@, x) ==> (x == state_a || eps_reaches(
                                e1,
                                x,
                                state_a,
                            )),
                        forall|i: int|
                            0 <= i < stack@.len() ==> vis_state(visited@, #[trigger] stack@[i]),
                        stack@.no_duplicates(),
                        forall|x: i32| #[trigger] vis_state(visited0, x) ==> vis_state(visited@, x),
                        forall|x: i32| #[trigger] stack1.contains(x) ==> stack@.contains(x),
                        forall|x: i32| #[trigger]
                            stack@.contains(x) ==> (stack1.contains(x) || !vis_state(visited0, x)),
                        forall|x: i32|
                            vis_state(visited@, x) && !vis_state(visited0, x) ==> #[trigger]
                            stack@.contains(x),
                        forall|x: i32, y: i32|
                            vis_state(visited@, y) && !stack@.contains(y) && y != s
                                && #[trigger] e1.contains((x, y)) ==> vis_state(visited@, x),
                        forall|jj: int|
                            0 <= jj < j && (#[trigger] self.epsilon_backward@[jj]).1 == s
                                ==> vis_state(visited@, self.epsilon_backward@[jj].0),
                    decreases self.epsilon_backward@.len() - j,
                {
                    let (x, y) = self.epsilon_backward[j];
                    if y == s {
                        proof {
                            assert(self.epsilon_backward@[j as int] == (x, s));
                            assert(self.epsilon_backward@.contains((x, s)));
                            assert(e1.contains((x, s)));
                            assert(orig.is_reserved_spec(x));
                        }
                        if !visited[x as usize] {
                            let ghost vpre = visited@;
                            visited.set(x as usize, true);
                            stack.push(x);
                            proof {
                                lemma_count_trues_update(vpre, x as int);
                                lemma_count_trues_bound(visited@);
                                assert(reach_n(e1, s, s, 0));
                                assert(reach_n(e1, x, s, 1));
                                assert(eps_reaches(e1, x, s));
                                if s != state_a {
                                    assert(eps_reaches(e1, s, state_a));
                                    lemma_reaches_trans(e1, x, s, state_a);
                                }
                                assert forall|z: i32| #[trigger]
                                    vis_state(visited@, z) implies (z == state_a || eps_reaches(
                                    e1,
                                    z,
                                    state_a,
                                )) by {
                                    if z != x {
                                        assert(vis_state(vpre, z));
                                    }
                                }
                            }
                        }
                    }
                    j = j + 1;
                }
                // s is processed: its predecessors are all visited, and its
                // forward closure now holds the newly reachable set
                proof {
                    assert forall|x: i32, y: i32|
                        vis_state(visited@, y) && !stack@.contains(y) && #[trigger] e1.contains(
                            (x, y),
                        ) implies vis_state(visited@, x) by {
                        if y == s {
                            assert(self.epsilon_backward@.contains((x, s)));
                            let jj = choose|jj: int|
                                0 <= jj < self.epsilon_backward@.len() && self.epsilon_backward@[jj]
                                    == (x, s);
                            assert((self.epsilon_backward@[jj]).1 == s);
                        } else {
                            assert(vis_state(visited0, y)) by {
                                if !vis_state(visited0, y) {
                                    assert(stack@.contains(y));
                                }
                            }
                            assert(!stack1.contains(y));
                            assert(!stack0.contains(y));
                            assert(vis_state(visited0, x));
                        }
                    }
                    assert forall|p: i32, q: i32| #[trigger]
                        self.epsilon_forward@.contains((p, q)) <==> (mid.epsilon_forward@.contains(
                            (p, q),
                        ) || (vis_state(visited@, p) && !stack@.contains(p) && newly@.contains(
                            q,
                        ))) by {
                        if self.epsilon_forward@.contains((p, q)) {
                            if fwd0.contains((p, q)) {
                                if !mid.epsilon_forward@.contains((p, q)) {
                                    assert(vis_state(visited0, p) && !stack0.contains(p)
                                        && newly@.contains(q));
                                    assert(vis_state(visited@, p));
                                    assert(!stack1.contains(p));
                                    assert(p != s);
                                    assert(!stack@.contains(p));
                                }
                            } else {
                                assert(p == s && newly@.contains(q));
                                assert(vis_state(visited0, s));
                                assert(!stack1.contains(s));
                                assert(!stack@.contains(s));
                            }
                        }
                        if mid.epsilon_forward@.contains((p, q)) {
                            assert(fwd0.contains((p, q)));
                        }
                        if vis_state(visited@, p) && !stack@.contains(p) && newly@.contains(q) {
                            if p != s {
                                assert(vis_state(visited0, p)) by {
                                    if !vis_state(visited0, p) {
                                        assert(stack@.contains(p));
                                    }
                                }
                                assert(!stack1.contains(p));
                                assert(!stack0.contains(p));
                                assert(fwd0.contains((p, q)));
                            }
                        }
                    }
                }
            }
            // the walk has reached exactly the states that reach state_a; the
            // forward table is now reachability over the grown edge set
            proof {
                let vis = Set::new(|x: i32| vis_state(visited@, x));
                assert forall|x: i32, y: i32|
                    vis.contains(y) && #[trigger] e1.contains((x, y)) implies vis.contains(x) by {
                    assert(!stack@.contains(y));
                    assert(vis_state(visited@, y));
                }
                assert forall|x: i32| #[trigger]
                    vis.contains(x) <==> (x == state_a || eps_reaches(e1, x, state_a)) by {
                    if eps_reaches(e1, x, state_a) {
                        let n = choose|n: nat| 1 <= n && reach_n(e1, x, state_a, n);
                        lemma_pred_closed(e1, vis, state_a, x, n);
                    }
                }
                assert forall|p: i32, q: i32| #[trigger]
                    self.epsilon_forward@.contains((p, q)) <==> eps_reaches(e1, p, q) by {
                    lemma_reaches_insert(e_old, state_a, state_b, p, q);
                    lemma_reaches_insert(e_old, state_a, state_b, p, state_a);
                    if self.epsilon_forward@.contains((p, q)) {
                        if mid.epsilon_forward@.contains((p, q)) {
                            if orig.fwd_contains(p, q) {
                                assert(eps_reaches(e_old, p, q));
                            } else {
                                assert(p == state_a && q == state_b);
                            }
                        } else {
                            assert(vis_state(visited@, p) && newly@.contains(q));
                            assert(vis.contains(p));
                            if q == state_b || eps_reaches(e_old, state_b, q) {
                            } else {
                                assert(eps_reaches(e_old, state_a, q));
                                if p != state_a {
                                    assert(p == state_a || eps_reaches(e_old, p, state_a));
                                    lemma_reaches_trans(e_old, p, state_a, q);
                                }
                            }
                        }
                    }
                    if eps_reaches(e1, p, q) {
                        if eps_reaches(e_old, p, q) {
                            assert(orig.fwd_contains(p, q));
                            assert(mid.epsilon_forward@.contains((p, q)));
                        } else {
                            assert((p == state_a || eps_reaches(e_old, p, state_a)) && (q == state_b
                                || eps_reaches(e_old, state_b, q)));
                            assert(newly@.contains(q));
                            if p != state_a {
                                let n = choose|n: nat| 1 <= n && reach_n(e_old, p, state_a, n);
                                lemma_reach_mono(e_old, e1, p, state_a, n);
                                assert(eps_reaches(e1, p, state_a));
                                assert(vis.contains(p));
                            }
                            assert(vis_state(visited@, p));
                            assert(!stack@.contains(p));
                        }
                    }
                }
                // reassemble the invariant over the final value
                assert(self.eps_edges() =~= e1);
                assert forall|x: i32, cc: char, y: i32| #[trigger]
                    self.has_edge(x, cc, y) implies self.is_reserved_spec(x)
                    && self.is_reserved_spec(y) by {
                    assert(mid.move_table@.contains((x, cc, y)));
                    if !(x == state_a && cc == c && y == state_b) {
                        assert(orig.has_edge(x, cc, y));
                    }
                    assert(orig.is_reserved_spec(x) && orig.is_reserved_spec(y));
                    assert(self.reserved_state@ == orig.reserved_state@);
                }
                assert forall|p: i32, q: i32| #[trigger]
                    self.bwd_contains(p, q) <==> self.has_edge(p, '@', q) by {
                    assert(self.epsilon_backward@.contains((p, q)) <==> e1.contains((p, q)));
                    assert(e1.contains((p, q)) <==> self.eps_edges().contains((p, q)));
                }
                assert forall|p: i32, q: i32| #[trigger]
                    self.fwd_contains(p, q) <==> eps_reaches(self.eps_edges(), p, q) by {
                    assert(self.epsilon_forward@.contains((p, q)) <==> eps_reaches(e1, p, q));
                    assert(self.eps_edges() == e1);
                }
                assert(self.inv());
            }
            Ok(())
        } else {
            proof {
                assert(self.eps_edges() =~= orig.eps_edges());
                assert forall|x: i32, cc: char, y: i32| #[trigger]
                    self.has_edge(x, cc, y) implies self.is_reserved_spec(x)
                    && self.is_reserved_spec(y) by {
                    if !(x == state_a && cc == c && y == state_b) {
                        assert(orig.has_edge(x, cc, y));
                    }
                }
                assert forall|p: i32, q: i32| #[trigger]
                    self.bwd_contains(p, q) <==> self.has_edge(p, '@', q) by {
                    assert(orig.bwd_contains(p, q) <==> orig.has_edge(p, '@', q));
                }
                assert forall|p: i32, q: i32| #[trigger]
                    self.fwd_contains(p, q) <==> eps_reaches(self.eps_edges(), p, q) by {
                    assert(orig.fwd_contains(p, q) <==> eps_reaches(orig.eps_edges(), p, q));
                    assert(self.eps_edges() == orig.eps_edges());
                }
                assert(self.inv());
            }
            Ok(())
        }
    }

    /// The forward epsilon closure recorded for `state`: every state a
    /// non-trivial epsilon path reaches from it, free of duplicates.
    pub fn epsilon_forward_of(&self, state: &i32) -> (r: Vec<i32>)
        requires
            self.inv(),
        ensures
            r@.no_duplicates(),
            forall|q: i32| #[trigger] r@.contains(q) <==> self.fwd_contains(*state, q),
    {
        let mut result: Vec<i32> = Vec::new();
        let mut t: usize = 0;
        while t < self.epsilon_forward.len()
            invariant
                t <= self.epsilon_forward@.len(),
                result@.no_duplicates(),
                forall|q: i32| #[trigger]
                    result@.contains(q) <==> exists|j: int|
                        0 <= j < t && self.epsilon_forward@[j] == (*state, q),
            decreases self.epsilon_forward@.len() - t,
        {
            let (x, y) = self.epsilon_forward[t];
            if x == *state {
                assert(self.epsilon_forward@[t as int] == (*state, y));
                state_list_insert(&mut result, y);
            }
            t = t + 1;
        }
        proof {
            assert forall|q: i32| #[trigger]
                result@.contains(q) <==> self.fwd_contains(*state, q) by {
                if self.fwd_contains(*state, q) {
                    let j = choose|j: int|
                        0 <= j < self.epsilon_forward@.len() && self.epsilon_forward@[j] == (
                        *state,
                        q,
                        );
                    assert(exists|j: int|
                        0 <= j < self.epsilon_forward@.len() && self.epsilon_forward@[j] == (
                        *state,
                        q,
                        ));
                }
            }
        }
        result
    }

    /// The direct epsilon predecessors recorded for `state`: every state
    /// with an epsilon edge straight into it, free of duplicates.
    pub fn epsilon_backward_of(&self, state: &i32) -> (r: Vec<i32>)
        requires
            self.inv(),
        ensures
            r@.no_duplicates(),
            forall|p: i32| #[trigger] r@.contains(p) <==> self.has_edge(p, '@', *state),
    {
        let mut result: Vec<i32> = Vec::new();
        let mut t: usize = 0;
        while t < self.epsilon_backward.len()
            invariant
                t <= self.epsilon_backward@.len(),
                result@.no_duplicates(),
                forall|p: i32| #[trigger]
                    result@.contains(p) <==> exists|j: int|
                        0 <= j < t && self.epsilon_backward@[j] == (p, *state),
            decreases self.epsilon_backward@.len() - t,
        {
            let (x, y) = self.epsilon_backward[t];
            if y == *state {
                assert(self.epsilon_backward@[t as int] == (x, *state));
                state_list_insert(&mut result, x);
            }
            t = t + 1;
        }
        proof {
            assert forall|p: i32| #[trigger]
                result@.contains(p) <==> self.has_edge(p, '@', *state) by {
                assert(self.bwd_contains(p, *state) <==> self.has_edge(p, '@', *state));
                if self.bwd_contains(p, *state) {
                    let j = choose|j: int|
                        0 <= j < self.epsilon_backward@.len() && self.epsilon_backward@[j] == (
                        p,
                        *state,
                        );
                    assert(exists|j: int|
                        0 <= j < self.epsilon_backward@.len() && self.epsilon_backward@[j] == (
                        p,
                        *state,
                        ));
                }
                if result@.contains(p) {
                    assert(self.bwd_contains(p, *state));
                }
            }
        }
        result
    }

    /// Restores the invariant after a change that can only have marked more
    /// states reserved, leaving every table as it was.
    proof fn lemma_reserved_only_grown(orig: NFA, cur: NFA)
        requires
            orig.inv(),
            cur.move_table@ == orig.move_table@,
            cur.epsilon_forward@ == orig.epsilon_forward@,
            cur.epsilon_backward@ == orig.epsilon_backward@,
            cur.reserved_state@.len() == NODE_LIMIT as int,
            forall|x: i32| orig.is_reserved_spec(x) ==> #[trigger] cur.is_reserved_spec(x),
        ensures
            cur.inv(),
            forall|a: i32, c: char, b: i32| #[trigger]
                cur.has_edge(a, c, b) <==> orig.has_edge(a, c, b),
            forall|p: i32, q: i32| #[trigger] cur.fwd_contains(p, q) <==> orig.fwd_contains(p, q),
    {
        assert(cur.eps_edges() =~= orig.eps_edges());
        assert forall|a: i32, c: char, b: i32| #[trigger]
            cur.has_edge(a, c, b) implies cur.is_reserved_spec(a) && cur.is_reserved_spec(b) by {
            assert(orig.has_edge(a, c, b));
        }
        assert forall|p: i32, q: i32| #[trigger]
            cur.bwd_contains(p, q) <==> cur.has_edge(p, '@', q) by {
            assert(orig.bwd_contains(p, q) <==> orig.has_edge(p, '@', q));
        }
        assert forall|p: i32, q: i32| #[trigger]
            cur.fwd_contains(p, q) <==> eps_reaches(cur.eps_edges(), p, q) by {
            assert(orig.fwd_contains(p, q) <==> eps_reaches(orig.eps_edges(), p, q));
            assert(cur.eps_edges() == orig.eps_edges());
        }
    }
}

/// Closure correctness: a state `q` stands in the forward closure entry of
/// `p` exactly when a non-trivial epsilon path leads from `p` to `q` over
/// the epsilon edges inserted so far.
pub proof fn lemma_closure_correct(nfa: NFA, p: i32, q: i32)
    requires
        nfa.inv(),
    ensures
        nfa.fwd_contains(p, q) <==> eps_reaches(nfa.eps_edges(), p, q),
{
}

/// Closure order-independence: the forward closure tables of two automata
/// holding the same epsilon edges agree everywhere, whatever order those
/// edges were inserted in — the closure is a function of the edge set alone.
pub proof fn lemma_closure_order_independent(n1: NFA, n2: NFA)
    requires
        n1.inv(),
        n2.inv(),
        n1.eps_edges() == n2.eps_edges(),
    ensures
        forall|p: i32, q: i32|
            #![trigger n1.fwd_contains(p, q)]
            #![trigger n2.fwd_contains(p, q)]
            n1.fwd_contains(p, q) <==> n2.fwd_contains(p, q),
{
    assert forall|p: i32, q: i32|
        #![trigger n1.fwd_contains(p, q)]
        #![trigger n2.fwd_contains(p, q)]
        n1.fwd_contains(p, q) <==> n2.fwd_contains(p, q) by {
        assert(n1.fwd_contains(p, q) <==> eps_reaches(n1.eps_edges(), p, q));
        assert(n2.fwd_contains(p, q) <==> eps_reaches(n2.eps_edges(), p, q));
    }
}

/// Transition idempotence: inserting a move that is already present leaves
/// both the move relation and every epsilon closure exactly as they were.
/// `after` relates to `before` as `set_chain`'s contract describes for the
/// repeated triple.
pub proof fn lemma_transition_idempotent(before: NFA, after: NFA, a: i32, c: char, b: i32)
    requires
        before.inv(),
        after.inv(),
        before.has_edge(a, c, b),
        forall|x: i32, cc: char, y: i32| #[trigger]
            after.has_edge(x, cc, y) <==> (before.has_edge(x, cc, y) || (x == a && cc == c && y
                == b)),
    ensures
        forall|x: i32, cc: char, y: i32| #[trigger]
            after.has_edge(x, cc, y) <==> before.has_edge(x, cc, y),
        forall|p: i32, q: i32|
            #![trigger after.fwd_contains(p, q)]
            #![trigger before.fwd_contains(p, q)]
            after.fwd_contains(p, q) <==> before.fwd_contains(p, q),
{
    assert(after.eps_edges() =~= before.eps_edges());
    lemma_closure_order_independent(before, after);
}

} // verus!
