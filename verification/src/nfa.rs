//! Membership testing for nondeterministic finite automata.
//!
//! An [`Nfa`] holds a set of declared states, an alphabet, a transition
//! relation, one initial state and a set of final states. A transition is
//! labelled either with a concrete symbol or with the epsilon marker, which
//! consumes no input. [`Nfa::accept`] decides whether the automaton accepts a
//! given input sequence by simulating every branch in parallel: it keeps the
//! set of all states the automaton could currently be in, saturates that set
//! under epsilon moves before each symbol and once more after the last one,
//! and accepts exactly when the final set meets a final state.

use vstd::prelude::*;

verus! {

broadcast use vstd::seq_lib::lemma_seq_contains_after_push;

/// A transition label: either the epsilon marker, which consumes no input,
/// or a concrete symbol of the alphabet. Epsilon is kept apart from the
/// symbols so that it can never collide with a legitimate symbol value.
#[derive(Clone, Copy, Debug, PartialEq, Eq, Structural)]
pub enum Symbol {
    Epsilon,
    Value(u64),
}

/// A nondeterministic finite automaton over `u64` state identifiers and
/// `u64` input symbols. The definition is stored as given and never mutated;
/// every query works on local copies of the active branch set.
#[derive(Debug)]
pub struct Nfa {
    /// The declared states.
    pub states: Vec<u64>,
    /// The declared alphabet: concrete symbols only, epsilon is no member.
    pub input_symbols: Vec<Symbol>,
    /// The transition relation: `(source, label, destinations)` entries.
    /// Several entries may share a source and a label; their destination
    /// sets count as unioned.
    pub transitions: Vec<(u64, Symbol, Vec<u64>)>,
    /// The state every run starts in.
    pub initial_state: u64,
    /// The accepting states.
    pub final_states: Vec<u64>,
}

impl Nfa {
    /// The destinations reachable from `source` by one move labelled `label`:
    /// the union of the destination sets of every matching transition entry.
    pub open spec fn trans_dests(self, source: u64, label: Symbol) -> Set<u64> {
        Set::new(
            |q: u64|
                exists|i: int|
                    0 <= i < self.transitions@.len() && (#[trigger] self.transitions@[i]).0
                        == source && self.transitions@[i].1 == label
                        && self.transitions@[i].2@.contains(q),
        )
    }

    /// Every destination state named by a transition is a declared state.
    /// This keeps the working sets of the closure computation inside the
    /// declared state set, which bounds the iteration.
    pub open spec fn dests_declared(self) -> bool {
        forall|i: int, q: u64|
            0 <= i < self.transitions@.len() && #[trigger] self.transitions@[i].2@.contains(q)
                ==> self.states@.contains(q)
    }

    /// The well-formedness of a definition: the initial state, the final
    /// states and every state a transition names are declared states, every
    /// concrete transition label is a declared symbol, and the declared
    /// alphabet holds no epsilon marker.
    pub open spec fn well_formed(self) -> bool {
        &&& self.states@.contains(self.initial_state)
        &&& forall|q: u64| #[trigger]
            self.final_states@.contains(q) ==> self.states@.contains(q)
        &&& forall|i: int|
            0 <= i < self.transitions@.len() ==> self.states@.contains(
                (#[trigger] self.transitions@[i]).0,
            )
        &&& self.dests_declared()
        &&& forall|i: int|
            0 <= i < self.transitions@.len() ==> ((#[trigger] self.transitions@[i]).1 is Epsilon
                || self.input_symbols@.contains(self.transitions@[i].1))
        &&& forall|j: int|
            0 <= j < self.input_symbols@.len() ==> !((#[trigger] self.input_symbols@[j]) is Epsilon)
    }

    /// The states reachable from a member of `a` by at most one epsilon move,
    /// together with `a` itself.
    pub open spec fn eps_extend(self, a: Set<u64>) -> Set<u64> {
        a.union(
            Set::new(
                |q: u64|
                    exists|p: u64|
                        a.contains(p) && #[trigger] self.trans_dests(
                            p,
                            Symbol::Epsilon,
                        ).contains(q),
            ),
        )
    }

    /// The states reachable from `start` by at most `n` epsilon moves.
    pub open spec fn eps_reach_n(self, start: u64, n: nat) -> Set<u64>
        decreases n,
    {
        if n == 0 {
            set![start]
        } else {
            self.eps_extend(self.eps_reach_n(start, (n - 1) as nat))
        }
    }

    /// The epsilon closure of `start`: every state reachable from `start` by
    /// zero or more epsilon moves, `start` itself included.
    pub open spec fn eps_closure(self, start: u64) -> Set<u64> {
        Set::new(|q: u64| exists|n: nat| #[trigger] self.eps_reach_n(start, n).contains(q))
    }

    /// `c` is closed under epsilon moves: one epsilon move from a member of
    /// `c` cannot leave `c`.
    pub open spec fn eps_closed(self, c: Set<u64>) -> bool {
        forall|p: u64, q: u64|
            c.contains(p) && #[trigger] self.trans_dests(p, Symbol::Epsilon).contains(q)
                ==> c.contains(q)
    }

    /// The epsilon closure of a state contains that state: zero moves suffice.
    pub proof fn lemma_eps_closure_contains_self(self, start: u64)
        ensures
            self.eps_closure(start).contains(start),
    {
        assert(self.eps_reach_n(start, 0).contains(start));
    }

    /// One epsilon move from a member of the epsilon closure stays inside it.
    pub proof fn lemma_eps_closure_step(self, start: u64, p: u64, q: u64)
        requires
            self.eps_closure(start).contains(p),
            self.trans_dests(p, Symbol::Epsilon).contains(q),
        ensures
            self.eps_closure(start).contains(q),
    {
        let n = choose|n: nat| self.eps_reach_n(start, n).contains(p);
        assert(self.eps_reach_n(start, n + 1) == self.eps_extend(self.eps_reach_n(start, n)));
        assert(self.eps_reach_n(start, n + 1).contains(q));
    }

    /// The epsilon closure is closed under epsilon moves.
    pub proof fn lemma_eps_closure_closed(self, start: u64)
        ensures
            self.eps_closed(self.eps_closure(start)),
    {
        assert forall|p: u64, q: u64|
            self.eps_closure(start).contains(p) && #[trigger] self.trans_dests(
                p,
                Symbol::Epsilon,
            ).contains(q) implies self.eps_closure(start).contains(q) by {
            self.lemma_eps_closure_step(start, p, q);
        }
    }

    /// Any set that contains `start` and is closed under epsilon moves
    /// contains every state reachable from `start` by at most `n` such moves.
    pub proof fn lemma_reach_in_closed(self, start: u64, c: Set<u64>, n: nat)
        requires
            c.contains(start),
            self.eps_closed(c),
        ensures
            self.eps_reach_n(start, n).subset_of(c),
        decreases n,
    {
        if n > 0 {
            self.lemma_reach_in_closed(start, c, (n - 1) as nat);
            assert forall|q: u64| self.eps_reach_n(start, n).contains(q) implies c.contains(q) by {
                if !self.eps_reach_n(start, (n - 1) as nat).contains(q) {
                    let p = choose|p: u64|
                        self.eps_reach_n(start, (n - 1) as nat).contains(p) && #[trigger] self.trans_dests(p, Symbol::Epsilon).contains(q);
                    assert(c.contains(p));
                }
            }
        }
    }

    /// Any set that contains `start` and is closed under epsilon moves
    /// contains the whole epsilon closure of `start`: the closure is the
    /// least such set.
    pub proof fn lemma_eps_closure_least(self, start: u64, c: Set<u64>)
        requires
            c.contains(start),
            self.eps_closed(c),
        ensures
            self.eps_closure(start).subset_of(c),
    {
        assert forall|q: u64| self.eps_closure(start).contains(q) implies c.contains(q) by {
            let n = choose|n: nat| self.eps_reach_n(start, n).contains(q);
            self.lemma_reach_in_closed(start, c, n);
        }
    }

    /// The epsilon closure is idempotent: the closure of any of its members
    /// adds nothing new.
    pub proof fn lemma_eps_closure_idempotent(self, start: u64, p: u64)
        requires
            self.eps_closure(start).contains(p),
        ensures
            self.eps_closure(p).subset_of(self.eps_closure(start)),
    {
        self.lemma_eps_closure_closed(start);
        self.lemma_eps_closure_least(p, self.eps_closure(start));
    }

    /// Epsilon saturation of a branch set: every state epsilon-reachable from
    /// some member of `a`. Contains `a`, since every state is in its own
    /// epsilon closure.
    pub open spec fn eps_sat(self, a: Set<u64>) -> Set<u64> {
        Set::new(
            |q: u64| exists|p: u64| a.contains(p) && #[trigger] self.eps_closure(p).contains(q),
        )
    }

    /// One simulation step: every state reachable from a member of `a` by one
    /// transition labelled `label`. A member without such a move contributes
    /// nothing; its branch dies.
    pub open spec fn step_set(self, a: Set<u64>, label: Symbol) -> Set<u64> {
        Set::new(
            |q: u64| exists|p: u64| a.contains(p) && #[trigger] self.trans_dests(p, label).contains(q),
        )
    }

    /// The active branch set after consuming `input`: for the empty input the
    /// epsilon-saturated initial set, and for each further symbol the states
    /// reached by that symbol from the saturation of the previous set. The
    /// set after the last symbol is left unsaturated; acceptance saturates it
    /// once more.
    pub open spec fn active_after(self, input: Seq<Symbol>) -> Set<u64>
        decreases input.len(),
    {
        if input.len() == 0 {
            self.eps_sat(set![self.initial_state])
        } else {
            self.step_set(self.eps_sat(self.active_after(input.drop_last())), input.last())
        }
    }

    /// Whether the automaton accepts `input`: the active set after the whole
    /// input, epsilon-saturated one final time, meets the final states.
    pub open spec fn accepts(self, input: Seq<Symbol>) -> bool {
        exists|q: u64|
            #[trigger] self.eps_sat(self.active_after(input)).contains(q)
                && self.final_states@.contains(q)
    }

    /// Saturation only ever adds states: `a` is contained in its saturation.
    pub proof fn lemma_eps_sat_contains(self, a: Set<u64>)
        ensures
            a.subset_of(self.eps_sat(a)),
    {
        assert forall|p: u64| a.contains(p) implies self.eps_sat(a).contains(p) by {
            self.lemma_eps_closure_contains_self(p);
        }
    }

    /// Saturating twice adds nothing beyond saturating once.
    pub proof fn lemma_eps_sat_idempotent(self, a: Set<u64>)
        ensures
            self.eps_sat(self.eps_sat(a)) == self.eps_sat(a),
    {
        self.lemma_eps_sat_contains(self.eps_sat(a));
        assert forall|q: u64| self.eps_sat(self.eps_sat(a)).contains(q) implies self.eps_sat(
            a,
        ).contains(q) by {
            let p = choose|p: u64|
                self.eps_sat(a).contains(p) && #[trigger] self.eps_closure(p).contains(q);
            let r = choose|r: u64| a.contains(r) && #[trigger] self.eps_closure(r).contains(p);
            self.lemma_eps_closure_idempotent(r, p);
        }
        assert(self.eps_sat(self.eps_sat(a)) =~= self.eps_sat(a));
    }

    /// The saturation of a single state is exactly its epsilon closure.
    pub proof fn lemma_eps_sat_single(self, s: u64)
        ensures
            self.eps_sat(set![s]) == self.eps_closure(s),
    {
        self.lemma_eps_closure_contains_self(s);
        assert(self.eps_sat(set![s]) =~= self.eps_closure(s));
    }

    /// Acceptance of the empty input asks exactly whether the epsilon
    /// closure of the initial state meets the final states.
    pub proof fn lemma_accepts_empty(self)
        ensures
            self.accepts(Seq::<Symbol>::empty()) == (exists|q: u64|
                #[trigger] self.eps_closure(self.initial_state).contains(q)
                    && self.final_states@.contains(q)),
    {
        self.lemma_eps_sat_single(self.initial_state);
        self.lemma_eps_sat_idempotent(set![self.initial_state]);
        let empty = Seq::<Symbol>::empty();
        assert(self.active_after(empty) == self.eps_closure(self.initial_state));
        assert(self.eps_sat(self.active_after(empty)) == self.eps_closure(self.initial_state));
        if self.accepts(empty) {
            let q = choose|q: u64|
                #[trigger] self.eps_sat(self.active_after(empty)).contains(q)
                    && self.final_states@.contains(q);
            assert(self.eps_closure(self.initial_state).contains(q)
                && self.final_states@.contains(q));
        }
        if exists|q: u64|
            #[trigger] self.eps_closure(self.initial_state).contains(q)
                && self.final_states@.contains(q) {
            let q = choose|q: u64|
                #[trigger] self.eps_closure(self.initial_state).contains(q)
                    && self.final_states@.contains(q);
            assert(self.eps_sat(self.active_after(empty)).contains(q)
                && self.final_states@.contains(q));
        }
    }

    /// The simulation drops no branch: a state `s` active after `k` symbols
    /// sends every one of its moves on the next symbol into the set active
    /// after `k + 1` symbols. Only the transition relation itself can end a
    /// branch, by offering no move.
    pub proof fn lemma_step_monotone(self, input: Seq<Symbol>, k: int, s: u64, q: u64)
        requires
            0 <= k < input.len(),
            self.active_after(input.take(k)).contains(s),
            self.trans_dests(s, input[k]).contains(q),
        ensures
            self.active_after(input.take(k + 1)).contains(q),
    {
        self.lemma_eps_sat_contains(self.active_after(input.take(k)));
        assert(input.take(k + 1).drop_last() =~= input.take(k));
        assert(input.take(k + 1).last() == input[k]);
        assert(input.take(k + 1).len() == k + 1);
        let a = self.eps_sat(self.active_after(input.take(k)));
        assert(a.contains(s));
        assert(self.active_after(input.take(k + 1)) == self.step_set(a, input[k]));
        assert(self.step_set(a, input[k]).contains(q));
    }

    /// Matching transition entries select the same destinations in two
    /// automata with the same transition relation.
    proof fn lemma_trans_dests_same(self, other: Nfa, source: u64, label: Symbol)
        requires
            other.transitions == self.transitions,
        ensures
            other.trans_dests(source, label) == self.trans_dests(source, label),
    {
        assert forall|q: u64|
            other.trans_dests(source, label).contains(q) == self.trans_dests(
                source,
                label,
            ).contains(q) by {
            if self.trans_dests(source, label).contains(q) {
                let i = choose|i: int|
                    0 <= i < self.transitions@.len() && self.transitions@[i].0 == source
                        && self.transitions@[i].1 == label && self.transitions@[i].2@.contains(q);
                assert(other.transitions@[i].2@.contains(q));
            }
            if other.trans_dests(source, label).contains(q) {
                let i = choose|i: int|
                    0 <= i < other.transitions@.len() && other.transitions@[i].0 == source
                        && other.transitions@[i].1 == label && other.transitions@[i].2@.contains(q);
                assert(self.transitions@[i].2@.contains(q));
            }
        }
        assert(other.trans_dests(source, label) =~= self.trans_dests(source, label));
    }

    /// Epsilon reachability agrees between two automata with the same
    /// transition relation.
    proof fn lemma_eps_reach_same(self, other: Nfa, start: u64, n: nat)
        requires
            other.transitions == self.transitions,
        ensures
            other.eps_reach_n(start, n) == self.eps_reach_n(start, n),
        decreases n,
    {
        if n > 0 {
            self.lemma_eps_reach_same(other, start, (n - 1) as nat);
            let prev = self.eps_reach_n(start, (n - 1) as nat);
            assert forall|q: u64|
                other.eps_extend(prev).contains(q) == self.eps_extend(prev).contains(q) by {
                if self.eps_extend(prev).contains(q) && !prev.contains(q) {
                    let p = choose|p: u64|
                        prev.contains(p) && #[trigger] self.trans_dests(
                            p,
                            Symbol::Epsilon,
                        ).contains(q);
                    self.lemma_trans_dests_same(other, p, Symbol::Epsilon);
                }
                if other.eps_extend(prev).contains(q) && !prev.contains(q) {
                    let p = choose|p: u64|
                        prev.contains(p) && #[trigger] other.trans_dests(
                            p,
                            Symbol::Epsilon,
                        ).contains(q);
                    self.lemma_trans_dests_same(other, p, Symbol::Epsilon);
                }
            }
            assert(other.eps_extend(prev) =~= self.eps_extend(prev));
        }
    }

    /// Epsilon closures agree between two automata with the same transition
    /// relation.
    proof fn lemma_eps_closure_same(self, other: Nfa, start: u64)
        requires
            other.transitions == self.transitions,
        ensures
            other.eps_closure(start) == self.eps_closure(start),
    {
        assert forall|q: u64|
            other.eps_closure(start).contains(q) == self.eps_closure(start).contains(q) by {
            if self.eps_closure(start).contains(q) {
                let n = choose|n: nat| self.eps_reach_n(start, n).contains(q);
                self.lemma_eps_reach_same(other, start, n);
                assert(other.eps_reach_n(start, n).contains(q));
            }
            if other.eps_closure(start).contains(q) {
                let n = choose|n: nat| other.eps_reach_n(start, n).contains(q);
                self.lemma_eps_reach_same(other, start, n);
                assert(self.eps_reach_n(start, n).contains(q));
            }
        }
        assert(other.eps_closure(start) =~= self.eps_closure(start));
    }

    /// Epsilon saturation agrees between two automata with the same
    /// transition relation.
    proof fn lemma_eps_sat_same(self, other: Nfa, a: Set<u64>)
        requires
            other.transitions == self.transitions,
        ensures
            other.eps_sat(a) == self.eps_sat(a),
    {
        assert forall|q: u64| other.eps_sat(a).contains(q) == self.eps_sat(a).contains(q) by {
            if self.eps_sat(a).contains(q) {
                let p = choose|p: u64| a.contains(p) && #[trigger] self.eps_closure(p).contains(q);
                self.lemma_eps_closure_same(other, p);
                assert(other.eps_closure(p).contains(q));
            }
            if other.eps_sat(a).contains(q) {
                let p = choose|p: u64| a.contains(p) && #[trigger] other.eps_closure(p).contains(q);
                self.lemma_eps_closure_same(other, p);
                assert(self.eps_closure(p).contains(q));
            }
        }
        assert(other.eps_sat(a) =~= self.eps_sat(a));
    }

    /// The active branch set agrees between two automata with the same
    /// transition relation and initial state.
    proof fn lemma_active_after_same(self, other: Nfa, input: Seq<Symbol>)
        requires
            other.transitions == self.transitions,
            other.initial_state == self.initial_state,
        ensures
            other.active_after(input) == self.active_after(input),
        decreases input.len(),
    {
        if input.len() == 0 {
            self.lemma_eps_sat_same(other, set![self.initial_state]);
        } else {
            self.lemma_active_after_same(other, input.drop_last());
            let sat = self.eps_sat(self.active_after(input.drop_last()));
            self.lemma_eps_sat_same(other, self.active_after(input.drop_last()));
            assert forall|q: u64|
                other.step_set(sat, input.last()).contains(q) == self.step_set(
                    sat,
                    input.last(),
                ).contains(q) by {
                if self.step_set(sat, input.last()).contains(q) {
                    let p = choose|p: u64|
                        sat.contains(p) && #[trigger] self.trans_dests(p, input.last()).contains(q);
                    self.lemma_trans_dests_same(other, p, input.last());
                }
                if other.step_set(sat, input.last()).contains(q) {
                    let p = choose|p: u64|
                        sat.contains(p) && #[trigger] other.trans_dests(p, input.last()).contains(
                            q,
                        );
                    self.lemma_trans_dests_same(other, p, input.last());
                }
            }
            assert(other.step_set(sat, input.last()) =~= self.step_set(sat, input.last()));
        }
    }

    /// The verdict never reads the declared state set or the declared
    /// alphabet: two automata that agree on the transition relation, the
    /// initial state and the final states accept exactly the same inputs.
    pub proof fn lemma_accepts_ignores_alphabet(self, other: Nfa, input: Seq<Symbol>)
        requires
            other.transitions == self.transitions,
            other.initial_state == self.initial_state,
            other.final_states == self.final_states,
        ensures
            other.accepts(input) == self.accepts(input),
    {
        self.lemma_active_after_same(other, input);
        self.lemma_eps_sat_same(other, self.active_after(input));
        if self.accepts(input) {
            let q = choose|q: u64|
                #[trigger] self.eps_sat(self.active_after(input)).contains(q)
                    && self.final_states@.contains(q);
            assert(other.eps_sat(other.active_after(input)).contains(q)
                && other.final_states@.contains(q));
        }
        if other.accepts(input) {
            let q = choose|q: u64|
                #[trigger] other.eps_sat(other.active_after(input)).contains(q)
                    && other.final_states@.contains(q);
            assert(self.eps_sat(self.active_after(input)).contains(q)
                && self.final_states@.contains(q));
        }
    }

    /// Computes the epsilon closure of `state` as an iterated fixed point:
    /// a worklist pass visits each collected state once and adds every
    /// epsilon destination not yet present, so the pass terminates even when
    /// the epsilon graph has cycles. The result is duplicate-free and holds
    /// exactly the epsilon closure, `state` itself included.
    pub fn e_closure(&self, state: u64) -> (closure: Vec<u64>)
        requires
            self.dests_declared(),
        ensures
            closure@.to_set() == self.eps_closure(state),
            closure@.no_duplicates(),
            closure@.contains(state),
    {
        let mut closure: Vec<u64> = Vec::new();
        closure.push(state);
        proof {
            self.lemma_eps_closure_contains_self(state);
        }
        let mut i: usize = 0;
        while i < closure.len()
            invariant
                self.dests_declared(),
                i <= closure@.len(),
                closure@.len() <= self.states@.len() + 1,
                closure@.no_duplicates(),
                closure@[0] == state,
                closure@.len() >= 1,
                forall|k: int|
                    0 <= k < closure@.len() ==> closure@[k] == state || self.states@.contains(
                        closure@[k],
                    ),
                forall|k: int|
                    0 <= k < closure@.len() ==> self.eps_closure(state).contains(
                        #[trigger] closure@[k],
                    ),
                forall|k: int, q: u64|
                    0 <= k < i && #[trigger] self.trans_dests(closure@[k], Symbol::Epsilon).contains(
                        q,
                    ) ==> closure@.contains(q),
            decreases self.states@.len() + 1 - i,
        {
            let s = closure[i];
            let dests = self.possible_transitions(s, Symbol::Epsilon);
            proof {
                assert forall|q: u64| dests@.contains(q) implies self.eps_closure(state).contains(
                    q,
                ) && self.states@.contains(q) by {
                    self.lemma_eps_closure_step(state, s, q);
                    let k = choose|k: int|
                        0 <= k < self.transitions@.len() && self.transitions@[k].0 == s
                            && self.transitions@[k].1 == Symbol::Epsilon
                            && self.transitions@[k].2@.contains(q);
                    assert(self.transitions@[k].2@.contains(q));
                }
            }
            let ghost before = closure@;
            closure = add_new(closure, &dests);
            proof {
                assert forall|k: int| 0 <= k < before.len() implies closure@[k] == before[k] by {
                    assert(before[k] == closure@.subrange(0, before.len() as int)[k]);
                }
                assert(closure@[0] == state);
                assert forall|k: int| 0 <= k < closure@.len() implies closure@[k] == state
                    || self.states@.contains(closure@[k]) by {
                    if k < before.len() {
                        assert(closure@[k] == before[k]);
                        assert(before[k] == state || self.states@.contains(before[k]));
                    } else {
                        assert(dests@.contains(closure@[k]));
                    }
                }
                assert forall|k: int| 0 <= k < closure@.len() implies self.eps_closure(
                    state,
                ).contains(#[trigger] closure@[k]) by {
                    if k < before.len() {
                        assert(closure@[k] == before[k]);
                        assert(self.eps_closure(state).contains(before[k]));
                    } else {
                        assert(dests@.contains(closure@[k]));
                    }
                }
                self.lemma_closure_len_bound(closure@, state);
                assert forall|k: int, q: u64|
                    0 <= k < i + 1 && #[trigger] self.trans_dests(
                        closure@[k],
                        Symbol::Epsilon,
                    ).contains(q) implies closure@.contains(q) by {
                    assert(closure@[k] == before[k]);
                    if k < i {
                        assert(self.trans_dests(before[k], Symbol::Epsilon).contains(q));
                        assert(before.contains(q));
                    } else {
                        assert(before[k] == s);
                        assert(dests@.contains(q));
                    }
                }
            }
            i += 1;
        }
        proof {
            assert forall|q: u64| self.eps_closure(state).contains(q) implies closure@.contains(
                q,
            ) by {
                assert(self.eps_closed(closure@.to_set())) by {
                    assert forall|p: u64, q2: u64|
                        closure@.to_set().contains(p) && #[trigger] self.trans_dests(
                            p,
                            Symbol::Epsilon,
                        ).contains(q2) implies closure@.to_set().contains(q2) by {
                        let k = choose|k: int| 0 <= k < closure@.len() && closure@[k] == p;
                        assert(self.trans_dests(closure@[k], Symbol::Epsilon).contains(q2));
                    }
                }
                self.lemma_eps_closure_least(state, closure@.to_set());
            }
            assert(closure@.to_set() =~= self.eps_closure(state));
        }
        closure
    }

    /// Saturates a branch set under epsilon moves: unions the epsilon
    /// closures of all its members into one duplicate-free set.
    fn saturate(&self, branches: &Vec<u64>) -> (sat: Vec<u64>)
        requires
            self.dests_declared(),
        ensures
            sat@.no_duplicates(),
            sat@.to_set() == self.eps_sat(branches@.to_set()),
    {
        let mut sat: Vec<u64> = Vec::new();
        let mut i: usize = 0;
        while i < branches.len()
            invariant
                self.dests_declared(),
                i <= branches@.len(),
                sat@.no_duplicates(),
                forall|q: u64| #[trigger]
                    sat@.contains(q) <==> exists|k: int|
                        0 <= k < i && self.eps_closure(branches@[k]).contains(q),
            decreases branches@.len() - i,
        {
            let s = branches[i];
            let c = self.e_closure(s);
            let ghost before = sat@;
            sat = add_new(sat, &c);
            proof {
                assert forall|q: u64| #[trigger]
                    sat@.contains(q) == (exists|k: int|
                        0 <= k < i + 1 && self.eps_closure(branches@[k]).contains(q)) by {
                    if sat@.contains(q) {
                        if before.contains(q) {
                            let k = choose|k: int|
                                0 <= k < i && self.eps_closure(branches@[k]).contains(q);
                            assert(0 <= k < i + 1 && self.eps_closure(branches@[k]).contains(q));
                        } else {
                            assert(c@.contains(q));
                            assert(self.eps_closure(branches@[i as int]).contains(q));
                        }
                    }
                    if exists|k: int| 0 <= k < i + 1 && self.eps_closure(branches@[k]).contains(q) {
                        let k = choose|k: int|
                            0 <= k < i + 1 && self.eps_closure(branches@[k]).contains(q);
                        if k < i {
                            assert(before.contains(q));
                        } else {
                            assert(self.eps_closure(s).contains(q));
                            assert(c@.contains(q));
                        }
                        assert(sat@.contains(q));
                    }
                }
            }
            i += 1;
        }
        proof {
            assert forall|q: u64| #[trigger]
                sat@.contains(q) == self.eps_sat(branches@.to_set()).contains(q) by {
                if sat@.contains(q) {
                    let k = choose|k: int|
                        0 <= k < branches@.len() && self.eps_closure(branches@[k]).contains(q);
                    assert(branches@.contains(branches@[k]));
                    assert(branches@.to_set().contains(branches@[k]) && self.eps_closure(
                        branches@[k],
                    ).contains(q));
                }
                if self.eps_sat(branches@.to_set()).contains(q) {
                    let p = choose|p: u64|
                        branches@.to_set().contains(p) && #[trigger] self.eps_closure(p).contains(
                            q,
                        );
                    let k = choose|k: int| 0 <= k < branches@.len() && branches@[k] == p;
                    assert(0 <= k < branches@.len() && self.eps_closure(branches@[k]).contains(q));
                }
            }
            assert(sat@.to_set() =~= self.eps_sat(branches@.to_set()));
        }
        sat
    }

    /// Advances a branch set by one input symbol: unions the destinations of
    /// every `label`-transition out of every member into one duplicate-free
    /// set. Members without such a move simply drop out.
    fn step_branches(&self, branches: &Vec<u64>, label: Symbol) -> (stepped: Vec<u64>)
        ensures
            stepped@.no_duplicates(),
            stepped@.to_set() == self.step_set(branches@.to_set(), label),
    {
        let mut stepped: Vec<u64> = Vec::new();
        let mut i: usize = 0;
        while i < branches.len()
            invariant
                i <= branches@.len(),
                stepped@.no_duplicates(),
                forall|q: u64| #[trigger]
                    stepped@.contains(q) <==> exists|k: int|
                        0 <= k < i && self.trans_dests(branches@[k], label).contains(q),
            decreases branches@.len() - i,
        {
            let s = branches[i];
            let dests = self.possible_transitions(s, label);
            let ghost before = stepped@;
            stepped = add_new(stepped, &dests);
            proof {
                assert forall|q: u64| #[trigger]
                    stepped@.contains(q) == (exists|k: int|
                        0 <= k < i + 1 && self.trans_dests(branches@[k], label).contains(q)) by {
                    if stepped@.contains(q) {
                        if before.contains(q) {
                            let k = choose|k: int|
                                0 <= k < i && self.trans_dests(branches@[k], label).contains(q);
                            assert(0 <= k < i + 1 && self.trans_dests(branches@[k], label).contains(
                                q,
                            ));
                        } else {
                            assert(dests@.contains(q));
                            assert(self.trans_dests(branches@[i as int], label).contains(q));
                        }
                    }
                    if exists|k: int|
                        0 <= k < i + 1 && self.trans_dests(branches@[k], label).contains(q) {
                        let k = choose|k: int|
                            0 <= k < i + 1 && self.trans_dests(branches@[k], label).contains(q);
                        if k < i {
                            assert(before.contains(q));
                        } else {
                            assert(self.trans_dests(s, label).contains(q));
                            assert(dests@.contains(q));
                        }
                        assert(stepped@.contains(q));
                    }
                }
            }
            i += 1;
        }
        proof {
            assert forall|q: u64| #[trigger]
                stepped@.contains(q) == self.step_set(branches@.to_set(), label).contains(q) by {
                if stepped@.contains(q) {
                    let k = choose|k: int|
                        0 <= k < branches@.len() && self.trans_dests(branches@[k], label).contains(
                            q,
                        );
                    assert(branches@.contains(branches@[k]));
                    assert(branches@.to_set().contains(branches@[k]) && self.trans_dests(
                        branches@[k],
                        label,
                    ).contains(q));
                }
                if self.step_set(branches@.to_set(), label).contains(q) {
                    let p = choose|p: u64|
                        branches@.to_set().contains(p) && #[trigger] self.trans_dests(
                            p,
                            label,
                        ).contains(q);
                    let k = choose|k: int| 0 <= k < branches@.len() && branches@[k] == p;
                    assert(0 <= k < branches@.len() && self.trans_dests(
                        branches@[k],
                        label,
                    ).contains(q));
                }
            }
            assert(stepped@.to_set() =~= self.step_set(branches@.to_set(), label));
        }
        stepped
    }

    /// Whether a branch set holds at least one final state.
    fn intersects_finals(&self, branches: &Vec<u64>) -> (found: bool)
        ensures
            found == exists|q: u64|
                #[trigger] branches@.contains(q) && self.final_states@.contains(q),
    {
        let mut i: usize = 0;
        while i < branches.len()
            invariant
                i <= branches@.len(),
                forall|k: int| 0 <= k < i ==> !self.final_states@.contains(branches@[k]),
            decreases branches@.len() - i,
        {
            if contains_state(&self.final_states, branches[i]) {
                proof {
                    assert(branches@.contains(branches@[i as int]));
                }
                return true;
            }
            i += 1;
        }
        proof {
            assert forall|q: u64| branches@.contains(q) implies !self.final_states@.contains(
                q,
            ) by {
                let k = choose|k: int| 0 <= k < branches@.len() && branches@[k] == q;
                assert(!self.final_states@.contains(branches@[k]));
            }
        }
        false
    }

    /// Decides whether the automaton accepts `input` by simulating every
    /// branch in parallel. The active set starts as the epsilon closure of
    /// the initial state; before each symbol it is saturated under epsilon
    /// moves, then stepped by that symbol; after the last symbol it is
    /// saturated once more, and the input is accepted exactly when the result
    /// holds a final state. The active set is kept duplicate-free, so each
    /// step's work is bounded by the number of declared states and the
    /// simulation terminates on every input, epsilon cycles included.
    pub fn accept(&self, input: Vec<Symbol>) -> (accepted: bool)
        requires
            self.dests_declared(),
        ensures
            accepted == self.accepts(input@),
    {
        let mut branches: Vec<u64> = self.e_closure(self.initial_state);
        proof {
            self.lemma_eps_sat_single(self.initial_state);
            assert(input@.take(0).len() == 0);
        }
        let mut i: usize = 0;
        while i < input.len()
            invariant
                self.dests_declared(),
                i <= input@.len(),
                branches@.no_duplicates(),
                branches@.to_set() == self.active_after(input@.take(i as int)),
            decreases input@.len() - i,
        {
            let saturated = self.saturate(&branches);
            let stepped = self.step_branches(&saturated, input[i]);
            proof {
                assert(input@.take(i + 1).drop_last() =~= input@.take(i as int));
                assert(input@.take(i + 1).last() == input@[i as int]);
                assert(input@.take(i + 1).len() == i + 1);
            }
            branches = stepped;
            i += 1;
        }
        proof {
            assert(input@.take(input@.len() as int) =~= input@);
        }
        let finalset = self.saturate(&branches);
        let accepted = self.intersects_finals(&finalset);
        proof {
            if accepted {
                let q = choose|q: u64|
                    #[trigger] finalset@.contains(q) && self.final_states@.contains(q);
                assert(finalset@.to_set().contains(q));
                assert(self.eps_sat(self.active_after(input@)).contains(q)
                    && self.final_states@.contains(q));
            }
            if self.accepts(input@) {
                let q = choose|q: u64|
                    #[trigger] self.eps_sat(self.active_after(input@)).contains(q)
                        && self.final_states@.contains(q);
                assert(finalset@.to_set().contains(q));
                assert(finalset@.contains(q) && self.final_states@.contains(q));
            }
        }
        accepted
    }

    /// Checks the stored definition against [`Nfa::well_formed`], so that a
    /// caller can reject a malformed definition up front instead of finding
    /// out at query time.
    pub fn is_well_formed(&self) -> (ok: bool)
        ensures
            ok == self.well_formed(),
    {
        if !contains_state(&self.states, self.initial_state) {
            return false;
        }
        let mut k: usize = 0;
        while k < self.final_states.len()
            invariant
                k <= self.final_states@.len(),
                forall|j: int| 0 <= j < k ==> self.states@.contains(self.final_states@[j]),
            decreases self.final_states@.len() - k,
        {
            if !contains_state(&self.states, self.final_states[k]) {
                proof {
                    assert(self.final_states@.contains(self.final_states@[k as int]));
                }
                return false;
            }
            k += 1;
        }
        let mut i: usize = 0;
        while i < self.transitions.len()
            invariant
                i <= self.transitions@.len(),
                forall|j: int|
                    0 <= j < i ==> self.states@.contains((#[trigger] self.transitions@[j]).0),
                forall|j: int, q: u64|
                    0 <= j < i && #[trigger] self.transitions@[j].2@.contains(q)
                        ==> self.states@.contains(q),
                forall|j: int|
                    0 <= j < i ==> ((#[trigger] self.transitions@[j]).1 is Epsilon
                        || self.input_symbols@.contains(self.transitions@[j].1)),
            decreases self.transitions@.len() - i,
        {
            let entry = &self.transitions[i];
            if !contains_state(&self.states, entry.0) {
                return false;
            }
            let label_ok = match entry.1 {
                Symbol::Epsilon => true,
                Symbol::Value(_) => contains_symbol(&self.input_symbols, entry.1),
            };
            if !label_ok {
                return false;
            }
            let mut d: usize = 0;
            while d < entry.2.len()
                invariant
                    0 <= i < self.transitions@.len(),
                    entry == self.transitions@[i as int],
                    d <= entry.2@.len(),
                    forall|j: int| 0 <= j < d ==> self.states@.contains(entry.2@[j]),
                decreases entry.2@.len() - d,
            {
                if !contains_state(&self.states, entry.2[d]) {
                    proof {
                        assert(self.transitions@[i as int].2@.contains(entry.2@[d as int]));
                    }
                    return false;
                }
                d += 1;
            }
            proof {
                assert forall|q: u64| self.transitions@[i as int].2@.contains(
                    q,
                ) implies self.states@.contains(q) by {
                    let j = choose|j: int| 0 <= j < entry.2@.len() && entry.2@[j] == q;
                    assert(self.states@.contains(entry.2@[j]));
                }
            }
            i += 1;
        }
        let mut a: usize = 0;
        while a < self.input_symbols.len()
            invariant
                a <= self.input_symbols@.len(),
                forall|j: int|
                    0 <= j < a ==> !((#[trigger] self.input_symbols@[j]) is Epsilon),
            decreases self.input_symbols@.len() - a,
        {
            let is_epsilon = match self.input_symbols[a] {
                Symbol::Epsilon => true,
                Symbol::Value(_) => false,
            };
            if is_epsilon {
                return false;
            }
            a += 1;
        }
        proof {
            assert forall|q: u64| #[trigger]
                self.final_states@.contains(q) implies self.states@.contains(q) by {
                let j = choose|j: int| 0 <= j < self.final_states@.len() && self.final_states@[j] == q;
                assert(self.states@.contains(self.final_states@[j]));
            }
        }
        true
    }

    /// A duplicate-free sequence of states, each either `extra` or a declared
    /// state, can hold no more entries than there are declared states, plus
    /// one for `extra`.
    proof fn lemma_closure_len_bound(self, s: Seq<u64>, extra: u64)
        requires
            s.no_duplicates(),
            forall|k: int| 0 <= k < s.len() ==> s[k] == extra || self.states@.contains(s[k]),
        ensures
            s.len() <= self.states@.len() + 1,
    {
        s.unique_seq_to_set();
        self.states@.lemma_cardinality_of_set();
        vstd::seq_lib::seq_to_set_is_finite(self.states@);
        assert(s.to_set().subset_of(self.states@.to_set().insert(extra)));
        vstd::set_lib::lemma_len_subset(s.to_set(), self.states@.to_set().insert(extra));
    }

    /// Stores a definition verbatim. Whether the definition is well formed is
    /// checked separately by [`Nfa::is_well_formed`]; the queries state what
    /// they need of it in their contracts.
    pub fn new(
        states: Vec<u64>,
        input_symbols: Vec<Symbol>,
        transitions: Vec<(u64, Symbol, Vec<u64>)>,
        initial_state: u64,
        final_states: Vec<u64>,
    ) -> (nfa: Nfa)
        ensures
            nfa.states == states,
            nfa.input_symbols == input_symbols,
            nfa.transitions == transitions,
            nfa.initial_state == initial_state,
            nfa.final_states == final_states,
    {
        Nfa { states, input_symbols, transitions, initial_state, final_states }
    }

    /// Collects the destinations of every transition entry whose source is
    /// `state` and whose label is `input`. An empty result is no error: it
    /// means the automaton has no move for that pair.
    pub fn possible_transitions(&self, state: u64, input: Symbol) -> (result: Vec<u64>)
        ensures
            forall|q: u64|
                #[trigger] result@.contains(q) <==> self.trans_dests(state, input).contains(q),
    {
        let mut result: Vec<u64> = Vec::new();
        let mut i: usize = 0;
        while i < self.transitions.len()
            invariant
                i <= self.transitions@.len(),
                forall|q: u64| #[trigger]
                    result@.contains(q) ==> self.trans_dests(state, input).contains(q),
                forall|j: int, q: u64|
                    0 <= j < i && self.transitions@[j].0 == state && self.transitions@[j].1
                        == input && #[trigger] self.transitions@[j].2@.contains(q)
                        ==> result@.contains(q),
            decreases self.transitions@.len() - i,
        {
            let entry = &self.transitions[i];
            if entry.0 == state && entry.1 == input {
                let mut j: usize = 0;
                while j < entry.2.len()
                    invariant
                        0 <= i < self.transitions@.len(),
                        j <= entry.2@.len(),
                        entry == self.transitions@[i as int],
                        entry.0 == state,
                        entry.1 == input,
                        forall|q: u64| #[trigger]
                            result@.contains(q) ==> self.trans_dests(state, input).contains(q),
                        forall|jj: int, q: u64|
                            0 <= jj < i && self.transitions@[jj].0 == state
                                && self.transitions@[jj].1 == input && #[trigger] self.transitions@[jj].2@.contains(q) ==> result@.contains(q),
                        forall|k: int| 0 <= k < j ==> result@.contains(entry.2@[k]),
                    decreases entry.2@.len() - j,
                {
                    let d = entry.2[j];
                    result.push(d);
                    proof {
                        assert(self.transitions@[i as int].2@.contains(d));
                        assert(self.trans_dests(state, input).contains(d));
                    }
                    j += 1;
                }
            }
            i += 1;
        }
        proof {
            assert forall|q: u64| self.trans_dests(state, input).contains(q) implies result@.contains(
                q,
            ) by {
                let k = choose|k: int|
                    0 <= k < self.transitions@.len() && self.transitions@[k].0 == state
                        && self.transitions@[k].1 == input && self.transitions@[k].2@.contains(q);
                assert(self.transitions@[k].2@.contains(q));
            }
        }
        result
    }
}

/// Whether `v` holds `x`, by a linear scan.
fn contains_state(v: &Vec<u64>, x: u64) -> (found: bool)
    ensures
        found == v@.contains(x),
{
    let mut i: usize = 0;
    while i < v.len()
        invariant
            i <= v@.len(),
            forall|k: int| 0 <= k < i ==> v@[k] != x,
        decreases v@.len() - i,
    {
        if v[i] == x {
            return true;
        }
        i += 1;
    }
    false
}

/// Whether `v` holds `x`, by a linear scan.
fn contains_symbol(v: &Vec<Symbol>, x: Symbol) -> (found: bool)
    ensures
        found == v@.contains(x),
{
    let mut i: usize = 0;
    while i < v.len()
        invariant
            i <= v@.len(),
            forall|k: int| 0 <= k < i ==> v@[k] != x,
        decreases v@.len() - i,
    {
        if v[i] == x {
            return true;
        }
        i += 1;
    }
    false
}

/// Appends to `acc` the members of `items` it does not yet hold, in order,
/// keeping `acc` duplicate-free and leaving its existing entries in place.
fn add_new(acc: Vec<u64>, items: &Vec<u64>) -> (merged: Vec<u64>)
    requires
        acc@.no_duplicates(),
    ensures
        merged@.no_duplicates(),
        acc@.is_prefix_of(merged@),
        forall|q: u64| #[trigger] merged@.contains(q) <==> acc@.contains(q) || items@.contains(q),
        forall|k: int| acc@.len() <= k < merged@.len() ==> items@.contains(merged@[k]),
{
    let ghost orig = acc@;
    let mut merged = acc;
    let mut j: usize = 0;
    while j < items.len()
        invariant
            j <= items@.len(),
            merged@.no_duplicates(),
            orig.is_prefix_of(merged@),
            forall|q: u64| #[trigger]
                merged@.contains(q) <==> orig.contains(q) || items@.take(j as int).contains(q),
            forall|k: int| orig.len() <= k < merged@.len() ==> items@.contains(merged@[k]),
        decreases items@.len() - j,
    {
        let x = items[j];
        let ghost before = merged@;
        if !contains_state(&merged, x) {
            merged.push(x);
        }
        proof {
            assert(items@.take(j + 1) =~= items@.take(j as int).push(items@[j as int]));
        }
        j += 1;
    }
    proof {
        assert(items@.take(items@.len() as int) =~= items@);
    }
    merged
}

} // verus!
