//! Deterministic automata and their construction from an NFA by subset
//! construction.
use vstd::prelude::*;

use crate::automaton::nfa::{
    contains_state, lemma_closure_empty, lemma_closure_least, lemma_closure_within_targets,
    lemma_move_within_targets, thompson, Nfa, NfaModel, NfaState,
};
use crate::lexer::chars_of;
use crate::parser::Ast;

verus! {

broadcast use {vstd::std_specs::vec::group_vec_axioms, vstd::seq_lib::group_seq_properties};

/// A DFA state: the id that the registrar gave to the set of NFA states it
/// stands for.
#[derive(Clone, Copy, Debug, PartialEq, Eq, Structural, Hash, PartialOrd, Ord)]
pub struct DfaState(pub usize);

/// Strictly increasing: the canonical form of a set of NFA states.
pub open spec fn canonical(s: Seq<NfaState>) -> bool {
    forall|i: int, j: int| 0 <= i < j < s.len() ==> s[i] < s[j]
}

/// Two canonical sequences that hold the same states are the same sequence.
pub proof fn lemma_canonical_unique(a: Seq<NfaState>, b: Seq<NfaState>)
    requires
        canonical(a),
        canonical(b),
        a.to_set() == b.to_set(),
    ensures
        a == b,
    decreases a.len(),
{
    if a.len() == 0 {
        if b.len() > 0 {
            assert(b.to_set().contains(b[0]));
        }
        assert(a =~= b);
    } else if b.len() == 0 {
        assert(a.to_set().contains(a[0]));
    } else {
        assert(a.to_set().contains(a[0]));
        assert(b.to_set().contains(b[0]));
        assert(a[0] == b[0]) by {
            let k = choose|k: int| 0 <= k < b.len() && b[k] == a[0];
            let l = choose|l: int| 0 <= l < a.len() && a[l] == b[0];
            assert(k == 0 || b[0] < b[k]);
            assert(l == 0 || a[0] < a[l]);
        }
        let a1 = a.drop_first();
        let b1 = b.drop_first();
        assert(a1.to_set() =~= b1.to_set()) by {
            assert forall|x: NfaState| a1.contains(x) implies b1.contains(x) by {
                let k = choose|k: int| 0 <= k < a1.len() && a1[k] == x;
                assert(a[k + 1] == x);
                assert(a.to_set().contains(x));
                let l = choose|l: int| 0 <= l < b.len() && b[l] == x;
                assert(l != 0);
                assert(b1[l - 1] == x);
            }
            assert forall|x: NfaState| b1.contains(x) implies a1.contains(x) by {
                let k = choose|k: int| 0 <= k < b1.len() && b1[k] == x;
                assert(b[k + 1] == x);
                assert(b.to_set().contains(x));
                let l = choose|l: int| 0 <= l < a.len() && a[l] == x;
                assert(l != 0);
                assert(a1[l - 1] == x);
            }
        }
        lemma_canonical_unique(a1, b1);
        assert(a =~= b) by {
            assert forall|i: int| 0 <= i < a.len() implies a[i] == b[i] by {
                if i > 0 {
                    assert(a1[i - 1] == b1[i - 1]);
                }
            }
        }
    }
}

/// The canonical form of `states`: the same states, sorted, each once.
fn canonicalize(states: &[NfaState]) -> (r: Vec<NfaState>)
    ensures
        canonical(r@),
        r@.to_set() == states@.to_set(),
{
    let mut r: Vec<NfaState> = Vec::new();
    let mut i: usize = 0;
    while i < states.len()
        invariant
            i <= states.len(),
            canonical(r@),
            r@.to_set() == states@.take(i as int).to_set(),
        decreases states.len() - i,
    {
        let x = states[i];
        proof {
            assert(states@.take(i + 1) == states@.take(i as int).push(x));
            states@.take(i as int).lemma_push_to_set_commute(x);
        }
        let mut p: usize = 0;
        while p < r.len() && r[p] < x
            invariant
                p <= r.len(),
                forall|q: int| 0 <= q < p ==> r@[q] < x,
            decreases r.len() - p,
        {
            p += 1;
        }
        if p < r.len() && r[p] == x {
            assert(r@.to_set().insert(x) =~= r@.to_set());
        } else {
            let ghost before = r@;
            r.insert(p, x);
            proof {
                assert forall|q: int| 0 <= q < r@.len() implies #[trigger] r@[q] == if q < p {
                    before[q]
                } else if q == p {
                    x
                } else {
                    before[q - 1]
                } by {}
                assert(r@.to_set() =~= before.to_set().insert(x)) by {
                    assert(r@[p as int] == x);
                    assert forall|y: NfaState| before.contains(y) implies r@.contains(y) by {
                        let k = choose|k: int| 0 <= k < before.len() && before[k] == y;
                        if k < p {
                            assert(r@[k] == y);
                        } else {
                            assert(r@[k + 1] == y);
                        }
                    }
                }
                assert(canonical(r@)) by {
                    assert forall|a: int, b: int| 0 <= a < b < r@.len() implies r@[a] < r@[b] by {
                        if p < before.len() {
                            assert(before[p as int] > x);
                        }
                    }
                }
            }
        }
        i += 1;
    }
    assert(states@.take(states@.len() as int) == states@);
    r
}

/// Whether two sequences of states are equal.
fn same_states(a: &Vec<NfaState>, b: &Vec<NfaState>) -> (r: bool)
    ensures
        r == (a@ == b@),
{
    if a.len() != b.len() {
        return false;
    }
    let mut i: usize = 0;
    while i < a.len()
        invariant
            i <= a.len(),
            a.len() == b.len(),
            forall|j: int| 0 <= j < i ==> a@[j] == b@[j],
        decreases a.len() - i,
    {
        if a[i] != b[i] {
            return false;
        }
        i += 1;
    }
    assert(a@ =~= b@);
    true
}

/// What registering the set `s` does to the registry `reg` (the sets in order
/// of their ids), and the id it gives `s`: the id that `s` already has, or
/// else the next id, `s` being appended.
pub open spec fn registered(reg: Seq<Set<NfaState>>, s: Set<NfaState>) -> (Seq<Set<NfaState>>, nat) {
    if exists|i: int| 0 <= i < reg.len() && reg[i] == s {
        (reg, (choose|i: int| 0 <= i < reg.len() && reg[i] == s) as nat)
    } else {
        (reg.push(s), reg.len())
    }
}

/// Registering a set that is already registered gives it the id it has.
pub proof fn lemma_registered_existing(reg: Seq<Set<NfaState>>, i: int)
    requires
        reg.no_duplicates(),
        0 <= i < reg.len(),
    ensures
        registered(reg, reg[i]) == (reg, i as nat),
{
    let j = choose|j: int| 0 <= j < reg.len() && reg[j] == reg[i];
}

/// Set-equal inputs get the same id: registering `s1` and then `s2`, where the
/// two hold the same states in any order and with any repetition, gives `s2`
/// the id `s1` got and leaves the registry as `s1` left it.
pub proof fn lemma_registrar_set_identity(
    reg: Seq<Set<NfaState>>,
    s1: Seq<NfaState>,
    s2: Seq<NfaState>,
)
    requires
        reg.no_duplicates(),
        s1.to_set() == s2.to_set(),
    ensures
        registered(registered(reg, s1.to_set()).0, s2.to_set()) == registered(reg, s1.to_set()),
{
    let (reg1, id1) = registered(reg, s1.to_set());
    if exists|i: int| 0 <= i < reg.len() && reg[i] == s1.to_set() {
        lemma_registered_existing(reg, id1 as int);
    } else {
        assert(reg1.no_duplicates());
        assert(reg1[id1 as int] == s2.to_set());
        lemma_registered_existing(reg1, id1 as int);
    }
}

/// The registrar of subset construction: gives every distinct set of NFA
/// states its own DFA state, numbered in order of first registration.
pub struct DfaContext {
    sets: Vec<Vec<NfaState>>,
}

impl View for DfaContext {
    type V = Seq<Set<NfaState>>;

    /// The registered sets, by id.
    closed spec fn view(&self) -> Seq<Set<NfaState>> {
        self.sets@.map_values(|v: Vec<NfaState>| v@.to_set())
    }
}

impl DfaContext {
    /// Each set is stored once, in canonical form.
    pub closed spec fn wf(&self) -> bool {
        &&& forall|i: int| 0 <= i < self.sets@.len() ==> canonical(#[trigger] self.sets@[i]@)
        &&& self@.no_duplicates()
    }

    /// An empty registrar.
    pub fn new() -> (r: DfaContext)
        ensures
            r.wf(),
            r@ == Seq::<Set<NfaState>>::empty(),
    {
        let r = DfaContext { sets: Vec::new() };
        assert(r@ =~= Seq::<Set<NfaState>>::empty());
        r
    }

    /// The number of registered sets.
    pub fn len(&self) -> (r: usize)
        ensures
            r == self@.len(),
    {
        self.sets.len()
    }

    /// The canonical form of the set registered under `id`.
    pub fn states_of(&self, id: usize) -> (r: Vec<NfaState>)
        requires
            self.wf(),
            id < self@.len(),
        ensures
            r@.to_set() == self@[id as int],
            canonical(r@),
    {
        let v = &self.sets[id];
        let mut r: Vec<NfaState> = Vec::new();
        let mut i: usize = 0;
        while i < v.len()
            invariant
                i <= v.len(),
                r@ == v@.take(i as int),
            decreases v.len() - i,
        {
            r.push(v[i]);
            i += 1;
        }
        assert(r@ == v@);
        r
    }

    /// The DFA state of the set `states`: the one it was given before if a
    /// set with the same states was registered, whatever their order and
    /// repetition; else a new one, the next in sequence.
    pub fn get_state(&mut self, states: &[NfaState]) -> (r: DfaState)
        requires
            old(self).wf(),
        ensures
            final(self).wf(),
            final(self)@ == registered(old(self)@, states@.to_set()).0,
            r.0 as nat == registered(old(self)@, states@.to_set()).1,
    {
        let ghost s = states@.to_set();
        let sorted = canonicalize(states);
        let mut k: usize = 0;
        while k < self.sets.len()
            invariant
                k <= self.sets@.len(),
                *self == *old(self),
                self.wf(),
                canonical(sorted@),
                sorted@.to_set() == s,
                s == states@.to_set(),
                forall|j: int| 0 <= j < k ==> self@[j] != s,
            decreases self.sets.len() - k,
        {
            if same_states(&self.sets[k], &sorted) {
                proof {
                    assert(self@[k as int] == s);
                    lemma_registered_existing(self@, k as int);
                }
                return DfaState(k);
            }
            proof {
                if self@[k as int] == s {
                    lemma_canonical_unique(self.sets@[k as int]@, sorted@);
                }
            }
            k += 1;
        }
        let id = self.sets.len();
        let ghost before = self@;
        self.sets.push(sorted);
        proof {
            assert(self@ =~= before.push(s));
            assert(self@.no_duplicates()) by {
                assert forall|a: int, b: int| 0 <= a < b < self@.len() implies self@[a] != self@[b] by {
                    if b == before.len() {
                        assert(before[a] != s);
                    } else {
                        assert(before[a] != before[b]);
                    }
                }
            }
        }
        DfaState(id)
    }
}

/// All sets of states drawn from `u`.
pub open spec fn subsets_of(u: Set<NfaState>) -> Set<Set<NfaState>> {
    Set::new(|t: Set<NfaState>| t.subset_of(u))
}

/// A finite set has finitely many subsets.
pub proof fn lemma_subsets_finite(u: Set<NfaState>)
    requires
        u.finite(),
    ensures
        subsets_of(u).finite(),
    decreases u.len(),
{
    if u.len() == 0 {
        assert(u =~= Set::empty());
        assert(subsets_of(u) =~= set![Set::<NfaState>::empty()]) by {
            assert forall|t: Set<NfaState>| subsets_of(u).contains(t) implies t =~= Set::<NfaState>::empty() by {
                assert forall|x: NfaState| !t.contains(x) by {
                    if t.contains(x) {
                        assert(u.contains(x));
                    }
                }
            }
        }
    } else {
        let x = u.choose();
        let v = u.remove(x);
        lemma_subsets_finite(v);
        let f = |t: Set<NfaState>| t.insert(x);
        subsets_of(v).lemma_map_finite(f);
        assert(subsets_of(u) =~= subsets_of(v) + subsets_of(v).map(f)) by {
            assert forall|t: Set<NfaState>| subsets_of(u).contains(t) implies (subsets_of(v)
                + subsets_of(v).map(f)).contains(t) by {
                if t.contains(x) {
                    let t0 = t.remove(x);
                    assert(subsets_of(v).contains(t0));
                    assert(f(t0) =~= t);
                } else {
                    assert(subsets_of(v).contains(t));
                }
            }
        }
    }
}

/// The characters that label a transition out of a state of `look`, each once.
fn labels_from(nfa: &Nfa, look: &Vec<NfaState>) -> (r: Vec<char>)
    ensures
        r@.no_duplicates(),
        forall|c: char|
            r@.contains(c) <==> exists|x: NfaState, y: NfaState|
                look@.contains(x) && #[trigger] nfa@.edges.contains((x, Some(c), y)),
{
    let edges = nfa.transitions();
    let mut r: Vec<char> = Vec::new();
    let mut j: usize = 0;
    while j < edges.len()
        invariant
            j <= edges.len(),
            edges@.to_set() == nfa@.edges,
            r@.no_duplicates(),
            forall|c: char|
                r@.contains(c) <==> exists|k: int|
                    0 <= k < j && look@.contains((#[trigger] edges@[k]).0) && edges@[k].1 == Some(c),
        decreases edges.len() - j,
    {
        let e = edges[j];
        if contains_state(look, e.0) {
            if let Some(c) = e.1 {
                let mut found = false;
                let mut q: usize = 0;
                while q < r.len()
                    invariant
                        q <= r.len(),
                        found == exists|p: int| 0 <= p < q && r@[p] == c,
                    decreases r.len() - q,
                {
                    if r[q] == c {
                        found = true;
                    }
                    q += 1;
                }
                if !found {
                    r.push(c);
                }
                assert(forall|c2: char|
                    r@.contains(c2) <==> exists|k: int|
                        0 <= k < j + 1 && look@.contains((#[trigger] edges@[k]).0) && edges@[k].1 == Some(c2)) by {
                    assert forall|c2: char| r@.contains(c2) implies exists|k: int|
                        0 <= k < j + 1 && look@.contains((#[trigger] edges@[k]).0) && edges@[k].1 == Some(c2) by {
                        if c2 != c {
                            assert(r@.contains(c2) ==> exists|k: int|
                                0 <= k < j && look@.contains((#[trigger] edges@[k]).0) && edges@[k].1 == Some(c2));
                        } else {
                            assert(edges@[j as int].1 == Some(c2));
                        }
                    }
                }
            }
        }
        j += 1;
    }
    assert forall|c: char|
        r@.contains(c) <==> exists|x: NfaState, y: NfaState|
            look@.contains(x) && #[trigger] nfa@.edges.contains((x, Some(c), y)) by {
        if r@.contains(c) {
            let k = choose|k: int| 0 <= k < edges@.len() && look@.contains((#[trigger] edges@[k]).0) && edges@[k].1 == Some(c);
            assert(edges@.to_set().contains(edges@[k]));
            assert(nfa@.edges.contains((edges@[k].0, Some(c), edges@[k].2)));
        }
        if exists|x: NfaState, y: NfaState| look@.contains(x) && #[trigger] nfa@.edges.contains((x, Some(c), y)) {
            let (x, y) = choose|x: NfaState, y: NfaState| look@.contains(x) && #[trigger] nfa@.edges.contains((x, Some(c), y));
            assert(edges@.contains((x, Some(c), y)));
            let k = choose|k: int| 0 <= k < edges@.len() && edges@[k] == (x, Some(c), y);
            assert(look@.contains(edges@[k].0));
        }
    }
    r
}

/// The states that one move on `c` leads to from the states of `look`.
fn moves_on(nfa: &Nfa, look: &Vec<NfaState>, c: char) -> (r: Vec<NfaState>)
    ensures
        r@.to_set() == nfa@.move_on(look@.to_set(), c),
{
    let edges = nfa.transitions();
    let mut r: Vec<NfaState> = Vec::new();
    let mut j: usize = 0;
    while j < edges.len()
        invariant
            j <= edges.len(),
            edges@.to_set() == nfa@.edges,
            forall|y: NfaState|
                r@.contains(y) <==> exists|k: int|
                    0 <= k < j && look@.contains((#[trigger] edges@[k]).0) && edges@[k].1 == Some(c)
                        && edges@[k].2 == y,
        decreases edges.len() - j,
    {
        let e = edges[j];
        if e.1 == Some(c) && contains_state(look, e.0) {
            r.push(e.2);
        }
        j += 1;
    }
    assert(r@.to_set() =~= nfa@.move_on(look@.to_set(), c)) by {
        assert forall|y: NfaState| r@.contains(y) implies nfa@.move_on(look@.to_set(), c).contains(y) by {
            let k = choose|k: int|
                0 <= k < edges@.len() && look@.contains((#[trigger] edges@[k]).0) && edges@[k].1 == Some(c)
                    && edges@[k].2 == y;
            assert(edges@.to_set().contains(edges@[k]));
            assert(nfa@.edges.contains((edges@[k].0, Some(c), y)));
        }
        assert forall|y: NfaState| nfa@.move_on(look@.to_set(), c).contains(y) implies r@.contains(y) by {
            let x = choose|x: NfaState| look@.to_set().contains(x) && #[trigger] nfa@.edges.contains((x, Some(c), y));
            assert(edges@.contains((x, Some(c), y)));
            let k = choose|k: int| 0 <= k < edges@.len() && edges@[k] == (x, Some(c), y);
            assert(look@.contains(edges@[k].0));
        }
    }
    r
}

/// Whether some state of `look` is an accept state of `nfa`.
fn meets_accepts(nfa: &Nfa, look: &Vec<NfaState>) -> (r: bool)
    ensures
        r == exists|x: NfaState| look@.contains(x) && nfa@.accepts.contains(x),
{
    let accepts = nfa.accept_states();
    let mut i: usize = 0;
    while i < look.len()
        invariant
            i <= look.len(),
            accepts@.to_set() == nfa@.accepts,
            forall|j: int| 0 <= j < i ==> !nfa@.accepts.contains(#[trigger] look@[j]),
        decreases look.len() - i,
    {
        if contains_state(accepts, look[i]) {
            assert(look@.contains(look@[i as int]) && nfa@.accepts.contains(look@[i as int]));
            return true;
        }
        i += 1;
    }
    proof {
        assert forall|x: NfaState| look@.contains(x) implies !nfa@.accepts.contains(x) by {
            let j = choose|j: int| 0 <= j < look@.len() && look@[j] == x;
        }
    }
    false
}

/// The mathematical content of a DFA.
pub struct DfaModel {
    /// The id of the start state.
    pub start: nat,
    /// The ids of the accept states.
    pub accepts: Set<nat>,
    /// The partial transition function: a missing entry means no move.
    pub next: Map<(nat, char), nat>,
    /// The set of NFA states that each DFA state stands for, by id.
    pub sets: Seq<Set<NfaState>>,
}

impl DfaModel {
    /// The state reached from the start by reading `w`, if every step has a
    /// move.
    pub open spec fn run(self, w: Seq<char>) -> Option<nat>
        decreases w.len(),
    {
        if w.len() == 0 {
            Some(self.start)
        } else {
            match self.run(w.drop_last()) {
                Some(d) => if self.next.dom().contains((d, w.last())) {
                    Some(self.next[(d, w.last())])
                } else {
                    None
                },
                None => None,
            }
        }
    }

    /// Whether the DFA accepts `w`: reading it ends, with a move for every
    /// character, in an accept state.
    pub open spec fn accepts_word(self, w: Seq<char>) -> bool {
        match self.run(w) {
            Some(d) => self.accepts.contains(d),
            None => false,
        }
    }

    /// `self` is the subset automaton of `nfa`: its states stand for distinct
    /// non-empty sets of NFA states, each the set reached by reading some word;
    /// the start stands for the closure of the NFA's start; a state has a move
    /// on `c` exactly when some state of its set has a transition on `c`, and
    /// the move leads to the state of the closure of where those transitions
    /// lead; a state accepts exactly when its set holds an NFA accept state.
    pub open spec fn subset_automaton_of(self, nfa: NfaModel) -> bool {
        &&& self.sets.no_duplicates()
        &&& self.start == 0
        &&& self.sets.len() > 0
        &&& self.sets[0] == nfa.start_set()
        &&& forall|d: int|
            #![trigger self.sets[d]]
            0 <= d < self.sets.len() ==> self.sets[d] != Set::<NfaState>::empty()
        &&& forall|d: int|
            #![trigger self.sets[d]]
            0 <= d < self.sets.len() ==> exists|w: Seq<char>| nfa.run(w) == self.sets[d]
        &&& forall|d: nat, c: char|
            #[trigger] self.next.dom().contains((d, c)) <==> d < self.sets.len() && nfa.move_on(
                self.sets[d as int],
                c,
            ) != Set::<NfaState>::empty()
        &&& forall|d: nat, c: char|
            #[trigger] self.next.dom().contains((d, c)) ==> self.next[(d, c)] < self.sets.len()
                && self.sets[self.next[(d, c)] as int] == nfa.step(self.sets[d as int], c)
        &&& forall|d: nat|
            #[trigger] self.accepts.contains(d) <==> d < self.sets.len() && exists|x: NfaState|
                self.sets[d as int].contains(x) && nfa.accepts.contains(x)
    }
}

/// The key of a transition entry: its source and its character.
pub open spec fn key_of(t: (DfaState, char, DfaState)) -> (nat, char) {
    (t.0.0 as nat, t.1)
}

/// A deterministic finite automaton over characters, with a partial
/// transition table.
pub struct Dfa {
    start: DfaState,
    accepting: Vec<bool>,
    transitions: Vec<(DfaState, char, DfaState)>,
    sets: Ghost<Seq<Set<NfaState>>>,
}

impl View for Dfa {
    type V = DfaModel;

    closed spec fn view(&self) -> DfaModel {
        DfaModel {
            start: self.start.0 as nat,
            accepts: Set::new(|d: nat| d < self.accepting@.len() && self.accepting@[d as int]),
            next: Map::new(
                |k: (nat, char)|
                    exists|i: int|
                        0 <= i < self.transitions@.len() && key_of(#[trigger] self.transitions@[i]) == k,
                |k: (nat, char)|
                    self.transitions@[choose|i: int|
                        0 <= i < self.transitions@.len() && key_of(#[trigger] self.transitions@[i])
                            == k].2.0 as nat,
            ),
            sets: self.sets@,
        }
    }
}

/// A transition entry that subset construction over `m` may record, given the
/// registry `reg`.
spec fn entry_ok(m: NfaModel, reg: Seq<Set<NfaState>>, t: (DfaState, char, DfaState)) -> bool {
    &&& t.0.0 < reg.len()
    &&& t.2.0 < reg.len()
    &&& reg[t.2.0 as int] == m.step(reg[t.0.0 as int], t.1)
    &&& m.move_on(reg[t.0.0 as int], t.1) != Set::<NfaState>::empty()
}

/// A set that subset construction over `m` may register: non-empty, reached by
/// some word, and drawn from `u`.
spec fn set_ok(m: NfaModel, u: Set<NfaState>, s: Set<NfaState>) -> bool {
    &&& s != Set::<NfaState>::empty()
    &&& exists|w: Seq<char>| m.run(w) == s
    &&& s.subset_of(u)
}

impl Dfa {
    #[verifier::type_invariant]
    closed spec fn keys_unique(self) -> bool {
        forall|a: int, b: int|
            0 <= a < b < self.transitions@.len() ==> key_of(#[trigger] self.transitions@[a])
                != key_of(#[trigger] self.transitions@[b])
    }

    /// The start state.
    pub fn start(&self) -> (r: DfaState)
        ensures
            r.0 as nat == self@.start,
    {
        self.start
    }

    /// Whether `state` is an accept state.
    pub fn accepts(&self, state: DfaState) -> (r: bool)
        ensures
            r == self@.accepts.contains(state.0 as nat),
    {
        state.0 < self.accepting.len() && self.accepting[state.0]
    }

    /// Whether the DFA accepts `input`: starting from the start state, each
    /// character must have a move, and the last state reached must accept.
    /// The empty input is accepted exactly when the start state accepts.
    pub fn matches(&self, input: &str) -> (r: bool)
        ensures
            r == self@.accepts_word(input@),
    {
        let chars = chars_of(input);
        let mut current: Option<DfaState> = Some(self.start);
        let mut i: usize = 0;
        while i < chars.len()
            invariant
                i <= chars@.len(),
                chars@ == input@,
                match current {
                    Some(s) => self@.run(chars@.take(i as int)) == Some(s.0 as nat),
                    None => self@.run(chars@.take(i as int)) is None,
                },
            decreases chars.len() - i,
        {
            assert(chars@.take(i + 1).drop_last() == chars@.take(i as int));
            if let Some(s) = current {
                current = self.next_state(s, chars[i]);
            }
            i += 1;
        }
        assert(chars@.take(chars@.len() as int) == chars@);
        match current {
            Some(s) => self.accepts(s),
            None => false,
        }
    }

    /// The state that `state` moves to on `char`, or `None` when the table has
    /// no move for them.
    pub fn next_state(&self, state: DfaState, char: char) -> (r: Option<DfaState>)
        ensures
            r == (if self@.next.dom().contains((state.0 as nat, char)) {
                Some(DfaState(self@.next[(state.0 as nat, char)] as usize))
            } else {
                None
            }),
    {
        proof {
            use_type_invariant(self);
        }
        let mut i: usize = 0;
        while i < self.transitions.len()
            invariant
                i <= self.transitions@.len(),
                forall|j: int| 0 <= j < i ==> key_of(#[trigger] self.transitions@[j]) != (state.0 as nat, char),
            decreases self.transitions.len() - i,
        {
            let t = self.transitions[i];
            if (t.0).0 == state.0 && t.1 == char {
                proof {
                    use_type_invariant(self);
                    let k = (state.0 as nat, char);
                    assert(key_of(self.transitions@[i as int]) == k);
                    assert(self@.next.dom().contains(k));
                    let j = choose|j: int|
                        0 <= j < self.transitions@.len() && key_of(#[trigger] self.transitions@[j]) == k;
                    assert(j == i);
                }
                return Some(t.2);
            }
            i += 1;
        }
        None
    }
}

/// What registering gives: `s` at the returned id, the earlier sets in place.
proof fn lemma_registered(reg: Seq<Set<NfaState>>, s: Set<NfaState>)
    ensures
        registered(reg, s).1 < registered(reg, s).0.len(),
        registered(reg, s).0[registered(reg, s).1 as int] == s,
        registered(reg, s).0.len() >= reg.len(),
        forall|d: int| 0 <= d < reg.len() ==> #[trigger] registered(reg, s).0[d] == reg[d],
{
}

/// A set that is not empty has an element.
proof fn lemma_nonempty(s: Set<NfaState>)
    requires
        s != Set::<NfaState>::empty(),
    ensures
        exists|x: NfaState| s.contains(x),
{
    if !exists|x: NfaState| s.contains(x) {
        assert(s =~= Set::<NfaState>::empty());
    }
}

/// Subset construction over `m` is done up to (not including) id `n`: the
/// registry `reg` holds good sets, `trans` holds good entries from ids below
/// `n` with distinct keys, and every move of those ids is recorded.
spec fn built_upto(
    m: NfaModel,
    u: Set<NfaState>,
    reg: Seq<Set<NfaState>>,
    trans: Seq<(DfaState, char, DfaState)>,
    n: nat,
) -> bool {
    &&& reg.len() >= 1
    &&& reg[0] == m.start_set()
    &&& n <= reg.len()
    &&& forall|d: int| 0 <= d < reg.len() ==> set_ok(m, u, #[trigger] reg[d])
    &&& forall|t: int|
        0 <= t < trans.len() ==> entry_ok(m, reg, #[trigger] trans[t]) && trans[t].0.0 < n
    &&& forall|a: int, b: int|
        0 <= a < b < trans.len() ==> key_of(#[trigger] trans[a]) != key_of(#[trigger] trans[b])
    &&& forall|d: nat, c: char|
        #![trigger m.move_on(reg[d as int], c)]
        d < n && m.move_on(reg[d as int], c) != Set::<NfaState>::empty() ==> exists|t: int|
            0 <= t < trans.len() && key_of(#[trigger] trans[t]) == (d, c)
}

/// Expands the DFA state `next`: records its move on every character that
/// labels a transition out of its set, registering the targets.
#[verifier::spinoff_prover]
#[verifier::rlimit(40)]
fn expand(
    nfa: &Nfa,
    context: &mut DfaContext,
    transitions: &mut Vec<(DfaState, char, DfaState)>,
    next: usize,
    Ghost(u): Ghost<Set<NfaState>>,
)
    requires
        old(context).wf(),
        built_upto(nfa@, u, old(context)@, old(transitions)@, next as nat),
        next < old(context)@.len(),
        u == set![nfa@.start] + nfa@.targets(),
    ensures
        final(context).wf(),
        built_upto(nfa@, u, final(context)@, final(transitions)@, next as nat + 1),
{
    let ghost m = nfa@;
    let ghost reg0 = context@;
    let ghost trans0 = transitions@;
    let look = context.states_of(next);
    let labels = labels_from(nfa, &look);
    let mut k: usize = 0;
    while k < labels.len()
        invariant
            k <= labels@.len(),
            context.wf(),
            m == nfa@,
            u == set![m.start] + m.targets(),
            next < reg0.len(),
            look@.to_set() == reg0[next as int],
            labels@.no_duplicates(),
            forall|c: char|
                labels@.contains(c) <==> exists|x: NfaState, y: NfaState|
                    look@.contains(x) && #[trigger] m.edges.contains((x, Some(c), y)),
            reg0.len() <= context@.len(),
            forall|d: int| 0 <= d < reg0.len() ==> #[trigger] context@[d] == reg0[d],
            trans0.len() <= transitions@.len(),
            forall|t: int| 0 <= t < trans0.len() ==> #[trigger] transitions@[t] == trans0[t],
            built_upto(m, u, reg0, trans0, next as nat),
            context@.len() >= 1,
            forall|d: int| 0 <= d < context@.len() ==> set_ok(m, u, #[trigger] context@[d]),
            forall|t: int|
                0 <= t < transitions@.len() ==> entry_ok(m, context@, #[trigger] transitions@[t])
                    && transitions@[t].0.0 <= next,
            forall|t: int|
                trans0.len() <= t < transitions@.len() ==> exists|j: int|
                    0 <= j < k && labels@[j] == (#[trigger] transitions@[t]).1,
            forall|t: int| 0 <= t < trans0.len() ==> (#[trigger] transitions@[t]).0.0 < next,
            forall|t: int| trans0.len() <= t < transitions@.len() ==> (#[trigger] transitions@[t]).0.0 == next,
            forall|a: int, b: int|
                0 <= a < b < transitions@.len() ==> key_of(#[trigger] transitions@[a]) != key_of(
                    #[trigger] transitions@[b],
                ),
            forall|j: int|
                0 <= j < k ==> exists|t: int|
                    0 <= t < transitions@.len() && key_of(#[trigger] transitions@[t]) == (
                        next as nat,
                        #[trigger] labels@[j],
                    ),
        decreases labels.len() - k,
    {
        let c = labels[k];
        let raw = moves_on(nfa, &look, c);
        let closed = nfa.epsilon_closure(&raw);
        let ghost reg1 = context@;
        let ghost src = reg0[next as int];
        let ghost target = m.step(src, c);
        let ghost y: NfaState;
        proof {
            assert(labels@.contains(c));
            let (x0, y0) = choose|x: NfaState, y: NfaState|
                look@.contains(x) && #[trigger] m.edges.contains((x, Some(c), y));
            y = y0;
            assert(look@.to_set().contains(x0));
            assert(m.move_on(src, c).contains(y));
            lemma_closure_least(m, m.move_on(src, c));
            assert(target.contains(y));
            lemma_closure_within_targets(m, m.move_on(src, c));
            lemma_move_within_targets(m, src, c);
            assert(set_ok(m, u, src));
            let w = choose|w: Seq<char>| m.run(w) == src;
            assert(w.push(c).drop_last() == w);
            assert(m.run(w.push(c)) == target);
            assert(set_ok(m, u, target));
            lemma_registered(reg1, target);
        }
        let to = context.get_state(closed.as_slice());
        let ghost before = transitions@;
        transitions.push((DfaState(next), c, to));
        proof {
            assert(context@[next as int] == src);
            assert(context@[to.0 as int] == target);
            assert(m.move_on(context@[next as int], c).contains(y));
            assert(transitions@[before.len() as int] == (DfaState(next), c, to));
            assert(next < context@.len());
            assert(to.0 < context@.len());
            assert(context@[to.0 as int] == m.step(context@[next as int], c));
            assert(entry_ok(m, context@, transitions@[before.len() as int]));
            assert forall|t: int| 0 <= t < transitions@.len() implies entry_ok(
                m,
                context@,
                #[trigger] transitions@[t],
            ) && transitions@[t].0.0 <= next by {
                if t < before.len() {
                    assert(entry_ok(m, reg1, before[t]));
                }
            }
            assert forall|a: int, b: int|
                0 <= a < b < transitions@.len() implies key_of(#[trigger] transitions@[a]) != key_of(
                    #[trigger] transitions@[b],
                ) by {
                if b == before.len() && a >= trans0.len() {
                    assert(before[a] == transitions@[a]);
                    let j = choose|j: int| 0 <= j < k && labels@[j] == (#[trigger] before[a]).1;
                    assert(labels@[j] != labels@[k as int]);
                }
            }
            assert forall|j: int| 0 <= j < k + 1 implies exists|t: int|
                0 <= t < transitions@.len() && key_of(#[trigger] transitions@[t]) == (
                    next as nat,
                    #[trigger] labels@[j],
                ) by {
                if j == k {
                    assert(key_of(transitions@[before.len() as int]) == (next as nat, labels@[j]));
                } else {
                    let t = choose|t: int|
                        0 <= t < before.len() && key_of(#[trigger] before[t]) == (next as nat, labels@[j]);
                    assert(transitions@[t] == before[t]);
                }
            }
            assert forall|t: int|
                trans0.len() <= t < transitions@.len() implies exists|j: int|
                    0 <= j < k + 1 && labels@[j] == (#[trigger] transitions@[t]).1 by {
                if t < before.len() {
                    assert(transitions@[t] == before[t]);
                    let j = choose|j: int| 0 <= j < k && labels@[j] == (#[trigger] before[t]).1;
                } else {
                    assert(labels@[k as int] == transitions@[t].1);
                }
            }
        }
        k += 1;
    }
    proof {
        let reg = context@;
        let trans = transitions@;
        assert forall|d: nat, c: char|
            #![trigger m.move_on(reg[d as int], c)]
            d < next + 1 && m.move_on(reg[d as int], c) != Set::<NfaState>::empty()
                implies exists|t: int| 0 <= t < trans.len() && key_of(#[trigger] trans[t]) == (d, c) by {
            if d == next {
                lemma_nonempty(m.move_on(reg[d as int], c));
                let y = choose|y: NfaState| m.move_on(reg[d as int], c).contains(y);
                let x = choose|x: NfaState| reg[d as int].contains(x) && #[trigger] m.edges.contains((x, Some(c), y));
                assert(look@.contains(x));
                assert(labels@.contains(c));
                let j = choose|j: int| 0 <= j < labels@.len() && labels@[j] == c;
                assert(labels@[j] == c);
            } else {
                assert(reg[d as int] == reg0[d as int]);
                let t = choose|t: int| 0 <= t < trans0.len() && key_of(#[trigger] trans0[t]) == (d, c);
                assert(trans[t] == trans0[t]);
            }
        }
        assert forall|t: int| 0 <= t < trans.len() implies (#[trigger] trans[t]).0.0 < next + 1 by {
            if t < trans0.len() {
                assert(trans[t] == trans0[t]);
                assert(entry_ok(m, reg0, trans0[t]) && trans0[t].0.0 < next);
            }
        }
        assert(reg[0] == reg0[0]);
    }
}

impl Dfa {
    /// Determinizes `nfa` by subset construction: the start state stands for
    /// the closure of the NFA's start, and each state, once registered, is
    /// expanded on every character that labels a transition out of its set.
    /// The registry serves as the worklist: ids from `next` on are the states
    /// not yet expanded, and each id is expanded exactly once.
    pub fn from_nfa(nfa: Nfa) -> (r: Dfa)
        ensures
            r@.subset_automaton_of(nfa@),
    {
        let ghost m = nfa@;
        let ghost u = set![m.start] + m.targets();
        proof {
            nfa.lemma_finite();
            lemma_subsets_finite(u);
        }
        let mut context = DfaContext::new();
        let seed: Vec<NfaState> = vec![nfa.start_state()];
        assert(seed@.to_set() =~= set![m.start]) by {
            assert(seed@[0] == m.start);
        }
        let start_states = nfa.epsilon_closure(&seed);
        proof {
            lemma_closure_least(m, set![m.start]);
            lemma_closure_within_targets(m, set![m.start]);
            assert(m.run(Seq::empty()) == m.start_set());
            assert(m.start_set().contains(m.start));
            lemma_registered(context@, m.start_set());
        }
        let start = context.get_state(start_states.as_slice());
        let mut transitions: Vec<(DfaState, char, DfaState)> = Vec::new();
        let mut next: usize = 0;
        assert(set_ok(m, u, context@[0]));
        while next < context.len()
            invariant
                context.wf(),
                built_upto(m, u, context@, transitions@, next as nat),
                start.0 == 0,
                m == nfa@,
                u == set![m.start] + m.targets(),
                u.finite(),
                subsets_of(u).finite(),
            decreases subsets_of(u).len() - next,
        {
            proof {
                assert(context@.to_set().subset_of(subsets_of(u))) by {
                    assert forall|s: Set<NfaState>| context@.to_set().contains(s) implies subsets_of(
                        u,
                    ).contains(s) by {
                        let d = choose|d: int| 0 <= d < context@.len() && context@[d] == s;
                        assert(set_ok(m, u, context@[d]));
                    }
                }
                context@.unique_seq_to_set();
                vstd::set_lib::lemma_len_subset(context@.to_set(), subsets_of(u));
            }
            expand(&nfa, &mut context, &mut transitions, next, Ghost(u));
            next += 1;
        }
        let mut accepting: Vec<bool> = Vec::new();
        let mut d: usize = 0;
        while d < context.len()
            invariant
                d <= context@.len(),
                accepting@.len() == d,
                context.wf(),
                m == nfa@,
                forall|e: int|
                    0 <= e < d ==> #[trigger] accepting@[e] == exists|x: NfaState|
                        context@[e].contains(x) && m.accepts.contains(x),
            decreases context@.len() - d,
        {
            let look = context.states_of(d);
            accepting.push(meets_accepts(&nfa, &look));
            d += 1;
        }
        let dfa = Dfa { start, accepting, transitions, sets: Ghost(context@) };
        proof {
            lemma_built(&dfa, m, u);
        }
        dfa
    }
}

/// A finished construction is the subset automaton.
proof fn lemma_built(dfa: &Dfa, m: NfaModel, u: Set<NfaState>)
    requires
        built_upto(m, u, dfa.sets@, dfa.transitions@, dfa.sets@.len()),
        dfa.sets@.no_duplicates(),
        dfa.start.0 == 0,
        dfa.accepting@.len() == dfa.sets@.len(),
        forall|e: int|
            0 <= e < dfa.sets@.len() ==> #[trigger] dfa.accepting@[e] == exists|x: NfaState|
                dfa.sets@[e].contains(x) && m.accepts.contains(x),
    ensures
        dfa@.subset_automaton_of(m),
{
    let v = dfa@;
    let reg = dfa.sets@;
    let trans = dfa.transitions@;
    assert(v.sets == reg);
    assert(v.sets.no_duplicates());
    assert(v.start == 0);
    assert(v.sets.len() > 0);
    assert(v.sets[0] == m.start_set());
    assert forall|d: nat, c: char|
        #[trigger] v.next.dom().contains((d, c)) <==> d < v.sets.len() && m.move_on(
            v.sets[d as int],
            c,
        ) != Set::<NfaState>::empty() by {
        if v.next.dom().contains((d, c)) {
            let t = choose|t: int| 0 <= t < trans.len() && key_of(#[trigger] trans[t]) == (d, c);
            assert(entry_ok(m, reg, trans[t]));
        }
        if d < v.sets.len() && m.move_on(v.sets[d as int], c) != Set::<NfaState>::empty() {
            assert(m.move_on(reg[d as int], c) == m.move_on(v.sets[d as int], c));
            let t = choose|t: int| 0 <= t < trans.len() && key_of(#[trigger] trans[t]) == (d, c);
            assert(v.next.dom().contains((d, c)));
        }
    }
    assert forall|d: nat, c: char|
        #[trigger] v.next.dom().contains((d, c)) implies v.next[(d, c)] < v.sets.len()
            && v.sets[v.next[(d, c)] as int] == m.step(v.sets[d as int], c) by {
        let t = choose|t: int| 0 <= t < trans.len() && key_of(#[trigger] trans[t]) == (d, c);
        assert(entry_ok(m, reg, trans[t]));
    }
    assert forall|d: nat|
        #[trigger] v.accepts.contains(d) <==> d < v.sets.len() && exists|x: NfaState|
            v.sets[d as int].contains(x) && m.accepts.contains(x) by {
        if d < v.sets.len() {
            assert(dfa.accepting@[d as int] == exists|x: NfaState|
                reg[d as int].contains(x) && m.accepts.contains(x));
        }
    }
    assert forall|e: int| #![trigger v.sets[e]] 0 <= e < v.sets.len() implies v.sets[e] != Set::<
        NfaState,
    >::empty() by {
        assert(set_ok(m, u, reg[e]));
    }

    assert forall|e: int| #![trigger v.sets[e]] 0 <= e < v.sets.len() implies (exists|w: Seq<char>|
        m.run(w) == v.sets[e]) by {
        assert(set_ok(m, u, reg[e]));
    }
}

/// `a` and `b` are the same automaton up to the numbering of their states,
/// matched by the sets of NFA states they stand for: the same sets occur in
/// both, the start states stand for the same set, and states that stand for
/// the same set agree on acceptance, on which characters have a move, and on
/// the set each move leads to.
pub open spec fn isomorphic(a: DfaModel, b: DfaModel) -> bool {
    &&& a.sets.to_set() == b.sets.to_set()
    &&& a.sets[a.start as int] == b.sets[b.start as int]
    &&& forall|i: nat, j: nat|
        #![trigger a.sets[i as int], b.sets[j as int]]
        i < a.sets.len() && j < b.sets.len() && a.sets[i as int] == b.sets[j as int] ==> {
            &&& a.accepts.contains(i) == b.accepts.contains(j)
            &&& forall|c: char|
                #![trigger a.next.dom().contains((i, c)), b.next.dom().contains((j, c))]
                {
                    &&& a.next.dom().contains((i, c)) == b.next.dom().contains((j, c))
                    &&& a.next.dom().contains((i, c)) ==> a.sets[a.next[(i, c)] as int]
                        == b.sets[b.next[(j, c)] as int]
                }
        }
}

/// Reading a word in a subset automaton follows the NFA: the run is defined
/// exactly when the NFA's set of states after the word is non-empty, and then
/// ends in the state that stands for that set.
pub proof fn lemma_subset_run(d: DfaModel, m: NfaModel, w: Seq<char>)
    requires
        d.subset_automaton_of(m),
    ensures
        match d.run(w) {
            Some(s) => s < d.sets.len() && d.sets[s as int] == m.run(w),
            None => m.run(w) == Set::<NfaState>::empty(),
        },
    decreases w.len(),
{
    if w.len() > 0 {
        let v = w.drop_last();
        let c = w.last();
        lemma_subset_run(d, m, v);
        lemma_closure_empty(m);
        match d.run(v) {
            Some(s) => {},
            None => {
                assert(m.move_on(m.run(v), c) =~= Set::<NfaState>::empty());
            },
        }
    }
}

/// A subset automaton accepts exactly the words that its NFA accepts.
pub proof fn lemma_subset_language(d: DfaModel, m: NfaModel, w: Seq<char>)
    requires
        d.subset_automaton_of(m),
    ensures
        d.accepts_word(w) == m.accepts_word(w),
{
    lemma_subset_run(d, m, w);
    match d.run(w) {
        Some(s) => {
            assert(d.accepts.contains(s) == exists|x: NfaState|
                d.sets[s as int].contains(x) && m.accepts.contains(x));
        },
        None => {},
    }
}

/// Every state of a subset automaton stands for a set that the other subset
/// automaton of the same NFA also has a state for.
proof fn lemma_sets_shared(a: DfaModel, b: DfaModel, m: NfaModel)
    requires
        a.subset_automaton_of(m),
        b.subset_automaton_of(m),
    ensures
        a.sets.to_set().subset_of(b.sets.to_set()),
{
    assert forall|s: Set<NfaState>| a.sets.to_set().contains(s) implies b.sets.to_set().contains(s) by {
        let i = choose|i: int| 0 <= i < a.sets.len() && a.sets[i] == s;
        assert(a.sets[i] != Set::<NfaState>::empty());
        let w = choose|w: Seq<char>| m.run(w) == a.sets[i];
        lemma_subset_run(b, m, w);
        let j = b.run(w).unwrap();
        assert(b.sets[j as int] == s);
    }
}

/// Determinizing one NFA twice gives the same automaton up to the numbering
/// of states: any two subset automata of an NFA are isomorphic, and accept
/// the same words.
pub proof fn lemma_subset_automata_isomorphic(a: DfaModel, b: DfaModel, m: NfaModel)
    requires
        a.subset_automaton_of(m),
        b.subset_automaton_of(m),
    ensures
        isomorphic(a, b),
        forall|w: Seq<char>| a.accepts_word(w) == b.accepts_word(w),
{
    lemma_sets_shared(a, b, m);
    lemma_sets_shared(b, a, m);
    assert(a.sets.to_set() =~= b.sets.to_set());
    assert forall|i: nat, j: nat|
        #![trigger a.sets[i as int], b.sets[j as int]]
        i < a.sets.len() && j < b.sets.len() && a.sets[i as int] == b.sets[j as int] implies {
            &&& a.accepts.contains(i) == b.accepts.contains(j)
            &&& forall|c: char|
                #![trigger a.next.dom().contains((i, c)), b.next.dom().contains((j, c))]
                {
                    &&& a.next.dom().contains((i, c)) == b.next.dom().contains((j, c))
                    &&& a.next.dom().contains((i, c)) ==> a.sets[a.next[(i, c)] as int]
                        == b.sets[b.next[(j, c)] as int]
                }
        } by {
        assert(a.accepts.contains(i) == b.accepts.contains(j));
        assert forall|c: char|
            #![trigger a.next.dom().contains((i, c)), b.next.dom().contains((j, c))]
            {
                &&& a.next.dom().contains((i, c)) == b.next.dom().contains((j, c))
                &&& a.next.dom().contains((i, c)) ==> a.sets[a.next[(i, c)] as int]
                    == b.sets[b.next[(j, c)] as int]
            } by {
            assert(a.next.dom().contains((i, c)) == b.next.dom().contains((j, c)));
        }
    }
    assert forall|w: Seq<char>| a.accepts_word(w) == b.accepts_word(w) by {
        lemma_subset_language(a, m, w);
        lemma_subset_language(b, m, w);
    }
}

/// Compiling one syntax tree twice, each time with a fresh state counter,
/// gives isomorphic DFAs: both assemble the same NFA, and any two subset
/// automata of one NFA are isomorphic.
pub proof fn lemma_compile_deterministic(ast: Ast, a: DfaModel, b: DfaModel)
    requires
        a.subset_automaton_of(thompson(ast, 0).0),
        b.subset_automaton_of(thompson(ast, 0).0),
    ensures
        isomorphic(a, b),
{
    lemma_subset_automata_isomorphic(a, b, thompson(ast, 0).0);
}

} // verus!
