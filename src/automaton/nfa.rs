//! Nondeterministic automata and their assembly from a syntax tree.
use vstd::prelude::*;

use crate::parser::Ast;

verus! {

broadcast use {vstd::std_specs::vec::group_vec_axioms, vstd::seq_lib::group_seq_properties};

/// An NFA state: a number handed out by [`new_state`].
pub type NfaState = usize;

/// A transition: source, label (`None` for an epsilon move), destination.
pub type Edge = (NfaState, Option<char>, NfaState);

/// The mathematical content of an NFA: its start state, its accept states and
/// its transition relation.
pub struct NfaModel {
    pub start: NfaState,
    pub accepts: Set<NfaState>,
    pub edges: Set<Edge>,
}

/// The epsilon edges `x -ε-> to` for every `x` in `from`.
pub open spec fn links(from: Set<NfaState>, to: NfaState) -> Set<Edge> {
    Set::new(|e: Edge| from.contains(e.0) && e.1 is None && e.2 == to)
}

/// Fragment of a single character: `s0 --c--> s1`.
pub open spec fn frag_char(c: char, next: nat) -> (NfaModel, nat) {
    let s0 = next as NfaState;
    let s1 = (next + 1) as NfaState;
    (NfaModel { start: s0, accepts: set![s1], edges: set![(s0, Some(c), s1)] }, next + 2)
}

/// Fragment of the empty pattern: `s0 -ε-> s1`.
pub open spec fn frag_empty(next: nat) -> (NfaModel, nat) {
    let s0 = next as NfaState;
    let s1 = (next + 1) as NfaState;
    (NfaModel { start: s0, accepts: set![s1], edges: set![(s0, None, s1)] }, next + 2)
}

/// Repetition: a fresh accepting start `s0` enters the inner fragment, and every
/// inner accept state loops back to the inner start.
pub open spec fn frag_star(inner: NfaModel, s0: NfaState) -> NfaModel {
    NfaModel {
        start: s0,
        accepts: inner.accepts.insert(s0),
        edges: inner.edges.insert((s0, None, inner.start)) + links(inner.accepts, inner.start),
    }
}

/// Alternation: a fresh start `s0` with epsilon moves into both fragments.
pub open spec fn frag_or(a: NfaModel, b: NfaModel, s0: NfaState) -> NfaModel {
    NfaModel {
        start: s0,
        accepts: a.accepts + b.accepts,
        edges: a.edges + b.edges + set![(s0, None, a.start), (s0, None, b.start)],
    }
}

/// Concatenation: the accept states of `a` pass on to the start of `b`.
pub open spec fn frag_concat(a: NfaModel, b: NfaModel) -> NfaModel {
    NfaModel { start: a.start, accepts: b.accepts, edges: a.edges + b.edges + links(a.accepts, b.start) }
}

/// The fragment built for `ast` when states are numbered from `next` on, and
/// the first number left unused.
pub open spec fn thompson(ast: Ast, next: nat) -> (NfaModel, nat)
    decreases ast, 0nat,
{
    match ast {
        Ast::Char(c) => frag_char(c, next),
        Ast::Empty => frag_empty(next),
        Ast::Star(inner) => {
            let (f, n1) = thompson(*inner, next);
            (frag_star(f, n1 as NfaState), n1 + 1)
        },
        Ast::Or(a, b) => {
            let (fa, n1) = thompson(*a, next);
            let (fb, n2) = thompson(*b, n1);
            (frag_or(fa, fb, n2 as NfaState), n2 + 1)
        },
        Ast::Concat(items) => {
            if items@.len() == 0 {
                frag_empty(next)
            } else {
                thompson_prefix(items@, items@.len(), next)
            }
        },
    }
}

/// The concatenation of the first `k` items (`k >= 1`), built left to right.
pub open spec fn thompson_prefix(items: Seq<Ast>, k: nat, next: nat) -> (NfaModel, nat)
    decreases items, k,
{
    if k <= 1 || k > items.len() {
        if items.len() == 0 {
            frag_empty(next)
        } else {
            thompson(items[0], next)
        }
    } else {
        let (fa, n1) = thompson_prefix(items, (k - 1) as nat, next);
        let (fb, n2) = thompson(items[k - 1], n1);
        (frag_concat(fa, fb), n2)
    }
}

/// Building a fragment takes at least one fresh state.
pub proof fn lemma_thompson_grows(ast: Ast, next: nat)
    ensures
        thompson(ast, next).1 > next,
    decreases ast, 0nat,
{
    match ast {
        Ast::Star(inner) => lemma_thompson_grows(*inner, next),
        Ast::Or(a, b) => {
            lemma_thompson_grows(*a, next);
            lemma_thompson_grows(*b, thompson(*a, next).1);
        },
        Ast::Concat(items) => {
            if items@.len() > 0 {
                lemma_prefix_grows(items@, items@.len(), next);
            }
        },
        _ => {},
    }
}

/// Each further item of a concatenation takes more fresh states.
pub proof fn lemma_prefix_grows(items: Seq<Ast>, k: nat, next: nat)
    requires
        1 <= k <= items.len(),
    ensures
        thompson_prefix(items, k, next).1 > next,
        forall|j: nat|
            1 <= j <= k ==> #[trigger] thompson_prefix(items, j, next).1 <= thompson_prefix(
                items,
                k,
                next,
            ).1,
    decreases items, k,
{
    if k == 1 {
        lemma_thompson_grows(items[0], next);
    } else {
        lemma_prefix_grows(items, (k - 1) as nat, next);
        lemma_thompson_grows(items[k - 1], thompson_prefix(items, (k - 1) as nat, next).1);
    }
}

impl NfaModel {
    /// No epsilon move leads out of `t`.
    pub open spec fn eps_closed(self, t: Set<NfaState>) -> bool {
        forall|x: NfaState, y: NfaState|
            #![trigger t.contains(x), self.edges.contains((x, None, y))]
            t.contains(x) && self.edges.contains((x, None, y)) ==> t.contains(y)
    }

    /// The epsilon-closure of `s`: the states that lie in every superset of `s`
    /// that no epsilon move leaves, which makes it the least such superset.
    pub open spec fn closure(self, s: Set<NfaState>) -> Set<NfaState> {
        Set::new(
            |x: NfaState|
                forall|t: Set<NfaState>|
                    #![trigger self.eps_closed(t), t.contains(x)]
                    s.subset_of(t) && self.eps_closed(t) ==> t.contains(x),
        )
    }
}

impl NfaModel {
    /// The states that one move on `c` leads to from the states of `s`.
    pub open spec fn move_on(self, s: Set<NfaState>, c: char) -> Set<NfaState> {
        Set::new(
            |y: NfaState| exists|x: NfaState| s.contains(x) && #[trigger] self.edges.contains((x, Some(c), y)),
        )
    }

    /// Reading `c` from the states of `s`: one move on `c`, then the closure.
    pub open spec fn step(self, s: Set<NfaState>, c: char) -> Set<NfaState> {
        self.closure(self.move_on(s, c))
    }

    /// The states the automaton is in before it reads anything.
    pub open spec fn start_set(self) -> Set<NfaState> {
        self.closure(set![self.start])
    }

    /// The states the automaton is in after reading `w`.
    pub open spec fn run(self, w: Seq<char>) -> Set<NfaState>
        decreases w.len(),
    {
        if w.len() == 0 {
            self.start_set()
        } else {
            self.step(self.run(w.drop_last()), w.last())
        }
    }

    /// Whether the automaton accepts `w`: reading it can end in an accept state.
    pub open spec fn accepts_word(self, w: Seq<char>) -> bool {
        exists|x: NfaState| self.run(w).contains(x) && self.accepts.contains(x)
    }

    /// The states that some transition leads to.
    pub open spec fn targets(self) -> Set<NfaState> {
        self.edges.map(|e: Edge| e.2)
    }
}

/// The epsilon-closure of `s` adds to `s` only states that transitions lead to.
pub proof fn lemma_closure_within_targets(m: NfaModel, s: Set<NfaState>)
    ensures
        m.closure(s).subset_of(s + m.targets()),
{
    lemma_closure_least(m, s);
    let t = s + m.targets();
    assert forall|x: NfaState, y: NfaState|
        #![trigger t.contains(x), m.edges.contains((x, None, y))]
        t.contains(x) && m.edges.contains((x, None, y)) implies t.contains(y) by {
        assert(m.targets().contains(y)) by {
            assert(m.edges.contains((x, None, y)));
        }
    }
    assert(s.subset_of(t));
}

/// The epsilon-closure of the empty set is empty.
pub proof fn lemma_closure_empty(m: NfaModel)
    ensures
        m.closure(Set::empty()) == Set::<NfaState>::empty(),
{
    lemma_closure_least(m, Set::empty());
    assert(m.eps_closed(Set::empty()));
    assert(Set::<NfaState>::empty().subset_of(Set::empty()));
    assert(m.closure(Set::empty()) =~= Set::<NfaState>::empty());
}

/// The states one move leads to are all transition targets.
pub proof fn lemma_move_within_targets(m: NfaModel, s: Set<NfaState>, c: char)
    ensures
        m.move_on(s, c).subset_of(m.targets()),
{
    assert forall|y: NfaState| m.move_on(s, c).contains(y) implies m.targets().contains(y) by {
        let x = choose|x: NfaState| s.contains(x) && #[trigger] m.edges.contains((x, Some(c), y));
        assert(m.edges.contains((x, Some(c), y)));
    }
}

/// The epsilon-closure of `s` contains `s`, is closed under epsilon moves,
/// and lies inside every closed superset of `s`.
pub proof fn lemma_closure_least(m: NfaModel, s: Set<NfaState>)
    ensures
        s.subset_of(m.closure(s)),
        m.eps_closed(m.closure(s)),
        forall|t: Set<NfaState>|
            s.subset_of(t) && m.eps_closed(t) ==> #[trigger] m.closure(s).subset_of(t),
{
    let c = m.closure(s);
    assert forall|x: NfaState, y: NfaState|
        #![trigger c.contains(x), m.edges.contains((x, None, y))]
        c.contains(x) && m.edges.contains((x, None, y)) implies c.contains(y) by {
        assert forall|t: Set<NfaState>|
            #![trigger m.eps_closed(t), t.contains(y)]
            s.subset_of(t) && m.eps_closed(t) implies t.contains(y) by {
            assert(t.contains(x));
        }
    }
}

/// Taking the epsilon-closure twice gives what taking it once gives.
pub proof fn lemma_closure_idempotent(m: NfaModel, s: Set<NfaState>)
    ensures
        m.closure(m.closure(s)) == m.closure(s),
{
    let c = m.closure(s);
    lemma_closure_least(m, s);
    lemma_closure_least(m, c);
    assert(c.subset_of(c));
    assert(m.closure(c).subset_of(c));
    assert(m.closure(m.closure(s)) =~= m.closure(s));
}

/// Whether `x` occurs in `v`.
pub(crate) fn contains_state(v: &Vec<NfaState>, x: NfaState) -> (r: bool)
    ensures
        r == v@.contains(x),
{
    let mut i: usize = 0;
    while i < v.len()
        invariant
            i <= v.len(),
            forall|j: int| 0 <= j < i ==> v@[j] != x,
        decreases v.len() - i,
    {
        if v[i] == x {
            return true;
        }
        i += 1;
    }
    false
}

/// Every state that the fragment `f` mentions lies in `[lo, hi)`.
pub open spec fn within(f: NfaModel, lo: nat, hi: nat) -> bool {
    &&& lo <= f.start < hi
    &&& forall|x: NfaState| #[trigger] f.accepts.contains(x) ==> lo <= x < hi
    &&& forall|e: Edge| #[trigger] f.edges.contains(e) ==> lo <= e.0 < hi && lo <= e.2 < hi
}

/// Fragments stay within the states they allocate: the fragment of `ast`
/// mentions only the states numbered from `next` up to the first number left
/// unused, so fragments built one after the other share no state.
pub proof fn lemma_thompson_fresh(ast: Ast, next: nat)
    requires
        thompson(ast, next).1 <= usize::MAX,
    ensures
        within(thompson(ast, next).0, next, thompson(ast, next).1),
    decreases ast, 0nat,
{
    lemma_thompson_grows(ast, next);
    match ast {
        Ast::Star(inner) => {
            lemma_thompson_fresh(*inner, next);
        },
        Ast::Or(a, b) => {
            lemma_thompson_grows(*a, next);
            lemma_thompson_grows(*b, thompson(*a, next).1);
            lemma_thompson_fresh(*a, next);
            lemma_thompson_fresh(*b, thompson(*a, next).1);
        },
        Ast::Concat(items) => {
            if items@.len() > 0 {
                lemma_prefix_fresh(items@, items@.len(), next);
            }
        },
        _ => {},
    }
}

/// The concatenation of the first `k` items stays within the states it
/// allocates.
pub proof fn lemma_prefix_fresh(items: Seq<Ast>, k: nat, next: nat)
    requires
        1 <= k <= items.len(),
        thompson_prefix(items, k, next).1 <= usize::MAX,
    ensures
        within(thompson_prefix(items, k, next).0, next, thompson_prefix(items, k, next).1),
    decreases items, k,
{
    lemma_prefix_grows(items, k, next);
    if k == 1 {
        lemma_thompson_fresh(items[0], next);
    } else {
        let n1 = thompson_prefix(items, (k - 1) as nat, next).1;
        lemma_prefix_grows(items, (k - 1) as nat, next);
        lemma_thompson_grows(items[k - 1], n1);
        lemma_prefix_fresh(items, (k - 1) as nat, next);
        lemma_thompson_fresh(items[k - 1], n1);
    }
}

/// Hands out a fresh state: the current value of the counter, which then
/// moves on by one.
pub fn new_state(states: &mut NfaState) -> (r: NfaState)
    requires
        *old(states) < usize::MAX,
    ensures
        r == *old(states),
        *final(states) == *old(states) + 1,
{
    *states += 1;
    *states - 1
}

/// A nondeterministic finite automaton over characters.
pub struct Nfa {
    start: NfaState,
    accept: Vec<NfaState>,
    transitions: Vec<Edge>,
}

impl View for Nfa {
    type V = NfaModel;

    closed spec fn view(&self) -> NfaModel {
        NfaModel {
            start: self.start,
            accepts: self.accept@.to_set(),
            edges: self.transitions@.to_set(),
        }
    }
}

/// Adds to `edges` the epsilon edge `x -ε-> to` for every `x` in `from`.
fn link_into(edges: &mut Vec<Edge>, from: &Vec<NfaState>, to: NfaState)
    ensures
        final(edges)@.to_set() == old(edges)@.to_set() + links(from@.to_set(), to),
{
    let ghost start = edges@;
    let mut k: usize = 0;
    while k < from.len()
        invariant
            k <= from.len(),
            edges@.to_set() == start.to_set() + links(from@.take(k as int).to_set(), to),
        decreases from.len() - k,
    {
        proof {
            let taken = from@.take(k as int);
            assert(from@.take(k + 1) == taken.push(from@[k as int]));
            taken.lemma_push_to_set_commute(from@[k as int]);
            edges@.lemma_push_to_set_commute((from@[k as int], None, to));
            assert(links(taken.to_set().insert(from@[k as int]), to) =~= links(taken.to_set(), to).insert(
                (from@[k as int], None, to),
            ));
        }
        edges.push((from[k], None, to));
        k += 1;
    }
    assert(from@.take(from.len() as int) == from@);
}

/// Appends `b` to `a`, as sets.
fn append_all<T>(a: &mut Vec<T>, b: Vec<T>)
    ensures
        final(a)@.to_set() == old(a)@.to_set() + b@.to_set(),
{
    let mut b = b;
    let ghost a0 = a@;
    let ghost b0 = b@;
    a.append(&mut b);
    proof {
        vstd::seq_lib::seq_to_set_distributes_over_add(a0, b0);
    }
}

impl Nfa {
    /// An NFA that starts at `state`, with no accept states and no transitions.
    pub fn new(state: NfaState) -> (r: Nfa)
        ensures
            r@.start == state,
            r@.accepts == Set::<NfaState>::empty(),
            r@.edges == Set::<Edge>::empty(),
    {
        let r = Nfa { start: state, accept: Vec::new(), transitions: Vec::new() };
        assert(r.accept@.to_set() =~= Set::<NfaState>::empty());
        assert(r.transitions@.to_set() =~= Set::<Edge>::empty());
        r
    }

    /// Makes `state` an accept state.
    pub fn add_accept(&mut self, state: NfaState)
        ensures
            final(self)@.start == old(self)@.start,
            final(self)@.accepts == old(self)@.accepts.insert(state),
            final(self)@.edges == old(self)@.edges,
    {
        proof {
            self.accept@.lemma_push_to_set_commute(state);
        }
        self.accept.push(state);
    }

    /// Adds the transition `from --char--> to`.
    pub fn add_transition(&mut self, from: NfaState, to: NfaState, char: char)
        ensures
            final(self)@.start == old(self)@.start,
            final(self)@.accepts == old(self)@.accepts,
            final(self)@.edges == old(self)@.edges.insert((from, Some(char), to)),
    {
        proof {
            self.transitions@.lemma_push_to_set_commute((from, Some(char), to));
        }
        self.transitions.push((from, Some(char), to));
    }

    /// Adds the epsilon transition `from -ε-> to`.
    pub fn add_epsilon_transition(&mut self, from: NfaState, to: NfaState)
        ensures
            final(self)@.start == old(self)@.start,
            final(self)@.accepts == old(self)@.accepts,
            final(self)@.edges == old(self)@.edges.insert((from, None, to)),
    {
        proof {
            self.transitions@.lemma_push_to_set_commute((from, None, to));
        }
        self.transitions.push((from, None, to));
    }
}

impl Nfa {
    /// The fragment of the empty pattern: two fresh states joined by an
    /// epsilon move.
    fn empty_fragment(state: &mut NfaState) -> (r: Nfa)
        requires
            *old(state) + 2 <= usize::MAX,
        ensures
            r@ == frag_empty(*old(state) as nat).0,
            *final(state) == frag_empty(*old(state) as nat).1,
    {
        let start = new_state(state);
        let accept = new_state(state);
        let mut nfa = Nfa::new(start);
        nfa.add_accept(accept);
        nfa.add_epsilon_transition(start, accept);
        assert(nfa@.accepts =~= set![accept]);
        assert(nfa@.edges =~= set![(start, None, accept)]);
        nfa
    }

    /// Joins `a` and `b` in sequence: every accept state of `a` moves on to the
    /// start of `b` by an epsilon move.
    fn concat(a: Nfa, b: Nfa) -> (r: Nfa)
        ensures
            r@ == frag_concat(a@, b@),
    {
        let mut r = Nfa { start: a.start, accept: b.accept, transitions: a.transitions };
        append_all(&mut r.transitions, b.transitions);
        link_into(&mut r.transitions, &a.accept, b.start);
        assert(r@.edges =~= frag_concat(a@, b@).edges);
        r
    }

    /// Assembles the NFA fragment of `ast`, numbering fresh states from
    /// `*state` on and leaving `*state` at the first number not used.
    pub fn from_ast(ast: &Ast, state: &mut NfaState) -> (r: Nfa)
        requires
            thompson(*ast, *old(state) as nat).1 <= usize::MAX,
        ensures
            r@ == thompson(*ast, *old(state) as nat).0,
            *final(state) == thompson(*ast, *old(state) as nat).1,
        decreases ast,
    {
        let ghost n0 = *state as nat;
        proof {
            lemma_thompson_grows(*ast, n0);
        }
        match ast {
            Ast::Char(c) => {
                let start = new_state(state);
                let accept = new_state(state);
                let mut nfa = Nfa::new(start);
                nfa.add_accept(accept);
                nfa.add_transition(start, accept, *c);
                assert(nfa@.accepts =~= set![accept]);
                assert(nfa@.edges =~= set![(start, Some(*c), accept)]);
                nfa
            },
            Ast::Empty => Nfa::empty_fragment(state),
            Ast::Star(inner) => {
                proof {
                    lemma_thompson_grows(**inner, n0);
                }
                let mut nfa = Nfa::from_ast(inner, state);
                let ghost f = nfa@;
                let s0 = new_state(state);
                let inner_start = nfa.start;
                link_into(&mut nfa.transitions, &nfa.accept, inner_start);
                nfa.add_epsilon_transition(s0, inner_start);
                nfa.add_accept(s0);
                nfa.start = s0;
                assert(nfa@.edges =~= frag_star(f, s0).edges);
                nfa
            },
            Ast::Or(a, b) => {
                proof {
                    lemma_thompson_grows(**a, n0);
                    lemma_thompson_grows(**b, thompson(**a, n0).1);
                }
                let fa = Nfa::from_ast(a, state);
                let fb = Nfa::from_ast(b, state);
                let s0 = new_state(state);
                let a_start = fa.start;
                let b_start = fb.start;
                let mut nfa = Nfa { start: s0, accept: fa.accept, transitions: fa.transitions };
                append_all(&mut nfa.accept, fb.accept);
                append_all(&mut nfa.transitions, fb.transitions);
                nfa.add_epsilon_transition(s0, a_start);
                nfa.add_epsilon_transition(s0, b_start);
                assert(nfa@.edges =~= frag_or(fa@, fb@, s0).edges);
                nfa
            },
            Ast::Concat(items) => {
                if items.len() == 0 {
                    Nfa::empty_fragment(state)
                } else {
                    let ghost len = items@.len();
                    proof {
                        lemma_prefix_grows(items@, len, n0);
                        assert(thompson_prefix(items@, 1, n0) == thompson(items@[0], n0));
                        assert(thompson_prefix(items@, 1, n0).1 <= thompson_prefix(items@, len, n0).1);
                    }
                    assert(decreases_to!(*ast => *items));
                    let mut acc = Nfa::from_ast(&items[0], state);
                    let mut k: usize = 1;
                    while k < items.len()
                        invariant
                            1 <= k <= items@.len(),
                            len == items@.len(),
                            decreases_to!(*ast => *items),
                            acc@ == thompson_prefix(items@, k as nat, n0).0,
                            *state == thompson_prefix(items@, k as nat, n0).1,
                            thompson_prefix(items@, len, n0).1 <= usize::MAX,
                            forall|j: nat|
                                1 <= j <= len ==> #[trigger] thompson_prefix(items@, j, n0).1
                                    <= thompson_prefix(items@, len, n0).1,
                        decreases items.len() - k,
                    {
                        assert(thompson_prefix(items@, (k + 1) as nat, n0).1 <= usize::MAX);
                        assert(decreases_to!(*items => items[k as int]));
                        let b = Nfa::from_ast(&items[k], state);
                        acc = Nfa::concat(acc, b);
                        k += 1;
                    }
                    acc
                }
            },
        }
    }
}

impl Nfa {
    /// The epsilon-closure of `states`: the input states and all states that
    /// epsilon moves reach from them, each once. Terminates on cyclic epsilon
    /// graphs, since no state is expanded twice.
    pub fn epsilon_closure(&self, states: &Vec<NfaState>) -> (r: Vec<NfaState>)
        ensures
            r@.to_set() == self@.closure(states@.to_set()),
            states@.to_set().subset_of(r@.to_set()),
            r@.no_duplicates(),
    {
        let ghost m = self@;
        let ghost input = states@.to_set();
        let ghost c = m.closure(input);
        let ghost targets = self.transitions@.map_values(|e: Edge| e.2).to_set();
        let ghost universe = input + targets;
        proof {
            lemma_closure_least(m, input);
            vstd::seq_lib::seq_to_set_is_finite(states@);
            vstd::seq_lib::seq_to_set_is_finite(self.transitions@.map_values(|e: Edge| e.2));
        }
        let mut ret: Vec<NfaState> = Vec::new();
        let mut stack: Vec<NfaState> = Vec::new();
        let mut i: usize = 0;
        while i < states.len()
            invariant
                i <= states.len(),
                stack@ == ret@,
                ret@.no_duplicates(),
                ret@.to_set() == states@.take(i as int).to_set(),
            decreases states.len() - i,
        {
            let x = states[i];
            proof {
                states@.take(i as int).lemma_push_to_set_commute(x);
                assert(states@.take(i + 1) == states@.take(i as int).push(x));
                ret@.lemma_push_to_set_commute(x);
            }
            if !contains_state(&ret, x) {
                ret.push(x);
                stack.push(x);
            } else {
                assert(ret@.to_set().insert(x) =~= ret@.to_set());
            }
            i += 1;
        }
        assert(states@.take(states.len() as int) == states@);
        while stack.len() > 0
            invariant
                ret@.no_duplicates(),
                stack@.no_duplicates(),
                forall|x: NfaState| stack@.contains(x) ==> ret@.contains(x),
                input.subset_of(ret@.to_set()),
                ret@.to_set().subset_of(c),
                ret@.to_set().subset_of(universe),
                universe.finite(),
                universe == input + targets,
                m == self@,
                c == m.closure(input),
                m.eps_closed(c),
                targets == self.transitions@.map_values(|e: Edge| e.2).to_set(),
                forall|x: NfaState, y: NfaState|
                    #![trigger ret@.contains(x), m.edges.contains((x, None, y))]
                    ret@.contains(x) && !stack@.contains(x) && m.edges.contains((x, None, y))
                        ==> ret@.contains(y),
            decreases 2 * (universe.len() - ret@.len()) + stack@.len(),
        {
            let ghost r0 = ret@;
            let ghost st0 = stack@;
            proof {
                ret@.unique_seq_to_set();
                vstd::set_lib::lemma_len_subset(ret@.to_set(), universe);
            }
            let s = stack.pop().unwrap();
            assert(st0 == stack@.push(s));
            assert(!stack@.contains(s)) by {
                if stack@.contains(s) {
                    let k = choose|k: int| 0 <= k < stack@.len() && stack@[k] == s;
                    assert(st0[k] == st0[st0.len() - 1]);
                }
            }
            let ghost st1 = stack@;
            let mut j: usize = 0;
            while j < self.transitions.len()
                invariant
                    j <= self.transitions.len(),
                    ret@.no_duplicates(),
                    stack@.no_duplicates(),
                    forall|x: NfaState| stack@.contains(x) ==> ret@.contains(x),
                    forall|x: NfaState| r0.contains(x) ==> ret@.contains(x),
                    forall|x: NfaState| #[trigger] ret@.contains(x) ==> r0.contains(x) || stack@.contains(x),
                    forall|x: NfaState| #[trigger] stack@.contains(x) && r0.contains(x) ==> st0.contains(x),
                    !stack@.contains(s),
                    ret@.len() + st0.len() == stack@.len() + r0.len() + 1,
                    ret@.len() >= r0.len(),
                    universe == input + targets,
                    forall|x: NfaState| st1.contains(x) ==> stack@.contains(x),
                    r0.contains(s),
                    input.subset_of(ret@.to_set()),
                    ret@.to_set().subset_of(c),
                    ret@.to_set().subset_of(universe),
                    m == self@,
                    m.eps_closed(c),
                    targets == self.transitions@.map_values(|e: Edge| e.2).to_set(),
                    forall|k: int|
                        0 <= k < j && (#[trigger] self.transitions@[k]).0 == s
                            && self.transitions@[k].1 is None ==> ret@.contains(
                            self.transitions@[k].2,
                        ),
                decreases self.transitions.len() - j,
            {
                let e = self.transitions[j];
                if e.0 == s && e.1.is_none() {
                    let y = e.2;
                    if !contains_state(&ret, y) {
                        proof {
                            assert(m.edges.contains((s, None, y)));
                            assert(ret@.to_set().contains(s));
                            assert(self.transitions@.map_values(|e: Edge| e.2)[j as int] == y);
                            assert(targets.contains(y));
                            ret@.lemma_push_to_set_commute(y);
                        }
                        ret.push(y);
                        stack.push(y);
                        assert(forall|x: NfaState| stack@.contains(x) ==> ret@.contains(x)) by {
                            assert forall|x: NfaState| stack@.contains(x) implies ret@.contains(x) by {
                                if x != y {
                                    let k = choose|k: int| 0 <= k < stack@.len() && stack@[k] == x;
                                    assert(stack@.drop_last()[k] == x);
                                }
                            }
                        }
                    }
                }
                j += 1;
            }
            proof {
                ret@.unique_seq_to_set();
                vstd::set_lib::lemma_len_subset(ret@.to_set(), universe);
                assert forall|x: NfaState, y: NfaState|
                    #![trigger ret@.contains(x), m.edges.contains((x, None, y))]
                    ret@.contains(x) && !stack@.contains(x) && m.edges.contains((x, None, y))
                        implies ret@.contains(y) by {
                    if x == s {
                        let k = choose|k: int|
                            0 <= k < self.transitions@.len() && self.transitions@[k] == (x, None::<char>, y);
                        assert(self.transitions@[k].0 == s);
                    } else {
                        assert(r0.contains(x));
                        if st0.contains(x) {
                            let k = choose|k: int| 0 <= k < st0.len() && st0[k] == x;
                            assert(k != st0.len() - 1);
                            assert(st1.contains(x)) by {
                                assert(st0.drop_last()[k] == x);
                            }
                        }
                    }
                }
            }
        }
        proof {
            assert(m.eps_closed(ret@.to_set()));
            assert(c.subset_of(ret@.to_set()));
            assert(ret@.to_set() =~= c);
        }
        ret
    }
}

impl Nfa {
    /// The start state.
    pub fn start_state(&self) -> (r: NfaState)
        ensures
            r == self@.start,
    {
        self.start
    }

    /// The accept states, possibly with repetitions.
    pub fn accept_states(&self) -> (r: &Vec<NfaState>)
        ensures
            r@.to_set() == self@.accepts,
    {
        &self.accept
    }

    /// The transitions, possibly with repetitions.
    pub fn transitions(&self) -> (r: &Vec<Edge>)
        ensures
            r@.to_set() == self@.edges,
    {
        &self.transitions
    }

    /// An NFA has finitely many accept states and transitions.
    pub proof fn lemma_finite(&self)
        ensures
            self@.accepts.finite(),
            self@.edges.finite(),
            self@.targets().finite(),
    {
        vstd::seq_lib::seq_to_set_is_finite(self.accept@);
        vstd::seq_lib::seq_to_set_is_finite(self.transitions@);
        self@.edges.lemma_map_finite(|e: Edge| e.2);
    }
}

} // verus!
