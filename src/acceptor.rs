//! Deterministic finite acceptors over string states and symbols.
use vstd::prelude::*;

use crate::word::{over, Symbol};

verus! {

/// A state label.
pub type State = String;

/// Why simulating a word on an acceptor failed.
#[derive(Debug, Clone, Copy, PartialEq, Eq, Structural)]
pub enum RunError {
    /// The word holds a symbol outside the acceptor's alphabet.
    UnknownSymbol,
    /// A reached state has no transition on an alphabet symbol.
    MissingTransition,
}

/// A transition as plain values: source state, symbol, target state.
pub type Edge = (Seq<char>, Seq<char>, Seq<char>);

/// The target of the last edge of `ts` that leaves `q` on `a`.
pub open spec fn lookup_last(ts: Seq<Edge>, q: Seq<char>, a: Seq<char>) -> Option<Seq<char>>
    decreases ts.len(),
{
    if ts.len() == 0 {
        None
    } else if ts.last().0 == q && ts.last().1 == a {
        Some(ts.last().2)
    } else {
        lookup_last(ts.drop_last(), q, a)
    }
}

/// The plain value of a list of transitions.
pub open spec fn edges_view(ts: Seq<(String, String, String)>) -> Seq<Edge> {
    Seq::new(ts.len(), |i: int| (ts[i].0@, ts[i].1@, ts[i].2@))
}

/// The symbols named by a list of transitions.
pub open spec fn edge_symbols(ts: Seq<Edge>) -> Set<Seq<char>> {
    Set::new(|a: Seq<char>| exists|i: int| 0 <= i < ts.len() && ts[i].1 == a)
}

/// The states named by a list of transitions, as source or target.
pub open spec fn edge_states(ts: Seq<Edge>) -> Set<Seq<char>> {
    Set::new(
        |q: Seq<char>|
            exists|i: int| 0 <= i < ts.len() && (ts[i].0 == q || ts[i].2 == q),
    )
}

/// An immutable deterministic finite acceptor.
///
/// The transition function is given by a list of triples; where two triples
/// share a state and a symbol, the later one holds.
#[derive(Debug)]
pub struct DFA {
    states: Vec<State>,
    alphabet: Vec<Symbol>,
    init_state: State,
    transitions: Vec<(State, Symbol, State)>,
    final_states: Vec<State>,
}

impl DFA {
    /// Every state: the initial one and those that the transitions name.
    pub closed spec fn states_view(&self) -> Seq<Seq<char>> {
        self.states.deep_view()
    }

    /// The alphabet: every symbol that the transitions name.
    pub closed spec fn alphabet_view(&self) -> Seq<Seq<char>> {
        self.alphabet.deep_view()
    }

    pub closed spec fn init_view(&self) -> Seq<char> {
        self.init_state@
    }

    pub closed spec fn edges(&self) -> Seq<Edge> {
        edges_view(self.transitions@)
    }

    pub closed spec fn finals_view(&self) -> Seq<Seq<char>> {
        self.final_states.deep_view()
    }

    /// The transition function.
    pub open spec fn delta(&self, q: Seq<char>, a: Seq<char>) -> Option<Seq<char>> {
        lookup_last(self.edges(), q, a)
    }

    /// The state reached from the initial state by reading `w`.
    pub open spec fn reach(&self, w: Seq<Seq<char>>) -> Result<Seq<char>, RunError>
        decreases w.len(),
    {
        if w.len() == 0 {
            Ok(self.init_view())
        } else {
            match self.reach(w.drop_last()) {
                Err(e) => Err(e),
                Ok(q) => if !self.alphabet_view().contains(w.last()) {
                    Err(RunError::UnknownSymbol)
                } else {
                    match self.delta(q, w.last()) {
                        None => Err(RunError::MissingTransition),
                        Some(p) => Ok(p),
                    }
                },
            }
        }
    }

    /// Whether `w` is accepted, or why it could not be read.
    pub open spec fn accepts(&self, w: Seq<Seq<char>>) -> Result<bool, RunError> {
        match self.reach(w) {
            Err(e) => Err(e),
            Ok(q) => Ok(self.finals_view().contains(q)),
        }
    }

    /// What a construction from `ts`, `init` and `finals` holds.
    pub open spec fn built_from(
        &self,
        ts: Seq<Edge>,
        init: Seq<char>,
        finals: Seq<Seq<char>>,
    ) -> bool {
        &&& self.edges() == ts
        &&& self.init_view() == init
        &&& self.finals_view().to_set() == finals.to_set()
        &&& self.alphabet_view().no_duplicates()
        &&& self.alphabet_view().to_set() == edge_symbols(ts)
        &&& self.states_view().no_duplicates()
        &&& self.states_view().to_set() == edge_states(ts).insert(init)
    }
}

impl DFA {
    /// Builds an acceptor from transition triples, an initial state and the
    /// accepting states; the states and the alphabet are those that occur.
    pub fn from_triples(
        transitions: Vec<(State, Symbol, State)>,
        init_state: State,
        final_states: Vec<State>,
    ) -> (r: DFA)
        ensures
            r.built_from(edges_view(transitions@), init_state@, final_states.deep_view()),
    {
        let ghost ts = edges_view(transitions@);
        let mut states: Vec<State> = Vec::new();
        let mut alphabet: Vec<Symbol> = Vec::new();
        push_unique(&mut states, &init_state);
        assert(states.deep_view().no_duplicates());
        let mut i: usize = 0;
        while i < transitions.len()
            invariant
                i <= transitions.len(),
                ts == edges_view(transitions@),
                states.deep_view().no_duplicates(),
                alphabet.deep_view().no_duplicates(),
                alphabet.deep_view().to_set() == edge_symbols(ts.take(i as int)),
                states.deep_view().to_set() == edge_states(ts.take(i as int)).insert(init_state@),
            decreases transitions.len() - i,
        {
            let t = &transitions[i];
            push_unique(&mut states, &t.0);
            push_unique(&mut states, &t.2);
            push_unique(&mut alphabet, &t.1);
            proof {
                let pre = ts.take(i as int);
                let post = ts.take(i + 1);
                assert(post =~= pre.push(ts[i as int]));
                assert(edge_symbols(post) =~= edge_symbols(pre).insert(t.1@)) by {
                    assert(post[i as int].1 == t.1@);
                    assert forall|a: Seq<char>| edge_symbols(pre).contains(a) implies
                        edge_symbols(post).contains(a) by {
                        let k = choose|k: int| 0 <= k < pre.len() && pre[k].1 == a;
                        assert(post[k] == pre[k]);
                    }
                    assert forall|a: Seq<char>| edge_symbols(post).contains(a) && a != t.1@ implies
                        edge_symbols(pre).contains(a) by {
                        let k = choose|k: int| 0 <= k < post.len() && post[k].1 == a;
                        assert(pre[k] == post[k]);
                    }
                }
                assert(edge_states(post).insert(init_state@) =~= edge_states(pre).insert(
                    init_state@,
                ).insert(t.0@).insert(t.2@)) by {
                    assert(post[i as int].0 == t.0@);
                    assert(post[i as int].2 == t.2@);
                    assert forall|q: Seq<char>| edge_states(pre).contains(q) implies
                        edge_states(post).contains(q) by {
                        let k = choose|k: int|
                            0 <= k < pre.len() && (pre[k].0 == q || pre[k].2 == q);
                        assert(post[k] == pre[k]);
                    }
                    assert forall|q: Seq<char>|
                        edge_states(post).contains(q) && q != t.0@ && q != t.2@ implies
                        edge_states(pre).contains(q) by {
                        let k = choose|k: int|
                            0 <= k < post.len() && (post[k].0 == q || post[k].2 == q);
                        assert(pre[k] == post[k]);
                    }
                }
            }
            i = i + 1;
        }
        assert(ts.take(transitions.len() as int) =~= ts);
        DFA { states, alphabet, init_state, transitions, final_states }
    }
}

impl DFA {
    /// Builds an acceptor from `((state, symbol), next)` triples, an initial
    /// state and the accepting states, all given as labels.
    pub fn new(
        transitions: Vec<((&str, &str), &str)>,
        init_state: &str,
        final_states: Vec<&str>,
    ) -> (r: DFA)
        ensures
            r.built_from(
                Seq::new(
                    transitions@.len(),
                    |i: int|
                        (transitions@[i].0.0@, transitions@[i].0.1@, transitions@[i].1@),
                ),
                init_state@,
                Seq::new(final_states@.len(), |i: int| final_states@[i]@),
            ),
    {
        let mut ts: Vec<(State, Symbol, State)> = Vec::new();
        let mut i: usize = 0;
        while i < transitions.len()
            invariant
                i <= transitions.len(),
                ts@.len() == i,
                forall|k: int|
                    0 <= k < i ==> (#[trigger] ts@[k]).0@ == transitions@[k].0.0@ && ts@[k].1@
                        == transitions@[k].0.1@ && ts@[k].2@ == transitions@[k].1@,
            decreases transitions.len() - i,
        {
            let t = transitions[i];
            ts.push((t.0.0.to_owned(), t.0.1.to_owned(), t.1.to_owned()));
            i = i + 1;
        }
        let mut fs: Vec<State> = Vec::new();
        let mut j: usize = 0;
        while j < final_states.len()
            invariant
                j <= final_states.len(),
                fs@.len() == j,
                forall|k: int| 0 <= k < j ==> (#[trigger] fs@[k])@ == final_states@[k]@,
            decreases final_states.len() - j,
        {
            fs.push(final_states[j].to_owned());
            j = j + 1;
        }
        let r = DFA::from_triples(ts, init_state.to_owned(), fs);
        proof {
            assert(edges_view(ts@) =~= Seq::new(
                transitions@.len(),
                |i: int| (transitions@[i].0.0@, transitions@[i].0.1@, transitions@[i].1@),
            ));
            assert(fs.deep_view() =~= Seq::new(final_states@.len(), |i: int| final_states@[i]@));
        }
        r
    }

    /// The target of the transition from `q` on `a`, if there is one.
    fn step(&self, q: &State, a: &Symbol) -> (r: Option<&State>)
        ensures
            match r {
                Some(p) => self.delta(q@, a@) == Some(p@),
                None => self.delta(q@, a@) is None,
            },
    {
        let mut i: usize = self.transitions.len();
        assert(self.edges().take(i as int) =~= self.edges());
        while i > 0
            invariant
                i <= self.transitions.len(),
                self.delta(q@, a@) == lookup_last(self.edges().take(i as int), q@, a@),
            decreases i,
        {
            proof {
                assert(self.edges().take(i as int).drop_last() =~= self.edges().take(i - 1));
            }
            let t = &self.transitions[i - 1];
            if t.0 == *q && t.1 == *a {
                return Some(&t.2);
            }
            i = i - 1;
        }
        None
    }

    /// Simulates `input` from the initial state and tells whether the state
    /// reached is accepting.
    pub fn run(&self, input: &[Symbol]) -> (r: Result<bool, RunError>)
        ensures
            r == self.accepts(input.deep_view()),
    {
        let ghost w = input.deep_view();
        let mut state: &State = &self.init_state;
        let mut i: usize = 0;
        assert(w.take(0) =~= Seq::<Seq<char>>::empty());
        while i < input.len()
            invariant
                i <= input.len(),
                w == input.deep_view(),
                self.reach(w.take(i as int)) == Ok::<Seq<char>, RunError>(state@),
            decreases input.len() - i,
        {
            proof {
                assert(w.take(i + 1).drop_last() =~= w.take(i as int));
                assert(w.take(i + 1).last() == input[i as int]@);
            }
            if !contains_label(&self.alphabet, &input[i]) {
                proof {
                    self.lemma_reach_error_persists(w, i + 1);
                }
                return Err(RunError::UnknownSymbol);
            }
            match self.step(state, &input[i]) {
                None => {
                    proof {
                        self.lemma_reach_error_persists(w, i + 1);
                    }
                    return Err(RunError::MissingTransition);
                },
                Some(p) => {
                    state = p;
                },
            }
            i = i + 1;
        }
        assert(w.take(input.len() as int) =~= w);
        Ok(contains_label(&self.final_states, state))
    }

    /// The alphabet, in the order in which the transitions first name each symbol.
    pub fn get_alphabet(&self) -> (r: &[Symbol])
        ensures
            r.deep_view() == self.alphabet_view(),
    {
        self.alphabet.as_slice()
    }

    /// The number of distinct states.
    pub fn states_size(&self) -> (r: usize)
        ensures
            r == self.states_view().len(),
    {
        self.states.len()
    }

    /// The distinct states.
    pub fn get_states(&self) -> (r: &[State])
        ensures
            r.deep_view() == self.states_view(),
    {
        self.states.as_slice()
    }

    /// The initial state.
    pub fn get_init_state(&self) -> (r: &State)
        ensures
            r@ == self.init_view(),
    {
        &self.init_state
    }

    /// The accepting states.
    pub fn get_final_states(&self) -> (r: &[State])
        ensures
            r.deep_view() == self.finals_view(),
    {
        self.final_states.as_slice()
    }

    /// The transition triples, in the order given at construction.
    pub fn get_transitions(&self) -> (r: &[(State, Symbol, State)])
        ensures
            edges_view(r@) == self.edges(),
    {
        self.transitions.as_slice()
    }
}

/// Whether `v` holds `s`.
pub fn contains_label(v: &[String], s: &String) -> (r: bool)
    ensures
        r == v.deep_view().contains(s@),
{
    let mut i: usize = 0;
    while i < v.len()
        invariant
            i <= v.len(),
            forall|k: int| 0 <= k < i ==> v.deep_view()[k] != s@,
        decreases v.len() - i,
    {
        if v[i] == *s {
            assert(v.deep_view()[i as int] == s@);
            return true;
        }
        i = i + 1;
    }
    false
}

impl DFA {
    /// Once reading fails, reading further fails the same way.
    pub proof fn lemma_reach_error_persists(&self, w: Seq<Seq<char>>, n: int)
        requires
            0 <= n <= w.len(),
            self.reach(w.take(n)) is Err,
        ensures
            self.reach(w) == self.reach(w.take(n)),
        decreases w.len(),
    {
        if n == w.len() {
            assert(w.take(n) =~= w);
        } else {
            assert(w.drop_last().take(n) =~= w.take(n));
            self.lemma_reach_error_persists(w.drop_last(), n);
        }
    }
}

impl DFA {
    /// The states are the initial state and those that the transitions name.
    #[verifier::type_invariant]
    pub closed spec fn well_formed(self) -> bool {
        self.states_view().to_set() == edge_states(self.edges()).insert(self.init_view())
    }

    /// Every state has a transition on every symbol of the alphabet.
    pub open spec fn total(&self) -> bool {
        forall|q: Seq<char>, a: Seq<char>|
            self.states_view().contains(q) && self.alphabet_view().contains(a) ==> (
            #[trigger] self.delta(q, a)) is Some
    }

    /// A total acceptor reads every word over its alphabet to one of its states.
    pub proof fn lemma_total_reads(&self, w: Seq<Seq<char>>)
        requires
            self.well_formed(),
            self.total(),
            over(w, self.alphabet_view()),
        ensures
            self.reach(w) is Ok,
            self.states_view().contains(self.reach(w)->Ok_0),
            self.accepts(w) is Ok,
        decreases w.len(),
    {
        if w.len() == 0 {
            assert(self.states_view().to_set().contains(self.init_view()));
        } else {
            let u = w.drop_last();
            assert(over(u, self.alphabet_view())) by {
                assert forall|i: int| 0 <= i < u.len() implies self.alphabet_view().contains(#[trigger] u[i]) by {
                    assert(u[i] == w[i]);
                }
            }
            self.lemma_total_reads(u);
            let q = self.reach(u)->Ok_0;
            assert(self.alphabet_view().contains(w[w.len() - 1]));
            assert(self.delta(q, w.last()) is Some);
            lemma_lookup_last_names_target(self.edges(), q, w.last());
            assert(self.states_view().to_set().contains(self.reach(w)->Ok_0));
        }
    }
}

/// A target that the lookup finds is named by the transitions.
pub proof fn lemma_lookup_last_names_target(ts: Seq<Edge>, q: Seq<char>, a: Seq<char>)
    ensures
        lookup_last(ts, q, a) matches Some(p) ==> edge_states(ts).contains(p),
    decreases ts.len(),
{
    if ts.len() > 0 {
        lemma_lookup_last_names_target(ts.drop_last(), q, a);
        if !(ts.last().0 == q && ts.last().1 == a) {
            if let Some(p) = lookup_last(ts, q, a) {
                let k = choose|k: int|
                    0 <= k < ts.drop_last().len() && (ts.drop_last()[k].0 == p || ts.drop_last()[k].2 == p);
                assert(ts[k] == ts.drop_last()[k]);
            }
        } else {
            assert(ts[ts.len() - 1] == ts.last());
        }
    }
}

/// Appends `s` to `v` unless `v` already holds it.
fn push_unique(v: &mut Vec<String>, s: &String)
    ensures
        final(v).deep_view().to_set() == old(v).deep_view().to_set().insert(s@),
        old(v).deep_view().no_duplicates() ==> final(v).deep_view().no_duplicates(),
{
    let mut i: usize = 0;
    while i < v.len()
        invariant
            i <= v.len(),
            v == old(v),
            forall|k: int| 0 <= k < i ==> v.deep_view()[k] != s@,
        decreases v.len() - i,
    {
        if v[i] == *s {
            assert(v.deep_view().to_set().insert(s@) =~= v.deep_view().to_set()) by {
                assert(v.deep_view()[i as int] == s@);
            }
            return;
        }
        i = i + 1;
    }
    let ghost before = v.deep_view();
    v.push(s.clone());
    assert(v.deep_view() =~= before.push(s@));
    proof {
        before.lemma_push_to_set_commute(s@);
    }
}

} // verus!
