use vstd::prelude::*;
use crate::util::str_eq;

verus! {

/// The mathematical value of an automaton. Every contract of the crate speaks
/// of this model: identifiers are character sequences, the transition function
/// is an association sequence from (state, symbol) pairs to states.
pub ghost struct Model {
    pub states: Seq<Seq<char>>,
    pub alphabet: Seq<char>,
    pub transitions: Seq<((Seq<char>, char), Seq<char>)>,
    pub start: Seq<char>,
    pub accept: Seq<Seq<char>>,
    pub description: Option<Seq<char>>,
}

/// Index of the first entry of `ts` whose key is `(q, c)`, or -1 if none is.
pub open spec fn key_index(ts: Seq<((Seq<char>, char), Seq<char>)>, q: Seq<char>, c: char) -> int
    decreases ts.len(),
{
    if ts.len() == 0 {
        -1
    } else if ts[0].0 == (q, c) {
        0
    } else {
        let r = key_index(ts.drop_first(), q, c);
        if r < 0 {
            -1
        } else {
            r + 1
        }
    }
}

/// `key_index` finds the first matching entry, and -1 exactly when none matches.
pub proof fn lemma_key_index(ts: Seq<((Seq<char>, char), Seq<char>)>, q: Seq<char>, c: char)
    ensures
        key_index(ts, q, c) == -1 <==> (forall|i: int| 0 <= i < ts.len() ==> ts[i].0 != (q, c)),
        key_index(ts, q, c) != -1 ==> {
            let k = key_index(ts, q, c);
            &&& 0 <= k < ts.len()
            &&& ts[k].0 == (q, c)
            &&& forall|i: int| 0 <= i < k ==> ts[i].0 != (q, c)
        },
    decreases ts.len(),
{
    if ts.len() == 0 {
    } else if ts[0].0 == (q, c) {
    } else {
        let tail = ts.drop_first();
        lemma_key_index(tail, q, c);
        let r = key_index(tail, q, c);
        if r == -1 {
            assert forall|i: int| 0 <= i < ts.len() implies ts[i].0 != (q, c) by {
                if i > 0 {
                    assert(tail[i - 1] == ts[i]);
                }
            }
        } else {
            assert(ts[r + 1] == tail[r]);
            assert forall|i: int| 0 <= i < r + 1 implies ts[i].0 != (q, c) by {
                if i > 0 {
                    assert(tail[i - 1] == ts[i]);
                }
            }
        }
    }
}

/// No two elements of the sequence are equal.
pub open spec fn distinct_seq<T>(s: Seq<T>) -> bool {
    forall|i: int, j: int| 0 <= i < j < s.len() ==> s[i] != s[j]
}

impl Model {
    /// The transition function is defined on `(q, c)`.
    pub open spec fn has_transition(self, q: Seq<char>, c: char) -> bool {
        key_index(self.transitions, q, c) >= 0
    }

    /// The state that the transition function maps `(q, c)` to.
    pub open spec fn target(self, q: Seq<char>, c: char) -> Seq<char> {
        self.transitions[key_index(self.transitions, q, c)].1
    }

    /// Every transition entry stays inside the declared states and alphabet.
    pub open spec fn entries_closed(self) -> bool {
        forall|i: int|
            0 <= i < self.transitions.len() ==> {
                let e = #[trigger] self.transitions[i];
                let k = e.0;
                &&& self.states.contains(k.0)
                &&& self.alphabet.contains(k.1)
                &&& self.states.contains(e.1)
            }
    }

    /// Totality: every (state, symbol) pair has a transition.
    pub open spec fn total(self) -> bool {
        forall|q: Seq<char>, c: char|
            self.states.contains(q) && self.alphabet.contains(c) ==> #[trigger] self.has_transition(
                q,
                c,
            )
    }

    /// The structural invariants a simulated automaton must satisfy:
    /// the start state is declared, accept states are declared, transition
    /// entries are closed, and the transition function is total.
    pub open spec fn valid(self) -> bool {
        &&& self.states.contains(self.start)
        &&& forall|i: int| 0 <= i < self.accept.len() ==> self.states.contains(#[trigger] self.accept[i])
        &&& self.entries_closed()
        &&& self.total()
    }

    /// Representation well-formedness: the sequences that stand for sets hold
    /// no duplicates, and no transition key occurs twice.
    pub open spec fn wf(self) -> bool {
        &&& distinct_seq(self.states)
        &&& distinct_seq(self.alphabet)
        &&& distinct_seq(self.accept)
        &&& forall|i: int, j: int|
            0 <= i < j < self.transitions.len() ==> (#[trigger] self.transitions[i]).0 != (
            #[trigger] self.transitions[j]).0
    }

    /// The state reached from `q` after consuming `inp` symbol by symbol.
    pub open spec fn run(self, q: Seq<char>, inp: Seq<char>) -> Seq<char>
        decreases inp.len(),
    {
        if inp.len() == 0 {
            q
        } else {
            self.run(self.target(q, inp[0]), inp.drop_first())
        }
    }

    /// Whether `q` is an accepting state.
    pub open spec fn accepts_state(self, q: Seq<char>) -> bool {
        self.accept.contains(q)
    }

    /// The verdict of a scripted simulation on input `inp`.
    pub open spec fn scripted_outcome(self, inp: Seq<char>) -> bool {
        self.accepts_state(self.run(self.start, inp))
    }

    /// All symbols of `inp` belong to the alphabet.
    pub open spec fn over_alphabet(self, inp: Seq<char>) -> bool {
        forall|i: int| 0 <= i < inp.len() ==> self.alphabet.contains(#[trigger] inp[i])
    }
}

/// On a valid automaton, a run from a declared state over alphabet symbols
/// stays inside the declared states.
pub proof fn lemma_run_stays_in_states(m: Model, q: Seq<char>, inp: Seq<char>)
    requires
        m.valid(),
        m.states.contains(q),
        m.over_alphabet(inp),
    ensures
        m.states.contains(m.run(q, inp)),
    decreases inp.len(),
{
    if inp.len() > 0 {
        assert(m.alphabet.contains(inp[0]));
        assert(m.has_transition(q, inp[0]));
        let k = key_index(m.transitions, q, inp[0]);
        lemma_key_index(m.transitions, q, inp[0]);
        let e = m.transitions[k];
        assert(m.states.contains(e.1));
        assert(m.target(q, inp[0]) == e.1);
        assert(forall|i: int|
            0 <= i < inp.drop_first().len() ==> inp.drop_first()[i] == inp[i + 1]);
        lemma_run_stays_in_states(m, m.target(q, inp[0]), inp.drop_first());
    }
}

/// Consuming one more symbol at the end of the input makes one more step.
pub proof fn lemma_run_snoc(m: Model, q: Seq<char>, inp: Seq<char>, c: char)
    ensures
        m.run(q, inp.push(c)) == m.target(m.run(q, inp), c),
    decreases inp.len(),
{
    if inp.len() == 0 {
        assert(inp.push(c)[0] == c);
        assert(inp.push(c).drop_first() =~= inp);
        assert(m.run(q, inp.push(c)) == m.run(m.target(q, c), inp));
    } else {
        assert(inp.push(c)[0] == inp[0]);
        assert(inp.push(c).drop_first() =~= inp.drop_first().push(c));
        assert(m.run(q, inp.push(c)) == m.run(m.target(q, inp[0]), inp.drop_first().push(c)));
        lemma_run_snoc(m, m.target(q, inp[0]), inp.drop_first(), c);
    }
}

/// A pair of a source state identifier and an input symbol: the domain of the
/// transition function δ.
pub struct TransitionKey(pub String, pub char);

impl TransitionKey {
    /// The mathematical value of the key.
    pub open spec fn model(self) -> (Seq<char>, char) {
        (self.0@, self.1)
    }
}

/// The model of an association list of transition entries.
pub open spec fn transitions_model(ts: Seq<(TransitionKey, String)>) -> Seq<
    ((Seq<char>, char), Seq<char>),
> {
    ts.map_values(|e: (TransitionKey, String)| (e.0.model(), e.1@))
}

/// A deterministic finite automaton: states, alphabet, transition function,
/// start state, accept states, and an optional human-readable description.
///
/// Construction never validates: a `DFA` value may violate the structural
/// invariants until the validator has confirmed them.
pub struct DFA {
    pub(crate) states: Vec<String>,
    pub(crate) alphabet: Vec<char>,
    pub(crate) transitions: Vec<(TransitionKey, String)>,
    pub(crate) start: String,
    pub(crate) accept: Vec<String>,
    pub(crate) description: Option<String>,
}

impl DFA {
    /// The mathematical value of the automaton.
    pub open(crate) spec fn model(self) -> Model {
        Model {
            states: self.states.deep_view(),
            alphabet: self.alphabet@,
            transitions: transitions_model(self.transitions@),
            start: self.start@,
            accept: self.accept.deep_view(),
            description: match self.description {
                Some(d) => Some(d@),
                None => None,
            },
        }
    }

    /// Builds an automaton from its parts, without any validation.
    pub fn new(
        states: Vec<String>,
        alphabet: Vec<char>,
        transitions: Vec<(TransitionKey, String)>,
        start: String,
        accept: Vec<String>,
        description: Option<String>,
    ) -> (r: DFA)
        ensures
            r.model() == (Model {
                states: states.deep_view(),
                alphabet: alphabet@,
                transitions: transitions_model(transitions@),
                start: start@,
                accept: accept.deep_view(),
                description: match description {
                    Some(d) => Some(d@),
                    None => None,
                },
            }),
    {
        DFA { states, alphabet, transitions, start, accept, description }
    }

    /// A structurally equal copy. `simulate` consumes its automaton, so a
    /// caller who wants to run one twice duplicates it first.
    pub fn duplicate(&self) -> (r: DFA)
        ensures
            r.model() == self.model(),
    {
        let mut states: Vec<String> = Vec::new();
        let mut i: usize = 0;
        while i < self.states.len()
            invariant
                i <= self.states@.len(),
                states@ =~= self.states@.take(i as int),
            decreases self.states@.len() - i,
        {
            states.push(self.states[i].clone());
            proof {
                assert(states@ =~= self.states@.take(i + 1 as int));
            }
            i += 1;
        }
        let mut alphabet: Vec<char> = Vec::new();
        let mut j: usize = 0;
        while j < self.alphabet.len()
            invariant
                j <= self.alphabet@.len(),
                alphabet@ =~= self.alphabet@.take(j as int),
            decreases self.alphabet@.len() - j,
        {
            alphabet.push(self.alphabet[j]);
            j += 1;
        }
        let mut transitions: Vec<(TransitionKey, String)> = Vec::new();
        let mut t: usize = 0;
        while t < self.transitions.len()
            invariant
                t <= self.transitions@.len(),
                transitions_model(transitions@) =~= transitions_model(self.transitions@).take(
                    t as int,
                ),
            decreases self.transitions@.len() - t,
        {
            let ghost pv = transitions@;
            let ghost sm = transitions_model(self.transitions@);
            let nk = {
                let entry = &self.transitions[t];
                TransitionKey(entry.0 .0.clone(), entry.0 .1)
            };
            let tv = {
                let entry = &self.transitions[t];
                entry.1.clone()
            };
            proof {
                assert(nk.model() == self.transitions@[t as int].0.model());
                assert(tv@ == self.transitions@[t as int].1@);
            }
            transitions.push((nk, tv));
            proof {
                assert(transitions_model(pv).len() == pv.len());
                assert(pv.len() == t);
                assert forall|x: int|
                    0 <= x < t + 1 implies transitions_model(transitions@)[x] == sm.take(
                    t + 1 as int,
                )[x] by {
                    if x < t {
                        assert(transitions@[x] == pv[x]);
                        assert(transitions_model(transitions@)[x] == transitions_model(pv)[x]);
                    } else {
                        assert(transitions_model(transitions@)[x] == (
                            transitions@[x].0.model(),
                            transitions@[x].1@,
                        ));
                        assert(sm[x] == (self.transitions@[x].0.model(), self.transitions@[x].1@));
                    }
                }
                assert(transitions_model(transitions@) =~= sm.take(t + 1 as int));
            }
            t += 1;
        }
        let mut accept: Vec<String> = Vec::new();
        let mut a: usize = 0;
        while a < self.accept.len()
            invariant
                a <= self.accept@.len(),
                accept@ =~= self.accept@.take(a as int),
            decreases self.accept@.len() - a,
        {
            accept.push(self.accept[a].clone());
            proof {
                assert(accept@ =~= self.accept@.take(a + 1 as int));
            }
            a += 1;
        }
        proof {
            assert(states@ =~= self.states@);
            assert(alphabet@ =~= self.alphabet@);
            assert(accept@ =~= self.accept@);
            assert(transitions_model(self.transitions@).take(self.transitions@.len() as int)
                =~= transitions_model(self.transitions@));
        }
        let start = self.start.clone();
        let description = match &self.description {
            Some(d) => Some(d.clone()),
            None => None,
        };
        let r = DFA { states, alphabet, transitions, start, accept, description };
        proof {
            assert(r.model().states =~= self.model().states);
            assert(r.model().alphabet =~= self.model().alphabet);
            assert(r.model().transitions =~= self.model().transitions);
            assert(r.model().accept =~= self.model().accept);
        }
        r
    }

    /// The set of state identifiers.
    pub fn states(&self) -> (r: &Vec<String>)
        ensures
            r.deep_view() == self.model().states,
    {
        &self.states
    }

    /// The input alphabet.
    pub fn alphabet(&self) -> (r: &Vec<char>)
        ensures
            r@ == self.model().alphabet,
    {
        &self.alphabet
    }

    /// The transition entries.
    pub fn transitions(&self) -> (r: &Vec<(TransitionKey, String)>)
        ensures
            transitions_model(r@) == self.model().transitions,
    {
        &self.transitions
    }

    /// The start state.
    pub fn start(&self) -> (r: &String)
        ensures
            r@ == self.model().start,
    {
        &self.start
    }

    /// The accepting states.
    pub fn accept(&self) -> (r: &Vec<String>)
        ensures
            r.deep_view() == self.model().accept,
    {
        &self.accept
    }

    /// The optional description.
    pub fn description(&self) -> (r: &Option<String>)
        ensures
            match r {
                Some(d) => self.model().description == Some(d@),
                None => self.model().description is None,
            },
    {
        &self.description
    }
}

/// Whether some string of `v` has the characters of `x`.
pub fn contains_str(v: &Vec<String>, x: &str) -> (r: bool)
    ensures
        r == v.deep_view().contains(x@),
{
    let n = v.len();
    let mut i: usize = 0;
    while i < n
        invariant
            i <= n,
            n == v@.len(),
            forall|j: int| 0 <= j < i ==> v.deep_view()[j] != x@,
        decreases n - i,
    {
        if str_eq(v[i].as_str(), x) {
            assert(v.deep_view()[i as int] == x@);
            return true;
        }
        i += 1;
    }
    false
}

/// Whether `v` holds the character `c`.
pub fn contains_char(v: &Vec<char>, c: char) -> (r: bool)
    ensures
        r == v@.contains(c),
{
    let n = v.len();
    let mut i: usize = 0;
    while i < n
        invariant
            i <= n,
            n == v@.len(),
            forall|j: int| 0 <= j < i ==> v@[j] != c,
        decreases n - i,
    {
        if v[i] == c {
            return true;
        }
        i += 1;
    }
    false
}

/// First transition entry for `(q, c)`, if any: the exec side of `key_index`.
pub fn lookup_target<'a>(ts: &'a Vec<(TransitionKey, String)>, q: &str, c: char) -> (r: Option<
    &'a String,
>)
    ensures
        match r {
            Some(t) => key_index(transitions_model(ts@), q@, c) >= 0 && t@ == transitions_model(
                ts@,
            )[key_index(transitions_model(ts@), q@, c)].1,
            None => key_index(transitions_model(ts@), q@, c) == -1,
        },
{
    let ghost tm = transitions_model(ts@);
    proof {
        lemma_key_index(tm, q@, c);
    }
    let n = ts.len();
    let mut i: usize = 0;
    while i < n
        invariant
            i <= n,
            n == ts@.len(),
            tm == transitions_model(ts@),
            tm.len() == n,
            forall|j: int| 0 <= j < i ==> (#[trigger] tm[j]).0 != (q@, c),
        decreases n - i,
    {
        let entry = &ts[i];
        if entry.0 .1 == c && str_eq(entry.0 .0.as_str(), q) {
            proof {
                assert(tm[i as int].0 == (q@, c));
                lemma_key_index(tm, q@, c);
            }
            return Some(&entry.1);
        }
        assert(tm[i as int].0 != (q@, c));
        i += 1;
    }
    proof {
        lemma_key_index(tm, q@, c);
    }
    None
}

} // verus!
