use vstd::prelude::*;
use crate::model::{DFA, Model, TransitionKey, key_index};

verus! {

/// The model of the automaton accepting binary strings with an even count of '0'.
pub open spec fn even_zeros_model() -> Model {
    Model {
        states: seq!["S1"@, "S2"@],
        alphabet: seq!['0', '1'],
        transitions: seq![
            (("S1"@, '0'), "S2"@),
            (("S1"@, '1'), "S1"@),
            (("S2"@, '0'), "S1"@),
            (("S2"@, '1'), "S2"@),
        ],
        start: "S1"@,
        accept: seq!["S1"@],
        description: Some("Check if a binary string contains an even number of 0's"@),
    }
}

/// The model of the automaton accepting strings over {a, b} that start and
/// end with 'a'. S0 is initial, S1 is reached on a leading 'a' and kept while
/// the last symbol read is 'a', S2 while it is 'b', and S3 traps strings that
/// do not start with 'a'.
pub open spec fn starts_ends_a_model() -> Model {
    Model {
        states: seq!["S0"@, "S1"@, "S2"@, "S3"@],
        alphabet: seq!['a', 'b'],
        transitions: seq![
            (("S0"@, 'a'), "S1"@),
            (("S0"@, 'b'), "S3"@),
            (("S1"@, 'a'), "S1"@),
            (("S1"@, 'b'), "S2"@),
            (("S2"@, 'a'), "S1"@),
            (("S2"@, 'b'), "S2"@),
            (("S3"@, 'a'), "S3"@),
            (("S3"@, 'b'), "S3"@),
        ],
        start: "S0"@,
        accept: seq!["S1"@],
        description: Some("Check if a string starts and ends with an a"@),
    }
}

/// The transition function of the even-zeros example, entry by entry:
/// '0' toggles between the two states, '1' keeps the state.
pub proof fn lemma_even_zeros_targets()
    ensures
        even_zeros_model().has_transition("S1"@, '0'),
        even_zeros_model().has_transition("S1"@, '1'),
        even_zeros_model().has_transition("S2"@, '0'),
        even_zeros_model().has_transition("S2"@, '1'),
        even_zeros_model().target("S1"@, '0') == "S2"@,
        even_zeros_model().target("S1"@, '1') == "S1"@,
        even_zeros_model().target("S2"@, '0') == "S1"@,
        even_zeros_model().target("S2"@, '1') == "S2"@,
{
    reveal_strlit("S1");
    reveal_strlit("S2");
    let m = even_zeros_model();
    assert("S1"@[1] == '1');
    assert("S2"@[1] == '2');
    reveal_with_fuel(key_index, 6);
    let t1 = m.transitions.drop_first();
    let t2 = t1.drop_first();
    let t3 = t2.drop_first();
    assert(t1 =~~= m.transitions.subrange(1, 4));
    assert(t2 =~~= m.transitions.subrange(2, 4));
    assert(t3 =~~= m.transitions.subrange(3, 4));
    assert(key_index(m.transitions, "S1"@, '0') == 0);
    assert(key_index(m.transitions, "S1"@, '1') == 1);
    assert(key_index(m.transitions, "S2"@, '0') == 2);
    assert(key_index(m.transitions, "S2"@, '1') == 3);
}

/// The even-zeros example model satisfies the structural invariants and is
/// well formed.
pub proof fn lemma_even_zeros_model_valid()
    ensures
        even_zeros_model().valid(),
        even_zeros_model().wf(),
{
    reveal_strlit("S1");
    reveal_strlit("S2");
    let m = even_zeros_model();
    assert(m.states.contains(m.start)) by {
        assert(m.states[0] == m.start);
    }
    assert forall|i: int| 0 <= i < m.accept.len() implies m.states.contains(
        #[trigger] m.accept[i]) by {
        assert(m.states[0] == m.accept[i]);
    }
    assert("S1"@[1] == '1');
    assert("S2"@[1] == '2');
    assert("S1"@ != "S2"@);
    assert(m.states.contains("S1"@)) by {
        assert(m.states[0] == "S1"@);
    }
    assert(m.states.contains("S2"@)) by {
        assert(m.states[1] == "S2"@);
    }
    assert(m.alphabet.contains('0')) by {
        assert(m.alphabet[0] == '0');
    }
    assert(m.alphabet.contains('1')) by {
        assert(m.alphabet[1] == '1');
    }
    assert(m.entries_closed());
    lemma_even_zeros_targets();
    assert forall|q: Seq<char>, c: char|
        m.states.contains(q) && m.alphabet.contains(c) implies #[trigger] m.has_transition(
        q,
        c,
    ) by {
        assert(q == "S1"@ || q == "S2"@) by {
            if q != "S1"@ && q != "S2"@ {
                assert(forall|i: int| 0 <= i < m.states.len() ==> m.states[i] != q);
            }
        }
        assert(c == '0' || c == '1') by {
            if c != '0' && c != '1' {
                assert(forall|i: int| 0 <= i < m.alphabet.len() ==> m.alphabet[i] != c);
            }
        }
    }
    assert(m.wf());
}

/// The transition function of the starts/ends-with-a example, entry by
/// entry.
pub proof fn lemma_starts_ends_a_targets()
    ensures
        starts_ends_a_targets_hold(),
{
    reveal_strlit("S0");
    reveal_strlit("S1");
    reveal_strlit("S2");
    reveal_strlit("S3");
    let m = starts_ends_a_model();
    assert("S0"@[1] == '0');
    assert("S1"@[1] == '1');
    assert("S2"@[1] == '2');
    assert("S3"@[1] == '3');
    reveal_with_fuel(key_index, 10);
    let t1 = m.transitions.drop_first();
    let t2 = t1.drop_first();
    let t3 = t2.drop_first();
    let t4 = t3.drop_first();
    let t5 = t4.drop_first();
    let t6 = t5.drop_first();
    let t7 = t6.drop_first();
    assert(t1 =~~= m.transitions.subrange(1, 8));
    assert(t2 =~~= m.transitions.subrange(2, 8));
    assert(t3 =~~= m.transitions.subrange(3, 8));
    assert(t4 =~~= m.transitions.subrange(4, 8));
    assert(t5 =~~= m.transitions.subrange(5, 8));
    assert(t6 =~~= m.transitions.subrange(6, 8));
    assert(t7 =~~= m.transitions.subrange(7, 8));
    assert(key_index(m.transitions, "S0"@, 'a') == 0);
    assert(key_index(m.transitions, "S0"@, 'b') == 1);
    assert(key_index(m.transitions, "S1"@, 'a') == 2);
    assert(key_index(m.transitions, "S1"@, 'b') == 3);
    assert(key_index(m.transitions, "S2"@, 'a') == 4);
    assert(key_index(m.transitions, "S2"@, 'b') == 5);
    assert(key_index(m.transitions, "S3"@, 'a') == 6);
    assert(key_index(m.transitions, "S3"@, 'b') == 7);
}

/// What `lemma_starts_ends_a_targets` establishes: each (state, symbol)
/// pair's transition, entry by entry.
pub open spec fn starts_ends_a_targets_hold() -> bool {
    let m = starts_ends_a_model();
    &&& m.has_transition("S0"@, 'a') && m.target("S0"@, 'a') == "S1"@
    &&& m.has_transition("S0"@, 'b') && m.target("S0"@, 'b') == "S3"@
    &&& m.has_transition("S1"@, 'a') && m.target("S1"@, 'a') == "S1"@
    &&& m.has_transition("S1"@, 'b') && m.target("S1"@, 'b') == "S2"@
    &&& m.has_transition("S2"@, 'a') && m.target("S2"@, 'a') == "S1"@
    &&& m.has_transition("S2"@, 'b') && m.target("S2"@, 'b') == "S2"@
    &&& m.has_transition("S3"@, 'a') && m.target("S3"@, 'a') == "S3"@
    &&& m.has_transition("S3"@, 'b') && m.target("S3"@, 'b') == "S3"@
}

/// The starts-and-ends-with-a example model satisfies the structural
/// invariants and is well formed.
pub proof fn lemma_starts_ends_a_model_valid()
    ensures
        starts_ends_a_model().valid(),
        starts_ends_a_model().wf(),
{
    reveal_strlit("S0");
    reveal_strlit("S1");
    reveal_strlit("S2");
    reveal_strlit("S3");
    let m = starts_ends_a_model();
    assert("S0"@[1] == '0');
    assert("S1"@[1] == '1');
    assert("S2"@[1] == '2');
    assert("S3"@[1] == '3');
    assert("S0"@ != "S1"@ && "S0"@ != "S2"@ && "S0"@ != "S3"@);
    assert("S1"@ != "S2"@ && "S1"@ != "S3"@ && "S2"@ != "S3"@);
    assert(m.states.contains(m.start)) by {
        assert(m.states[0] == m.start);
    }
    assert forall|i: int| 0 <= i < m.accept.len() implies m.states.contains(
        #[trigger] m.accept[i]) by {
        assert(m.states[1] == m.accept[i]);
    }
    assert(m.states.contains("S0"@)) by {
        assert(m.states[0] == "S0"@);
    }
    assert(m.states.contains("S1"@)) by {
        assert(m.states[1] == "S1"@);
    }
    assert(m.states.contains("S2"@)) by {
        assert(m.states[2] == "S2"@);
    }
    assert(m.states.contains("S3"@)) by {
        assert(m.states[3] == "S3"@);
    }
    assert(m.alphabet.contains('a')) by {
        assert(m.alphabet[0] == 'a');
    }
    assert(m.alphabet.contains('b')) by {
        assert(m.alphabet[1] == 'b');
    }
    assert(m.entries_closed());
    lemma_starts_ends_a_targets();
    assert forall|q: Seq<char>, c: char|
        m.states.contains(q) && m.alphabet.contains(c) implies #[trigger] m.has_transition(
        q,
        c,
    ) by {
        assert(q == "S0"@ || q == "S1"@ || q == "S2"@ || q == "S3"@) by {
            if q != "S0"@ && q != "S1"@ && q != "S2"@ && q != "S3"@ {
                assert(forall|i: int| 0 <= i < m.states.len() ==> m.states[i] != q);
            }
        }
        assert(c == 'a' || c == 'b') by {
            if c != 'a' && c != 'b' {
                assert(forall|i: int| 0 <= i < m.alphabet.len() ==> m.alphabet[i] != c);
            }
        }
    }
    assert(m.wf());
}

impl DFA {
    /// The automaton that accepts binary strings holding an even number of
    /// the symbol '0': two states toggling on '0' and looping on '1'.
    pub fn even_zeros() -> (r: DFA)
        ensures
            r.model() == even_zeros_model(),
            r.model().valid(),
            r.model().wf(),
    {
        let mut states: Vec<String> = Vec::new();
        states.push(String::from_str("S1"));
        states.push(String::from_str("S2"));
        let mut alphabet: Vec<char> = Vec::new();
        alphabet.push('0');
        alphabet.push('1');
        let mut transitions: Vec<(TransitionKey, String)> = Vec::new();
        transitions.push((TransitionKey(String::from_str("S1"), '0'), String::from_str("S2")));
        transitions.push((TransitionKey(String::from_str("S1"), '1'), String::from_str("S1")));
        transitions.push((TransitionKey(String::from_str("S2"), '0'), String::from_str("S1")));
        transitions.push((TransitionKey(String::from_str("S2"), '1'), String::from_str("S2")));
        let start = String::from_str("S1");
        let mut accept: Vec<String> = Vec::new();
        accept.push(String::from_str("S1"));
        let description = Some(
            String::from_str("Check if a binary string contains an even number of 0's"),
        );
        let r = DFA::new(states, alphabet, transitions, start, accept, description);
        proof {
            assert(r.model().states =~~= even_zeros_model().states);
            assert(r.model().alphabet =~~= even_zeros_model().alphabet);
            assert(r.model().transitions =~~= even_zeros_model().transitions);
            assert(r.model().accept =~~= even_zeros_model().accept);
            lemma_even_zeros_model_valid();
        }
        r
    }

    /// The automaton over {a, b} that accepts strings starting and ending
    /// with 'a': four states, with a trap state for strings not starting
    /// with 'a'.
    pub fn starts_ends_a() -> (r: DFA)
        ensures
            r.model() == starts_ends_a_model(),
            r.model().valid(),
            r.model().wf(),
    {
        let mut states: Vec<String> = Vec::new();
        states.push(String::from_str("S0"));
        states.push(String::from_str("S1"));
        states.push(String::from_str("S2"));
        states.push(String::from_str("S3"));
        let mut alphabet: Vec<char> = Vec::new();
        alphabet.push('a');
        alphabet.push('b');
        let mut transitions: Vec<(TransitionKey, String)> = Vec::new();
        transitions.push((TransitionKey(String::from_str("S0"), 'a'), String::from_str("S1")));
        transitions.push((TransitionKey(String::from_str("S0"), 'b'), String::from_str("S3")));
        transitions.push((TransitionKey(String::from_str("S1"), 'a'), String::from_str("S1")));
        transitions.push((TransitionKey(String::from_str("S1"), 'b'), String::from_str("S2")));
        transitions.push((TransitionKey(String::from_str("S2"), 'a'), String::from_str("S1")));
        transitions.push((TransitionKey(String::from_str("S2"), 'b'), String::from_str("S2")));
        transitions.push((TransitionKey(String::from_str("S3"), 'a'), String::from_str("S3")));
        transitions.push((TransitionKey(String::from_str("S3"), 'b'), String::from_str("S3")));
        let start = String::from_str("S0");
        let mut accept: Vec<String> = Vec::new();
        accept.push(String::from_str("S1"));
        let description = Some(String::from_str("Check if a string starts and ends with an a"));
        let r = DFA::new(states, alphabet, transitions, start, accept, description);
        proof {
            assert(r.model().states =~~= starts_ends_a_model().states);
            assert(r.model().alphabet =~~= starts_ends_a_model().alphabet);
            assert(r.model().transitions =~~= starts_ends_a_model().transitions);
            assert(r.model().accept =~~= starts_ends_a_model().accept);
            lemma_starts_ends_a_model_valid();
        }
        r
    }
}

/// The ordered catalogue of built-in examples: identifier and description of
/// each entry.
pub fn example_entries() -> (r: Vec<(usize, String)>)
    ensures
        r@.len() == 2,
        r@[0].0 == 1usize && r@[0].1@ == even_zeros_model().description.unwrap(),
        r@[1].0 == 2usize && r@[1].1@ == starts_ends_a_model().description.unwrap(),
{
    let mut r: Vec<(usize, String)> = Vec::new();
    r.push((1, String::from_str("Check if a binary string contains an even number of 0's")));
    r.push((2, String::from_str("Check if a string starts and ends with an a")));
    r
}

/// Looks the catalogue up by identifier. An unknown identifier is the
/// caller's error: no automaton is produced for it.
pub fn example_by_id(id: usize) -> (r: Option<DFA>)
    ensures
        id == 1 ==> (r matches Some(d) && d.model() == even_zeros_model()),
        id == 2 ==> (r matches Some(d) && d.model() == starts_ends_a_model()),
        id != 1 && id != 2 ==> r is None,
{
    if id == 1 {
        Some(DFA::even_zeros())
    } else if id == 2 {
        Some(DFA::starts_ends_a())
    } else {
        None
    }
}

} // verus!

verus! {

/// Whether `s` holds an even number of the symbol '0'.
pub open spec fn even_count_of_zeros(s: Seq<char>) -> bool
    decreases s.len(),
{
    if s.len() == 0 {
        true
    } else if s[0] == '0' {
        !even_count_of_zeros(s.drop_first())
    } else {
        even_count_of_zeros(s.drop_first())
    }
}

proof fn lemma_even_zeros_run(s: Seq<char>)
    requires
        even_zeros_model().over_alphabet(s),
    ensures
        even_zeros_model().run("S1"@, s) == (if even_count_of_zeros(s) {
            "S1"@
        } else {
            "S2"@
        }),
        even_zeros_model().run("S2"@, s) == (if even_count_of_zeros(s) {
            "S2"@
        } else {
            "S1"@
        }),
    decreases s.len(),
{
    reveal_strlit("S1");
    reveal_strlit("S2");
    let m = even_zeros_model();
    lemma_even_zeros_targets();
    if s.len() > 0 {
        assert(m.alphabet.contains(s[0]));
        assert(s[0] == '0' || s[0] == '1') by {
            if s[0] != '0' && s[0] != '1' {
                assert(forall|i: int| 0 <= i < m.alphabet.len() ==> m.alphabet[i] != s[0]);
            }
        }
        let tail = s.drop_first();
        assert forall|i: int| 0 <= i < tail.len() implies m.alphabet.contains(
            #[trigger] tail[i]) by {
            assert(tail[i] == s[i + 1]);
        }
        lemma_even_zeros_run(tail);
    }
}

/// The even-zeros example accepts exactly the inputs over its alphabet that
/// hold an even number of the symbol '0'.
pub proof fn lemma_even_zeros_language(s: Seq<char>)
    requires
        even_zeros_model().over_alphabet(s),
    ensures
        even_zeros_model().scripted_outcome(s) == even_count_of_zeros(s),
{
    reveal_strlit("S1");
    reveal_strlit("S2");
    let m = even_zeros_model();
    lemma_even_zeros_run(s);
    assert("S1"@[1] == '1');
    assert("S2"@[1] == '2');
    assert(m.accept[0] == "S1"@);
    if even_count_of_zeros(s) {
        assert(m.accept.contains("S1"@));
    } else {
        if m.accept.contains("S2"@) {
            let i = choose|i: int| 0 <= i < m.accept.len() && m.accept[i] == "S2"@;
            assert(false);
        }
    }
}

proof fn lemma_starts_ends_a_run(s: Seq<char>)
    requires
        starts_ends_a_model().over_alphabet(s),
    ensures
        starts_ends_a_model().run("S1"@, s) == (if s.len() == 0 || s[s.len() - 1] == 'a' {
            "S1"@
        } else {
            "S2"@
        }),
        starts_ends_a_model().run("S2"@, s) == (if s.len() == 0 {
            "S2"@
        } else if s[s.len() - 1] == 'a' {
            "S1"@
        } else {
            "S2"@
        }),
        starts_ends_a_model().run("S3"@, s) == "S3"@,
    decreases s.len(),
{
    reveal_strlit("S1");
    reveal_strlit("S2");
    reveal_strlit("S3");
    let m = starts_ends_a_model();
    lemma_starts_ends_a_targets();
    if s.len() > 0 {
        assert(m.alphabet.contains(s[0]));
        assert(s[0] == 'a' || s[0] == 'b') by {
            if s[0] != 'a' && s[0] != 'b' {
                assert(forall|i: int| 0 <= i < m.alphabet.len() ==> m.alphabet[i] != s[0]);
            }
        }
        let tail = s.drop_first();
        assert forall|i: int| 0 <= i < tail.len() implies m.alphabet.contains(
            #[trigger] tail[i]) by {
            assert(tail[i] == s[i + 1]);
        }
        lemma_starts_ends_a_run(tail);
        if tail.len() > 0 {
            assert(tail[tail.len() - 1] == s[s.len() - 1]);
        }
    }
}

/// The starts/ends-with-a example accepts exactly the non-empty inputs over
/// its alphabet whose first and last symbols are both 'a'.
pub proof fn lemma_starts_ends_a_language(s: Seq<char>)
    requires
        starts_ends_a_model().over_alphabet(s),
    ensures
        starts_ends_a_model().scripted_outcome(s) == (s.len() > 0 && s[0] == 'a' && s[s.len() - 1]
            == 'a'),
{
    reveal_strlit("S0");
    reveal_strlit("S1");
    reveal_strlit("S2");
    reveal_strlit("S3");
    let m = starts_ends_a_model();
    lemma_starts_ends_a_targets();
    assert("S0"@[1] == '0');
    assert("S1"@[1] == '1');
    assert("S2"@[1] == '2');
    assert("S3"@[1] == '3');
    assert(m.accept[0] == "S1"@);
    if s.len() == 0 {
        assert(m.run(m.start, s) == "S0"@);
        if m.accept.contains("S0"@) {
            let i = choose|i: int| 0 <= i < m.accept.len() && m.accept[i] == "S0"@;
            assert(false);
        }
    } else {
        assert(m.alphabet.contains(s[0]));
        assert(s[0] == 'a' || s[0] == 'b') by {
            if s[0] != 'a' && s[0] != 'b' {
                assert(forall|i: int| 0 <= i < m.alphabet.len() ==> m.alphabet[i] != s[0]);
            }
        }
        let tail = s.drop_first();
        assert forall|i: int| 0 <= i < tail.len() implies m.alphabet.contains(
            #[trigger] tail[i]) by {
            assert(tail[i] == s[i + 1]);
        }
        lemma_starts_ends_a_run(tail);
        if tail.len() > 0 {
            assert(tail[tail.len() - 1] == s[s.len() - 1]);
        } else {
            assert(s[s.len() - 1] == s[0]);
        }
        if s[0] == 'a' {
            assert(m.run(m.start, s) == m.run("S1"@, tail));
            if s[s.len() - 1] == 'a' {
                assert(m.run("S1"@, tail) == "S1"@);
                assert(m.accept.contains("S1"@));
            } else {
                assert(m.run("S1"@, tail) == "S2"@);
                if m.accept.contains("S2"@) {
                    let i = choose|i: int| 0 <= i < m.accept.len() && m.accept[i] == "S2"@;
                    assert(false);
                }
            }
        } else {
            assert(m.run(m.start, s) == m.run("S3"@, tail));
            assert(m.run("S3"@, tail) == "S3"@);
            if m.accept.contains("S3"@) {
                let i = choose|i: int| 0 <= i < m.accept.len() && m.accept[i] == "S3"@;
                assert(false);
            }
        }
    }
}

} // verus!
