use vstd::prelude::*;
use crate::model::{DFA, Model, contains_str, key_index, lemma_key_index, lemma_run_snoc,
    lookup_target};
use crate::util::{str_eq, to_chars};
use vstd::pervasive::unreached;

verus! {

/// Relies on `rand::random_range`: yields a value drawn from the given
/// range, which must be non-empty (an empty range panics).
#[verifier::external_body]
fn random_below(n: usize) -> (r: usize)
    requires
        n >= 1,
    ensures
        r < n,
{
    rand::random_range(0..n)
}

/// The symbol sequence a scripted simulation consumes.
pub open spec fn scripted_input(test: Option<&str>) -> Seq<char> {
    match test {
        Some(t) => t@,
        None => Seq::empty(),
    }
}

/// Scripted simulation is deterministic: the verdict is a function of the
/// automaton and the input symbols alone, so repeated runs on copies of the
/// same automaton and the same input agree.
pub proof fn lemma_scripted_deterministic(m: Model, inp: Seq<char>, r1: bool, r2: bool)
    requires
        r1 == m.scripted_outcome(inp),
        r2 == m.scripted_outcome(inp),
    ensures
        r1 == r2,
{
}

/// One transition step: the successor of `cur` under `c`, on a valid
/// automaton whose states contain `cur` and whose alphabet contains `c`.
fn step(dfa: &DFA, cur: &String, c: char) -> (r: String)
    requires
        dfa.model().valid(),
        dfa.model().states.contains(cur@),
        dfa.model().alphabet.contains(c),
    ensures
        dfa.model().has_transition(cur@, c),
        r@ == dfa.model().target(cur@, c),
        dfa.model().states.contains(r@),
{
    let ghost m = dfa.model();
    proof {
        assert(m.has_transition(cur@, c));
        lemma_key_index(m.transitions, cur@, c);
        let e = m.transitions[key_index(m.transitions, cur@, c)];
        assert(m.states.contains(e.1));
    }
    match lookup_target(&dfa.transitions, cur.as_str(), c) {
        Some(t) => t.clone(),
        None => unreached(),
    }
}

/// Runs the automaton, consuming it (a caller who wants to run twice must
/// duplicate the automaton first).
///
/// - In mode `"test"` the scripted symbols are consumed in order and the
///   verdict is whether the state they lead to from the start state accepts.
/// - In mode `"random"` the simulator itself draws a length below 255 and
///   that many symbols uniformly from the alphabet; the verdict is the
///   scripted verdict of some such drawn sequence.
/// - Any other mode consumes nothing: the verdict is whether the start state
///   accepts.
pub fn simulate(dfa: DFA, mode: &str, test: Option<&str>) -> (r: bool)
    requires
        dfa.model().valid(),
        mode@ == "test"@ ==> dfa.model().over_alphabet(scripted_input(test)),
        mode@ == "random"@ ==> dfa.model().alphabet.len() >= 1,
    ensures
        mode@ == "test"@ ==> r == dfa.model().scripted_outcome(scripted_input(test)),
        mode@ == "random"@ ==> exists|s: Seq<char>|
            s.len() < 255 && #[trigger] dfa.model().over_alphabet(s) && r
                == dfa.model().scripted_outcome(s),
        mode@ != "test"@ && mode@ != "random"@ ==> r == dfa.model().accepts_state(
            dfa.model().start,
        ),
{
    let ghost m = dfa.model();
    proof {
        reveal_strlit("test");
        reveal_strlit("random");
        assert("test"@.len() != "random"@.len());
    }
    if str_eq(mode, "random") {
        let steps = random_below(255);
        let mut cur: String = dfa.start().clone();
        let ghost mut drawn: Seq<char> = Seq::empty();
        let mut it: usize = 0;
        while it < steps
            invariant
                m == dfa.model(),
                m.valid(),
                m.alphabet.len() >= 1,
                it <= steps,
                steps < 255,
                drawn.len() == it,
                m.over_alphabet(drawn),
                cur@ == m.run(m.start, drawn),
                m.states.contains(cur@),
            decreases steps - it,
        {
            let idx = random_below(dfa.alphabet().len());
            let c = dfa.alphabet()[idx];
            proof {
                assert(m.alphabet.contains(c));
            }
            let next = step(&dfa, &cur, c);
            proof {
                lemma_run_snoc(m, m.start, drawn, c);
                assert forall|j: int|
                    0 <= j < drawn.push(c).len() implies m.alphabet.contains(
                    #[trigger] drawn.push(c)[j]) by {
                    if j < drawn.len() {
                        assert(drawn.push(c)[j] == drawn[j]);
                    } else {
                        assert(drawn.push(c)[j] == c);
                    }
                }
                drawn = drawn.push(c);
            }
            cur = next;
            it += 1;
        }
        let r = contains_str(dfa.accept(), cur.as_str());
        proof {
            assert(drawn.len() < 255 && m.over_alphabet(drawn) && r == m.scripted_outcome(drawn));
        }
        r
    } else if str_eq(mode, "test") {
        let input: &str = match test {
            Some(t) => t,
            None => "",
        };
        proof {
            reveal_strlit("");
            assert(""@ =~= Seq::<char>::empty());
            assert(input@ == scripted_input(test));
        }
        let chars = to_chars(input);
        let mut cur: String = dfa.start().clone();
        let n = chars.len();
        let mut i: usize = 0;
        while i < n
            invariant
                m == dfa.model(),
                m.valid(),
                i <= n,
                n == chars@.len(),
                chars@ == scripted_input(test),
                m.over_alphabet(chars@),
                cur@ == m.run(m.start, chars@.take(i as int)),
                m.states.contains(cur@),
            decreases n - i,
        {
            let c = chars[i];
            proof {
                assert(m.alphabet.contains(chars@[i as int]));
            }
            let next = step(&dfa, &cur, c);
            proof {
                lemma_run_snoc(m, m.start, chars@.take(i as int), c);
                assert(chars@.take(i as int).push(c) =~= chars@.take(i + 1 as int));
            }
            cur = next;
            i += 1;
        }
        proof {
            assert(chars@.take(n as int) =~= chars@);
        }
        contains_str(dfa.accept(), cur.as_str())
    } else {
        contains_str(dfa.accept(), dfa.start().as_str())
    }
}

} // verus!
