use automata::{simulate, DFA};

#[test]
fn empty_input() {
    let dfa: DFA = DFA::even_zeros();

    let result: bool = simulate(dfa, "test", None);

    assert_eq!(result, true)
}

#[test]
fn even_input() {
    let dfa: DFA = DFA::even_zeros();

    let result: bool = simulate(dfa, "test", Some("00"));

    assert_eq!(result, true)
}

#[test]
fn odd_input() {
    let dfa: DFA = DFA::even_zeros();

    let result: bool = simulate(dfa, "test", Some("01"));

    assert_eq!(result, false)
}

#[test]
fn all_ones() {
    let dfa: DFA = DFA::even_zeros();

    let result: bool = simulate(dfa, "test", Some("111"));

    assert_eq!(result, true)
}

#[test]
fn single_zero() {
    let dfa: DFA = DFA::even_zeros();

    let result: bool = simulate(dfa, "test", Some("0"));

    assert_eq!(result, false)
}

#[test]
fn even_zeros_with_ones() {
    let dfa: DFA = DFA::even_zeros();

    let result: bool = simulate(dfa, "test", Some("0101010"));

    assert_eq!(result, true);
}

#[test]
fn odd_zeros_with_ones() {
    let dfa: DFA = DFA::even_zeros();

    let result: bool = simulate(dfa, "test", Some("101010"));

    assert_eq!(result, false);
}

#[test]
fn long_input_even_zeros() {
    let dfa: DFA = DFA::even_zeros();

    let result: bool = simulate(dfa, "test", Some("0".repeat(100).as_str()));

    assert_eq!(result, true);
}
