use automata::{
    decode, encode, example_by_id, example_entries, simulate, Defect, DfaError, ParseError,
    TransitionKey, DFA,
};

// --- the starts/ends-with-a example ---

#[test]
fn starts_ends_single_a() {
    let dfa = DFA::starts_ends_a();
    assert_eq!(simulate(dfa, "test", Some("a")), true);
}

#[test]
fn starts_ends_aba() {
    let dfa = DFA::starts_ends_a();
    assert_eq!(simulate(dfa, "test", Some("aba")), true);
}

#[test]
fn starts_ends_ab() {
    let dfa = DFA::starts_ends_a();
    assert_eq!(simulate(dfa, "test", Some("ab")), false);
}

#[test]
fn starts_ends_ba() {
    let dfa = DFA::starts_ends_a();
    assert_eq!(simulate(dfa, "test", Some("ba")), false);
}

// --- determinism of scripted runs ---

#[test]
fn scripted_is_deterministic() {
    let first = simulate(DFA::even_zeros(), "test", Some("0101010"));
    let second = simulate(DFA::even_zeros(), "test", Some("0101010"));
    assert_eq!(first, second);
}

// --- the other simulation modes ---

#[test]
fn random_mode_runs() {
    let verdict = simulate(DFA::even_zeros(), "random", None);
    assert!(verdict == true || verdict == false);
}

#[test]
fn unknown_mode_checks_start_state() {
    // No symbol is consumed, so acceptance is that of the start state.
    assert_eq!(simulate(DFA::even_zeros(), "none", None), true);
    assert_eq!(simulate(DFA::starts_ends_a(), "none", None), false);
}

// --- encode / decode / validate round trip ---

#[test]
fn round_trip_even_zeros() {
    let dfa = DFA::even_zeros();
    let text = encode(&dfa);
    let decoded = decode(text.as_str()).expect("decodes");
    let validated = decoded.validate().expect("validates");
    assert_eq!(encode(&validated), text);
    assert_eq!(simulate(validated, "test", Some("00")), true);
}

#[test]
fn round_trip_starts_ends_a() {
    let dfa = DFA::starts_ends_a();
    let text = encode(&dfa);
    let decoded = decode(text.as_str()).expect("decodes");
    let validated = decoded.validate().expect("validates");
    assert_eq!(encode(&validated), text);
    assert_eq!(simulate(validated, "test", Some("aba")), true);
}

#[test]
fn round_trip_escaped_names_and_no_description() {
    let states = vec!["q\"0\\".to_string(), "q1".to_string()];
    let alphabet = vec!['"', '\\'];
    let transitions = vec![
        (TransitionKey("q\"0\\".to_string(), '"'), "q1".to_string()),
        (TransitionKey("q\"0\\".to_string(), '\\'), "q1".to_string()),
        (TransitionKey("q1".to_string(), '"'), "q1".to_string()),
        (TransitionKey("q1".to_string(), '\\'), "q1".to_string()),
    ];
    let dfa = DFA::new(
        states,
        alphabet,
        transitions,
        "q\"0\\".to_string(),
        vec!["q1".to_string()],
        None,
    );
    let text = encode(&dfa);
    let decoded = decode(text.as_str()).expect("decodes");
    let validated = decoded.validate().expect("validates");
    assert_eq!(encode(&validated), text);
}

#[test]
fn decode_accepts_whitespace() {
    let text = "\n{ \"states\" : [\"S1\", \"S2\"] ,\n \"alphabet\" : [\"0\", \"1\"],\n \"transitions\" : { \"S1:0\" : \"S2\", \"S1:1\" : \"S1\", \"S2:0\" : \"S1\", \"S2:1\" : \"S2\" },\n \"start\" : \"S1\",\n \"accept\" : [\"S1\"] }\n";
    let dfa = DFA::de_json(text).expect("decodes and validates");
    assert_eq!(simulate(dfa, "test", Some("00")), true);
}

#[test]
fn decode_collapses_duplicate_set_entries() {
    let text = "{\"states\":[\"S1\",\"S1\",\"S2\"],\"alphabet\":[\"0\",\"1\"],\"transitions\":{\"S1:0\":\"S2\",\"S1:1\":\"S1\",\"S2:0\":\"S1\",\"S2:1\":\"S2\"},\"start\":\"S1\",\"accept\":[\"S1\",\"S1\"]}";
    let dfa = DFA::de_json(text).expect("decodes and validates");
    assert_eq!(dfa.states().len(), 2);
    assert_eq!(dfa.accept().len(), 1);
}

#[test]
fn decode_takes_last_duplicate_transition() {
    let text = "{\"states\":[\"S1\"],\"alphabet\":[\"0\"],\"transitions\":{\"S1:0\":\"S9\",\"S1:0\":\"S1\"},\"start\":\"S1\",\"accept\":[]}";
    let dfa = DFA::de_json(text).expect("decodes and validates");
    assert_eq!(dfa.transitions().len(), 1);
    assert_eq!(dfa.transitions()[0].1, "S1".to_string());
}

#[test]
fn decode_reads_description() {
    let text = "{\"states\":[\"S1\"],\"alphabet\":[],\"transitions\":{},\"start\":\"S1\",\"accept\":[],\"description\":\"tiny\"}";
    let dfa = DFA::de_json(text).expect("decodes and validates");
    assert_eq!(dfa.description().clone(), Some("tiny".to_string()));
}

#[test]
fn decode_reads_null_description() {
    let text = "{\"states\":[\"S1\"],\"alphabet\":[],\"transitions\":{},\"start\":\"S1\",\"accept\":[],\"description\":null}";
    let dfa = DFA::de_json(text).expect("decodes and validates");
    assert_eq!(dfa.description().clone(), None);
}

// --- the validator collects every defect ---

#[test]
fn validator_collects_all_defects() {
    let text = "{\"states\":[\"q0\"],\"alphabet\":[\"a\"],\"transitions\":{},\"start\":\"q1\",\"accept\":[]}";
    match DFA::de_json(text) {
        Err(DfaError::Invalid(defects)) => {
            assert!(defects.contains(&Defect::StartUnknown("q1".to_string())));
            assert!(defects.contains(&Defect::MissingTransition("q0".to_string(), 'a')));
        },
        _ => panic!("expected structural defects"),
    }
}

#[test]
fn validator_reports_unknown_references() {
    let text = "{\"states\":[\"q0\"],\"alphabet\":[\"a\"],\"transitions\":{\"q9:b\":\"q8\",\"q0:a\":\"q0\"},\"start\":\"q0\",\"accept\":[\"q7\"]}";
    match DFA::de_json(text) {
        Err(DfaError::Invalid(defects)) => {
            assert!(defects.contains(&Defect::AcceptUnknown("q7".to_string())));
            assert!(defects.contains(&Defect::SourceUnknown("q9".to_string(), 'b')));
            assert!(defects.contains(&Defect::SymbolUnknown("q9".to_string(), 'b')));
            assert!(defects.contains(&Defect::TargetUnknown(
                "q9".to_string(),
                'b',
                "q8".to_string()
            )));
        },
        _ => panic!("expected structural defects"),
    }
}

#[test]
fn defect_messages_name_the_problem() {
    assert_eq!(
        Defect::StartUnknown("q1".to_string()).describe(),
        "start state 'q1' is not a declared state"
    );
    assert_eq!(
        Defect::MissingTransition("q0".to_string(), 'a').describe(),
        "missing transition for 'q0:a'"
    );
    assert_eq!(
        Defect::TargetUnknown("q9".to_string(), 'b', "q8".to_string()).describe(),
        "transition 'q9:b' has an unknown target state 'q8'"
    );
}

// --- syntax failures stay in the syntax layer ---

#[test]
fn key_without_separator_is_a_syntax_failure() {
    let text = "{\"states\":[\"q0\"],\"alphabet\":[\"a\"],\"transitions\":{\"q0\":\"q0\"},\"start\":\"q0\",\"accept\":[]}";
    match DFA::de_json(text) {
        Err(DfaError::Parse(e)) => assert_eq!(e, ParseError::BadTransitionKey),
        _ => panic!("expected a syntax failure, not structural defects"),
    }
}

#[test]
fn garbage_is_malformed() {
    match DFA::de_json("not a document") {
        Err(DfaError::Parse(e)) => assert_eq!(e, ParseError::Malformed),
        _ => panic!("expected a syntax failure"),
    }
}

#[test]
fn missing_field_is_malformed() {
    let text = "{\"states\":[\"q0\"],\"alphabet\":[\"a\"],\"start\":\"q0\",\"accept\":[]}";
    match DFA::de_json(text) {
        Err(DfaError::Parse(e)) => assert_eq!(e, ParseError::Malformed),
        _ => panic!("expected a syntax failure"),
    }
}

#[test]
fn multi_character_symbol_is_malformed() {
    let text = "{\"states\":[\"q0\"],\"alphabet\":[\"ab\"],\"transitions\":{},\"start\":\"q0\",\"accept\":[]}";
    match DFA::de_json(text) {
        Err(DfaError::Parse(e)) => assert_eq!(e, ParseError::Malformed),
        _ => panic!("expected a syntax failure"),
    }
}

#[test]
fn trailing_text_is_malformed() {
    let text = "{\"states\":[\"q0\"],\"alphabet\":[],\"transitions\":{},\"start\":\"q0\",\"accept\":[]} extra";
    match DFA::de_json(text) {
        Err(DfaError::Parse(e)) => assert_eq!(e, ParseError::Malformed),
        _ => panic!("expected a syntax failure"),
    }
}

// --- the transition-key codec ---

#[test]
fn key_codec_round_trip() {
    let key = TransitionKey("S1".to_string(), '0');
    assert_eq!(key.encode_key(), "S1:0");
    let back = TransitionKey::decode_key("S1:0").expect("decodes");
    assert_eq!(back.0, "S1");
    assert_eq!(back.1, '0');
}

#[test]
fn key_decode_rejects_bad_forms() {
    assert!(TransitionKey::decode_key("q0").is_err());
    assert!(TransitionKey::decode_key(":a").is_err());
    assert!(TransitionKey::decode_key("q0:").is_err());
    assert!(TransitionKey::decode_key("q0:ab").is_err());
}

#[test]
fn key_decode_allows_colon_symbol() {
    let back = TransitionKey::decode_key("q0::").expect("decodes");
    assert_eq!(back.0, "q0");
    assert_eq!(back.1, ':');
}

// --- the example registry ---

#[test]
fn registry_lists_both_examples() {
    let entries = example_entries();
    assert_eq!(entries.len(), 2);
    assert_eq!(entries[0].0, 1);
    assert_eq!(
        entries[0].1,
        "Check if a binary string contains an even number of 0's"
    );
    assert_eq!(entries[1].0, 2);
    assert_eq!(entries[1].1, "Check if a string starts and ends with an a");
}

#[test]
fn registry_lookup() {
    assert!(example_by_id(1).is_some());
    assert!(example_by_id(2).is_some());
    assert!(example_by_id(0).is_none());
    assert!(example_by_id(3).is_none());
}

#[test]
fn duplicate_allows_two_runs() {
    let dfa = DFA::even_zeros();
    let copy = dfa.duplicate();
    assert_eq!(simulate(copy, "test", Some("00")), true);
    assert_eq!(simulate(dfa, "test", Some("0")), false);
}
