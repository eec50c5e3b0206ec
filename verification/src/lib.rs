mod codec;
mod model;
mod registry;
mod simulator;
mod util;
mod validator;

pub use codec::{ParseError, ParseFailure, DfaError, encode, decode, spec_encode, spec_decode,
    decode_key_spec, enc_key, key_states_encodable, lemma_encode_decode_validate};
pub use model::{Model, TransitionKey, DFA};
pub use registry::{even_zeros_model, starts_ends_a_model, example_entries, example_by_id,
    even_count_of_zeros, lemma_even_zeros_language, lemma_starts_ends_a_language};
pub use simulator::{simulate, lemma_scripted_deterministic, scripted_input};
pub use util::{str_eq, to_chars};
pub use validator::{Defect, DefectModel, defect_models, defect_message, spec_defects,
    lemma_defects_empty_iff_valid};
