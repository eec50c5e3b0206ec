use vstd::prelude::*;
use crate::model::{DFA, Model, TransitionKey};
use crate::util::to_chars;

verus! {

// ---------------------------------------------------------------------------
// The textual grammar, as spec functions over character sequences.
//
// Every parsing function consumes a prefix of its input and returns the
// value it read together with the unconsumed suffix; `None` (or a failure)
// means the input does not match the grammar at this point.
// ---------------------------------------------------------------------------

/// How a text can fail to decode: a malformed transition key is told apart
/// from every other shape error.
pub ghost enum ParseFailure {
    Key,
    Shape,
}

/// The characters the grammar treats as insignificant whitespace.
pub open spec fn is_ws(c: char) -> bool {
    c == ' ' || c == '\n' || c == '\t' || c == '\r'
}

/// Drops leading whitespace.
pub open spec fn skip_ws(s: Seq<char>) -> Seq<char>
    decreases s.len(),
{
    if s.len() > 0 && is_ws(s[0]) {
        skip_ws(s.drop_first())
    } else {
        s
    }
}

/// Consumes the exact characters of `lit`, or fails.
pub open spec fn expect(s: Seq<char>, lit: Seq<char>) -> Option<Seq<char>> {
    if s.len() >= lit.len() && s.take(lit.len() as int) == lit {
        Some(s.skip(lit.len() as int))
    } else {
        None
    }
}

/// Consumes the body of a quoted string after its opening quote, unescaping
/// `\"` and `\\`, up to and including the closing quote.
pub open spec fn parse_str_body(s: Seq<char>) -> Option<(Seq<char>, Seq<char>)>
    decreases s.len(),
{
    if s.len() == 0 {
        None
    } else if s[0] == '"' {
        Some((Seq::empty(), s.drop_first()))
    } else if s[0] == '\\' {
        if s.len() >= 2 && (s[1] == '"' || s[1] == '\\') {
            match parse_str_body(s.skip(2)) {
                Some((t, r)) => Some((seq![s[1]] + t, r)),
                None => None,
            }
        } else {
            None
        }
    } else {
        match parse_str_body(s.drop_first()) {
            Some((t, r)) => Some((seq![s[0]] + t, r)),
            None => None,
        }
    }
}

/// Consumes a quoted string.
pub open spec fn parse_string(s: Seq<char>) -> Option<(Seq<char>, Seq<char>)> {
    if s.len() > 0 && s[0] == '"' {
        parse_str_body(s.drop_first())
    } else {
        None
    }
}

/// Index of the first ':' of `k` at or after position `i`, or -1.
pub open spec fn colon_index_from(k: Seq<char>, i: int) -> int
    decreases k.len() - i,
{
    if i < 0 || i >= k.len() {
        -1
    } else if k[i] == ':' {
        i
    } else {
        colon_index_from(k, i + 1)
    }
}

/// Decodes the canonical transition-key format: a non-empty state name, the
/// ':' separator, and exactly one symbol character.
pub open spec fn decode_key_spec(k: Seq<char>) -> Option<(Seq<char>, char)> {
    let ci = colon_index_from(k, 0);
    if ci <= 0 {
        None
    } else if k.len() - ci - 1 != 1 {
        None
    } else {
        Some((k.take(ci), k[ci + 1]))
    }
}

// ---------------------------------------------------------------------------
// The encoders.
// ---------------------------------------------------------------------------

/// The escaped form of one character inside a quoted string.
pub open spec fn esc1(c: char) -> Seq<char> {
    if c == '"' || c == '\\' {
        seq!['\\', c]
    } else {
        seq![c]
    }
}

/// The escaped form of the characters of `s` from position `i` on.
pub open spec fn esc_from(s: Seq<char>, i: int) -> Seq<char>
    decreases s.len() - i,
{
    if i < 0 || i >= s.len() {
        Seq::empty()
    } else {
        esc1(s[i]) + esc_from(s, i + 1)
    }
}

/// The quoted, escaped form of a string.
pub open spec fn enc_str(s: Seq<char>) -> Seq<char> {
    seq!['"'] + esc_from(s, 0) + seq!['"']
}

/// The canonical textual form of a transition key: state, ':', symbol.
pub open spec fn enc_key(q: Seq<char>, c: char) -> Seq<char> {
    q + seq![':'] + seq![c]
}

// ---------------------------------------------------------------------------
// Round-trip lemmas: whatever the encoders emit, the parsers read back.
// ---------------------------------------------------------------------------

/// Skipping whitespace does nothing where none stands.
pub proof fn lemma_skip_ws_nonws(s: Seq<char>)
    requires
        s.len() == 0 || !is_ws(s[0]),
    ensures
        skip_ws(s) == s,
{
}

/// `expect` consumes exactly the literal it finds in front.
pub proof fn lemma_expect_prefix(lit: Seq<char>, rest: Seq<char>)
    ensures
        expect(lit + rest, lit) == Some(rest),
{
    let s = lit + rest;
    assert(s.take(lit.len() as int) =~= lit);
    assert(s.skip(lit.len() as int) =~= rest);
}

/// An escaped string body, followed by the closing quote, parses back to the
/// characters it encodes.
pub proof fn lemma_parse_esc(v: Seq<char>, k: int, rest: Seq<char>)
    requires
        0 <= k <= v.len(),
    ensures
        parse_str_body(esc_from(v, k) + seq!['"'] + rest) == Some((v.skip(k), rest)),
    decreases v.len() - k,
{
    let s = esc_from(v, k) + seq!['"'] + rest;
    if k == v.len() {
        assert(esc_from(v, k) =~= Seq::<char>::empty());
        assert(s =~= seq!['"'] + rest);
        assert(s[0] == '"');
        assert(s.drop_first() =~= rest);
        assert(v.skip(k) =~= Seq::<char>::empty());
        assert(parse_str_body(s) == Some((Seq::<char>::empty(), rest)));
    } else {
        lemma_parse_esc(v, k + 1, rest);
        let c = v[k];
        let tail = esc_from(v, k + 1) + seq!['"'] + rest;
        if c == '"' || c == '\\' {
            assert(esc_from(v, k) =~= seq!['\\', c] + esc_from(v, k + 1));
            assert(s =~= seq!['\\', c] + tail);
            assert(s[0] == '\\');
            assert(s[1] == c);
            assert(s.skip(2) =~= tail);
            assert(parse_str_body(tail) == Some((v.skip(k + 1), rest)));
            assert(seq![c] + v.skip(k + 1) =~= v.skip(k));
        } else {
            assert(esc_from(v, k) =~= seq![c] + esc_from(v, k + 1));
            assert(s =~= seq![c] + tail);
            assert(s[0] == c);
            assert(s.drop_first() =~= tail);
            assert(parse_str_body(tail) == Some((v.skip(k + 1), rest)));
            assert(seq![c] + v.skip(k + 1) =~= v.skip(k));
        }
    }
}

/// An encoded string parses back to itself.
pub proof fn lemma_parse_enc_str(v: Seq<char>, rest: Seq<char>)
    ensures
        parse_string(enc_str(v) + rest) == Some((v, rest)),
{
    let s = enc_str(v) + rest;
    assert(s[0] == '"');
    assert(s.drop_first() =~= esc_from(v, 0) + seq!['"'] + rest);
    lemma_parse_esc(v, 0, rest);
    assert(v.skip(0) =~= v);
}

/// An encoded transition key decodes back to its state and symbol, provided
/// the state name is non-empty and holds no ':' separator itself.
pub proof fn lemma_decode_enc_key(q: Seq<char>, c: char)
    requires
        q.len() > 0,
        forall|i: int| 0 <= i < q.len() ==> q[i] != ':',
    ensures
        decode_key_spec(enc_key(q, c)) == Some((q, c)),
{
    let k = enc_key(q, c);
    assert(k[q.len() as int] == ':');
    assert forall|i: int| 0 <= i < q.len() implies k[i] != ':' by {
        assert(k[i] == q[i]);
    }
    lemma_colon_at(k, 0, q.len() as int);
    assert(colon_index_from(k, 0) == q.len());
    assert(k.take(q.len() as int) =~= q);
    assert(k[q.len() as int + 1] == c);
}

/// If the first ':' at or after `i` stands at `j`, `colon_index_from` finds it.
proof fn lemma_colon_at(k: Seq<char>, i: int, j: int)
    requires
        0 <= i <= j < k.len(),
        k[j] == ':',
        forall|x: int| i <= x < j ==> k[x] != ':',
    ensures
        colon_index_from(k, i) == j,
    decreases j - i,
{
    if i < j {
        lemma_colon_at(k, i + 1, j);
    }
}

// ---------------------------------------------------------------------------
// The executable side of the pieces above.
// ---------------------------------------------------------------------------

/// Errors of the syntax layer: the text cannot be read as an automaton at
/// all. These are distinct from the validator's structural defects.
#[derive(Debug, PartialEq, Eq)]
pub enum ParseError {
    /// A transition key is not in the canonical `state:symbol` format.
    BadTransitionKey,
    /// The text does not have the expected shape.
    Malformed,
}

impl ParseError {
    /// The mathematical value of the error.
    pub open spec fn model(self) -> ParseFailure {
        match self {
            ParseError::BadTransitionKey => ParseFailure::Key,
            ParseError::Malformed => ParseFailure::Shape,
        }
    }
}

/// Skips whitespace: the exec side of `skip_ws`.
fn skip_ws_exec(v: &Vec<char>, i: usize) -> (r: usize)
    requires
        i <= v@.len(),
    ensures
        i <= r <= v@.len(),
        v@.skip(r as int) == skip_ws(v@.skip(i as int)),
{
    let n = v.len();
    let mut j = i;
    while j < n && (v[j] == ' ' || v[j] == '\n' || v[j] == '\t' || v[j] == '\r')
        invariant
            i <= j <= n,
            n == v@.len(),
            skip_ws(v@.skip(i as int)) == skip_ws(v@.skip(j as int)),
        decreases n - j,
    {
        proof {
            assert(v@.skip(j as int)[0] == v@[j as int]);
            assert(v@.skip(j as int).drop_first() =~= v@.skip(j + 1 as int));
        }
        j += 1;
    }
    proof {
        if j < n {
            assert(v@.skip(j as int)[0] == v@[j as int]);
        }
        lemma_skip_ws_nonws(v@.skip(j as int));
    }
    j
}

/// Consumes the literal `lit`: the exec side of `expect`.
fn expect_exec(v: &Vec<char>, i: usize, lit: &str) -> (r: Option<usize>)
    requires
        i <= v@.len(),
    ensures
        match r {
            Some(j) => i <= j <= v@.len() && expect(v@.skip(i as int), lit@) == Some(
                v@.skip(j as int),
            ),
            None => expect(v@.skip(i as int), lit@) is None,
        },
{
    let n = lit.unicode_len();
    let vn = v.len();
    if vn - i < n {
        return None;
    }
    let mut k: usize = 0;
    while k < n
        invariant
            0 <= k <= n,
            i + n <= vn,
            vn == v@.len(),
            n == lit@.len(),
            forall|x: int| 0 <= x < k ==> v@[i + x] == lit@[x],
        decreases n - k,
    {
        if v[i + k] != lit.get_char(k) {
            proof {
                assert(v@.skip(i as int)[k as int] == v@[i + k]);
                assert(v@.skip(i as int).take(n as int)[k as int] == v@[i + k]);
            }
            return None;
        }
        k += 1;
    }
    proof {
        assert(v@.skip(i as int).take(n as int) =~= lit@);
        assert(v@.skip(i as int).skip(n as int) =~= v@.skip(i + n as int));
    }
    Some(i + n)
}

/// Parses a quoted string body: the exec side of `parse_str_body`.
fn parse_str_body_exec(v: &Vec<char>, i: usize) -> (r: Option<(Vec<char>, usize)>)
    requires
        i <= v@.len(),
    ensures
        match r {
            Some(t) => i < t.1 <= v@.len() && parse_str_body(v@.skip(i as int)) == Some(
                (t.0@, v@.skip(t.1 as int)),
            ),
            None => parse_str_body(v@.skip(i as int)) is None,
        },
    decreases v@.len() - i,
{
    let ghost s = v@.skip(i as int);
    if i >= v.len() {
        return None;
    }
    let c = v[i];
    proof {
        assert(s[0] == c);
    }
    if c == '"' {
        proof {
            assert(s.drop_first() =~= v@.skip(i + 1 as int));
        }
        Some((Vec::new(), i + 1))
    } else if c == '\\' {
        if i + 1 < v.len() && (v[i + 1] == '"' || v[i + 1] == '\\') {
            proof {
                assert(s[1] == v@[i + 1]);
                assert(s.skip(2) =~= v@.skip(i + 2 as int));
            }
            match parse_str_body_exec(v, i + 2) {
                Some((mut t, j)) => {
                    let e = v[i + 1];
                    t.insert(0, e);
                    proof {
                        assert(t@ =~= seq![s[1]] + t@.drop_first());
                    }
                    Some((t, j))
                },
                None => None,
            }
        } else {
            proof {
                if s.len() >= 2 {
                    assert(s[1] == v@[i + 1]);
                }
            }
            None
        }
    } else {
        proof {
            assert(s.drop_first() =~= v@.skip(i + 1 as int));
        }
        match parse_str_body_exec(v, i + 1) {
            Some((mut t, j)) => {
                t.insert(0, c);
                proof {
                    assert(t@ =~= seq![s[0]] + t@.drop_first());
                }
                Some((t, j))
            },
            None => None,
        }
    }
}

/// Parses a quoted string: the exec side of `parse_string`.
fn parse_string_exec(v: &Vec<char>, i: usize) -> (r: Option<(Vec<char>, usize)>)
    requires
        i <= v@.len(),
    ensures
        match r {
            Some(t) => i < t.1 <= v@.len() && parse_string(v@.skip(i as int)) == Some(
                (t.0@, v@.skip(t.1 as int)),
            ),
            None => parse_string(v@.skip(i as int)) is None,
        },
{
    if i < v.len() && v[i] == '"' {
        proof {
            assert(v@.skip(i as int)[0] == v@[i as int]);
            assert(v@.skip(i as int).drop_first() =~= v@.skip(i + 1 as int));
        }
        parse_str_body_exec(v, i + 1)
    } else {
        proof {
            if i < v@.len() {
                assert(v@.skip(i as int)[0] == v@[i as int]);
            }
        }
        None
    }
}

impl TransitionKey {
    /// Encodes the key in its canonical `state:symbol` textual form.
    pub fn encode_key(&self) -> (r: String)
        ensures
            r@ == enc_key(self.0@, self.1),
    {
        let mut out = to_chars(self.0.as_str());
        out.push(':');
        out.push(self.1);
        proof {
            assert(out@ =~= enc_key(self.0@, self.1));
        }
        crate::util::chars_to_string(&out)
    }

    /// Decodes the canonical `state:symbol` form: the state must be
    /// non-empty, the separator present, and the symbol exactly one
    /// character. Anything else is a syntax failure.
    pub fn decode_key(s: &str) -> (r: Result<TransitionKey, ParseError>)
        ensures
            match r {
                Ok(k) => decode_key_spec(s@) == Some((k.0@, k.1)),
                Err(e) => decode_key_spec(s@) is None && e == ParseError::BadTransitionKey,
            },
    {
        let v = to_chars(s);
        let n = v.len();
        let mut i: usize = 0;
        while i < n && v[i] != ':'
            invariant
                0 <= i <= n,
                n == v@.len(),
                v@ == s@,
                forall|x: int| 0 <= x < i ==> v@[x] != ':',
            decreases n - i,
        {
            i += 1;
        }
        if i >= n {
            proof {
                if colon_index_from(s@, 0) >= 0 {
                    lemma_colon_found(s@, 0);
                }
            }
            return Err(ParseError::BadTransitionKey);
        }
        proof {
            lemma_colon_at(s@, 0, i as int);
        }
        if i == 0 {
            return Err(ParseError::BadTransitionKey);
        }
        if n - i - 1 != 1 {
            return Err(ParseError::BadTransitionKey);
        }
        let mut state: Vec<char> = Vec::new();
        let mut k: usize = 0;
        while k < i
            invariant
                0 <= k <= i < n,
                n == v@.len(),
                v@ == s@,
                state@ == v@.take(k as int),
            decreases i - k,
        {
            state.push(v[k]);
            proof {
                assert(state@ =~= v@.take(k + 1 as int));
            }
            k += 1;
        }
        let sym = v[i + 1];
        Ok(TransitionKey(crate::util::chars_to_string(&state), sym))
    }
}

/// If `colon_index_from` finds a colon, there is one.
proof fn lemma_colon_found(k: Seq<char>, i: int)
    requires
        colon_index_from(k, i) >= 0,
    ensures
        ({
            let j = colon_index_from(k, i);
            &&& i <= j < k.len()
            &&& k[j] == ':'
        }),
    decreases k.len() - i,
{
    if 0 <= i < k.len() && k[i] != ':' {
        lemma_colon_found(k, i + 1);
    }
}

/// Appends the quoted, escaped form of `s`: the exec side of `enc_str`.
fn push_enc_str(out: &mut Vec<char>, s: &str)
    ensures
        final(out)@ == old(out)@ + enc_str(s@),
{
    out.push('"');
    let n = s.unicode_len();
    let mut i: usize = 0;
    while i < n
        invariant
            0 <= i <= n,
            n == s@.len(),
            out@ == old(out)@ + seq!['"'] + esc_from(s@, 0).take(esc_len(s@, i as int)),
        decreases n - i,
    {
        let c = s.get_char(i);
        if c == '"' || c == '\\' {
            out.push('\\');
            out.push(c);
        } else {
            out.push(c);
        }
        proof {
            lemma_esc_take(s@, i as int);
            assert(out@ =~= old(out)@ + seq!['"'] + esc_from(s@, 0).take(
                esc_len(s@, i + 1 as int),
            ));
        }
        i += 1;
    }
    out.push('"');
    proof {
        lemma_esc_take_all(s@);
        assert(out@ =~= old(out)@ + enc_str(s@));
    }
}

/// Length of the escaped form of the first `i` characters of `s`.
pub open spec fn esc_len(s: Seq<char>, i: int) -> int
    decreases i,
{
    if i <= 0 {
        0
    } else {
        esc_len(s, i - 1) + esc1(s[i - 1]).len()
    }
}

/// The escaped form of a prefix is a prefix of the escaped form.
proof fn lemma_esc_take(s: Seq<char>, i: int)
    requires
        0 <= i < s.len(),
    ensures
        esc_from(s, 0).take(esc_len(s, i + 1)) =~= esc_from(s, 0).take(esc_len(s, i)) + esc1(
            s[i],
        ),
        0 <= esc_len(s, i) <= esc_len(s, i + 1) <= esc_from(s, 0).len(),
{
    lemma_esc_split(s, i);
    lemma_esc_split(s, i + 1);
    assert(esc_len(s, i + 1) == esc_len(s, i) + esc1(s[i]).len());
    assert(esc_from(s, i) =~= esc1(s[i]) + esc_from(s, i + 1));
    assert(esc_from(s, 0).len() == esc_len(s, i) + esc_from(s, i).len());
}

/// Splitting the escaped form at character `i`.
proof fn lemma_esc_split(s: Seq<char>, i: int)
    requires
        0 <= i <= s.len(),
    ensures
        esc_from(s, 0) =~= esc_from(s, 0).take(esc_len(s, i)) + esc_from(s, i),
        esc_from(s, 0).take(esc_len(s, i)).len() == esc_len(s, i),
    decreases i,
{
    if i == 0 {
        assert(esc_from(s, 0).take(0) =~= Seq::<char>::empty());
    } else {
        lemma_esc_split(s, i - 1);
        assert(esc_from(s, i - 1) =~= esc1(s[i - 1]) + esc_from(s, i));
        assert(esc_from(s, 0) =~= (esc_from(s, 0).take(esc_len(s, i - 1)) + esc1(s[i - 1]))
            + esc_from(s, i));
        assert(esc_from(s, 0).take(esc_len(s, i)) =~= esc_from(s, 0).take(esc_len(s, i - 1))
            + esc1(s[i - 1]));
    }
}

/// With every character escaped, the whole is the escaped form.
proof fn lemma_esc_take_all(s: Seq<char>)
    ensures
        esc_from(s, 0).take(esc_len(s, s.len() as int)) =~= esc_from(s, 0),
{
    lemma_esc_split(s, s.len() as int);
    assert(esc_from(s, s.len() as int) =~= Seq::<char>::empty());
}

} // verus!

verus! {

// ---------------------------------------------------------------------------
// Lists and the transitions object.
// ---------------------------------------------------------------------------

/// Skipping whitespace never lengthens the input.
pub proof fn lemma_skip_ws_len(s: Seq<char>)
    ensures
        skip_ws(s).len() <= s.len(),
    decreases s.len(),
{
    if s.len() > 0 && is_ws(s[0]) {
        lemma_skip_ws_len(s.drop_first());
    }
}

/// A parsed string body consumes at least its closing quote.
pub proof fn lemma_psb_shrink(s: Seq<char>)
    ensures
        parse_str_body(s) matches Some(t) ==> t.1.len() < s.len(),
    decreases s.len(),
{
    if s.len() == 0 {
    } else if s[0] == '"' {
    } else if s[0] == '\\' {
        if s.len() >= 2 && (s[1] == '"' || s[1] == '\\') {
            lemma_psb_shrink(s.skip(2));
        }
    } else {
        lemma_psb_shrink(s.drop_first());
    }
}

/// A parsed string consumes at least its two quotes.
pub proof fn lemma_parse_string_shrink(s: Seq<char>)
    ensures
        parse_string(s) matches Some(t) ==> t.1.len() + 2 <= s.len(),
{
    if s.len() > 0 && s[0] == '"' {
        lemma_psb_shrink(s.drop_first());
    }
}

/// One or more comma-separated quoted strings.
pub open spec fn parse_str_items(s: Seq<char>) -> Option<(Seq<Seq<char>>, Seq<char>)>
    decreases s.len(),
        via parse_str_items_dec
{
    match parse_string(s) {
        None => None,
        Some((v, r)) => {
            let r1 = skip_ws(r);
            if r1.len() > 0 && r1[0] == ',' {
                let r2 = skip_ws(r1.drop_first());
                match parse_str_items(r2) {
                    None => None,
                    Some((vs, r3)) => Some((seq![v] + vs, r3)),
                }
            } else {
                Some((seq![v], r))
            }
        },
    }
}

#[via_fn]
proof fn parse_str_items_dec(s: Seq<char>) {
    lemma_parse_string_shrink(s);
    match parse_string(s) {
        Some((v, r)) => {
            lemma_skip_ws_len(r);
            let r1 = skip_ws(r);
            if r1.len() > 0 && r1[0] == ',' {
                lemma_skip_ws_len(r1.drop_first());
            }
        },
        None => {},
    }
}

/// A bracketed, comma-separated, possibly empty list of quoted strings.
pub open spec fn parse_str_list(s: Seq<char>) -> Option<(Seq<Seq<char>>, Seq<char>)> {
    match expect(s, seq!['[']) {
        None => None,
        Some(r) => {
            let r1 = skip_ws(r);
            match expect(r1, seq![']']) {
                Some(rr) => Some((Seq::empty(), rr)),
                None => match parse_str_items(r1) {
                    None => None,
                    Some((vs, r2)) => match expect(skip_ws(r2), seq![']']) {
                        None => None,
                        Some(rr) => Some((vs, rr)),
                    },
                },
            }
        },
    }
}

/// Each string must be exactly one character: the alphabet's symbols.
pub open spec fn as_chars(vs: Seq<Seq<char>>) -> Option<Seq<char>> {
    if forall|i: int| 0 <= i < vs.len() ==> (#[trigger] vs[i]).len() == 1 {
        Some(Seq::new(vs.len(), |i: int| vs[i][0]))
    } else {
        None
    }
}

/// One or more comma-separated `"state:symbol": "target"` entries. A key
/// string that is not in the canonical key format is a `Key` failure,
/// distinct from every other shape failure.
pub open spec fn parse_trans_items(s: Seq<char>) -> Result<
    (Seq<((Seq<char>, char), Seq<char>)>, Seq<char>),
    ParseFailure,
>
    decreases s.len(),
        via parse_trans_items_dec
{
    match parse_string(s) {
        None => Err(ParseFailure::Shape),
        Some((ks, r)) => match decode_key_spec(ks) {
            None => Err(ParseFailure::Key),
            Some(key) => {
                let r1 = skip_ws(r);
                match expect(r1, seq![':']) {
                    None => Err(ParseFailure::Shape),
                    Some(r2) => {
                        let r3 = skip_ws(r2);
                        match parse_string(r3) {
                            None => Err(ParseFailure::Shape),
                            Some((tv, r4)) => {
                                let r5 = skip_ws(r4);
                                if r5.len() > 0 && r5[0] == ',' {
                                    let r6 = skip_ws(r5.drop_first());
                                    match parse_trans_items(r6) {
                                        Err(e) => Err(e),
                                        Ok((es, r7)) => Ok((seq![(key, tv)] + es, r7)),
                                    }
                                } else {
                                    Ok((seq![(key, tv)], r4))
                                }
                            },
                        }
                    },
                }
            },
        },
    }
}

#[via_fn]
proof fn parse_trans_items_dec(s: Seq<char>) {
    lemma_parse_string_shrink(s);
    match parse_string(s) {
        Some((ks, r)) => {
            lemma_skip_ws_len(r);
            let r1 = skip_ws(r);
            match expect(r1, seq![':']) {
                Some(r2) => {
                    lemma_skip_ws_len(r2);
                    let r3 = skip_ws(r2);
                    lemma_parse_string_shrink(r3);
                    match parse_string(r3) {
                        Some((tv, r4)) => {
                            lemma_skip_ws_len(r4);
                            let r5 = skip_ws(r4);
                            if r5.len() > 0 && r5[0] == ',' {
                                lemma_skip_ws_len(r5.drop_first());
                            }
                        },
                        None => {},
                    }
                },
                None => {},
            }
        },
        None => {},
    }
}

/// The braced, possibly empty transitions object.
pub open spec fn parse_trans(s: Seq<char>) -> Result<
    (Seq<((Seq<char>, char), Seq<char>)>, Seq<char>),
    ParseFailure,
> {
    match expect(s, seq!['{']) {
        None => Err(ParseFailure::Shape),
        Some(r) => {
            let r1 = skip_ws(r);
            match expect(r1, seq!['}']) {
                Some(rr) => Ok((Seq::empty(), rr)),
                None => match parse_trans_items(r1) {
                    Err(e) => Err(e),
                    Ok((es, r2)) => match expect(skip_ws(r2), seq!['}']) {
                        None => Err(ParseFailure::Shape),
                        Some(rr) => Ok((es, rr)),
                    },
                },
            }
        },
    }
}

// ---------------------------------------------------------------------------
// Set semantics: duplicates collapse, later transition entries override.
// ---------------------------------------------------------------------------

/// Keeps the first occurrence of each string, dropping later duplicates.
pub open spec fn dedup_strs(l: Seq<Seq<char>>) -> Seq<Seq<char>>
    decreases l.len(),
{
    if l.len() == 0 {
        Seq::empty()
    } else if l.drop_last().contains(l.last()) {
        dedup_strs(l.drop_last())
    } else {
        dedup_strs(l.drop_last()).push(l.last())
    }
}

/// Keeps the first occurrence of each character, dropping later duplicates.
pub open spec fn dedup_chars(l: Seq<char>) -> Seq<char>
    decreases l.len(),
{
    if l.len() == 0 {
        Seq::empty()
    } else if l.drop_last().contains(l.last()) {
        dedup_chars(l.drop_last())
    } else {
        dedup_chars(l.drop_last()).push(l.last())
    }
}

/// Inserting into the transition table: an existing key keeps its place and
/// takes the new target; a new key goes to the end.
pub open spec fn tinsert(
    ts: Seq<((Seq<char>, char), Seq<char>)>,
    q: Seq<char>,
    c: char,
    v: Seq<char>,
) -> Seq<((Seq<char>, char), Seq<char>)> {
    let ki = crate::model::key_index(ts, q, c);
    if ki >= 0 {
        ts.update(ki, ((q, c), v))
    } else {
        ts.push(((q, c), v))
    }
}

/// The transition table built from the parsed entries, in order.
pub open spec fn build_trans(es: Seq<((Seq<char>, char), Seq<char>)>) -> Seq<
    ((Seq<char>, char), Seq<char>),
>
    decreases es.len(),
{
    if es.len() == 0 {
        Seq::empty()
    } else {
        let e = es.last();
        let k = e.0;
        tinsert(build_trans(es.drop_last()), k.0, k.1, e.1)
    }
}

} // verus!

verus! {

// ---------------------------------------------------------------------------
// Encoders for lists and the transitions object.
// ---------------------------------------------------------------------------

/// The encoded items of a string list, from index `i` on, comma-separated.
pub open spec fn enc_str_items(l: Seq<Seq<char>>, i: int) -> Seq<char>
    decreases l.len() - i,
{
    if i < 0 || i >= l.len() {
        Seq::empty()
    } else if i == l.len() - 1 {
        enc_str(l[i])
    } else {
        enc_str(l[i]) + seq![','] + enc_str_items(l, i + 1)
    }
}

/// The encoded form of a string list.
pub open spec fn enc_str_list(l: Seq<Seq<char>>) -> Seq<char> {
    seq!['['] + enc_str_items(l, 0) + seq![']']
}

/// Each character as a one-character string.
pub open spec fn singles(l: Seq<char>) -> Seq<Seq<char>> {
    Seq::new(l.len(), |i: int| seq![l[i]])
}

/// The encoded form of the alphabet: a list of one-character strings.
pub open spec fn enc_char_list(l: Seq<char>) -> Seq<char> {
    enc_str_list(singles(l))
}

/// The encoded form of one transition entry.
pub open spec fn enc_entry(q: Seq<char>, c: char, t: Seq<char>) -> Seq<char> {
    enc_str(enc_key(q, c)) + seq![':'] + enc_str(t)
}

/// The encoded entries of the transitions object, from index `i` on.
pub open spec fn enc_trans_items(ts: Seq<((Seq<char>, char), Seq<char>)>, i: int) -> Seq<char>
    decreases ts.len() - i,
{
    if i < 0 || i >= ts.len() {
        Seq::empty()
    } else {
        let e = ts[i];
        let k = e.0;
        if i == ts.len() - 1 {
            enc_entry(k.0, k.1, e.1)
        } else {
            enc_entry(k.0, k.1, e.1) + seq![','] + enc_trans_items(ts, i + 1)
        }
    }
}

/// The encoded form of the transitions object.
pub open spec fn enc_trans(ts: Seq<((Seq<char>, char), Seq<char>)>) -> Seq<char> {
    seq!['{'] + enc_trans_items(ts, 0) + seq!['}']
}

// ---------------------------------------------------------------------------
// Round trips for lists and the transitions object.
// ---------------------------------------------------------------------------

/// Encoded string items start with a quote.
proof fn lemma_enc_str_items_head(l: Seq<Seq<char>>, j: int)
    requires
        0 <= j < l.len(),
    ensures
        enc_str_items(l, j).len() > 0,
        enc_str_items(l, j)[0] == '"',
{
    if j == l.len() - 1 {
        assert(enc_str_items(l, j) == enc_str(l[j]));
        assert(enc_str(l[j])[0] == '"');
    } else {
        assert(enc_str_items(l, j) == enc_str(l[j]) + seq![','] + enc_str_items(l, j + 1));
        assert(enc_str(l[j])[0] == '"');
        assert(enc_str_items(l, j)[0] == '"');
    }
}

/// Encoded transition items start with a quote.
proof fn lemma_enc_trans_items_head(ts: Seq<((Seq<char>, char), Seq<char>)>, j: int)
    requires
        0 <= j < ts.len(),
    ensures
        enc_trans_items(ts, j).len() > 0,
        enc_trans_items(ts, j)[0] == '"',
{
    let e = ts[j];
    let k = e.0;
    assert(enc_str(enc_key(k.0, k.1))[0] == '"');
    if j == ts.len() - 1 {
        assert(enc_trans_items(ts, j) == enc_entry(k.0, k.1, e.1));
        assert(enc_entry(k.0, k.1, e.1)[0] == '"');
    } else {
        assert(enc_trans_items(ts, j) == enc_entry(k.0, k.1, e.1) + seq![','] + enc_trans_items(
            ts,
            j + 1,
        ));
        assert(enc_entry(k.0, k.1, e.1)[0] == '"');
        assert(enc_trans_items(ts, j)[0] == '"');
    }
}

/// `expect` of a literal fails where the first characters differ.
proof fn lemma_expect_one_neq(s: Seq<char>, c: char)
    requires
        s.len() > 0,
        s[0] != c,
    ensures
        expect(s, seq![c]) is None,
{
    if s.len() >= 1 && s.take(1) == seq![c] {
        assert(s.take(1)[0] == s[0]);
    }
}

/// Encoded string items parse back to the strings they encode, when what
/// follows starts with neither whitespace nor a comma.
proof fn lemma_parse_enc_str_items(l: Seq<Seq<char>>, k: int, rest: Seq<char>)
    requires
        0 <= k < l.len(),
        rest.len() > 0,
        !is_ws(rest[0]),
        rest[0] != ',',
    ensures
        parse_str_items(enc_str_items(l, k) + rest) == Some((l.skip(k), rest)),
    decreases l.len() - k,
{
    if k == l.len() - 1 {
        let s = enc_str_items(l, k) + rest;
        assert(s =~= enc_str(l[k]) + rest);
        lemma_parse_enc_str(l[k], rest);
        lemma_skip_ws_nonws(rest);
        assert(parse_str_items(s) == Some((seq![l[k]], rest)));
        assert(seq![l[k]] =~= l.skip(k));
    } else {
        let tail = enc_str_items(l, k + 1);
        let after = seq![','] + tail + rest;
        let s = enc_str_items(l, k) + rest;
        assert(s =~= enc_str(l[k]) + after);
        lemma_parse_enc_str(l[k], after);
        assert(after[0] == ',');
        lemma_skip_ws_nonws(after);
        lemma_enc_str_items_head(l, k + 1);
        assert(after.drop_first() =~= tail + rest);
        assert((tail + rest)[0] == '"');
        lemma_skip_ws_nonws(tail + rest);
        lemma_parse_enc_str_items(l, k + 1, rest);
        assert(parse_str_items(s) == Some((seq![l[k]] + l.skip(k + 1), rest)));
        assert(seq![l[k]] + l.skip(k + 1) =~= l.skip(k));
    }
}

/// An encoded string list parses back to itself.
pub proof fn lemma_parse_enc_str_list(l: Seq<Seq<char>>, rest: Seq<char>)
    ensures
        parse_str_list(enc_str_list(l) + rest) == Some((l, rest)),
{
    let s = enc_str_list(l) + rest;
    let inner = enc_str_items(l, 0) + seq![']'] + rest;
    assert(s =~= seq!['['] + inner);
    lemma_expect_prefix(seq!['['], inner);
    if l.len() == 0 {
        assert(enc_str_items(l, 0) =~= Seq::<char>::empty());
        assert(inner =~= seq![']'] + rest);
        assert(inner[0] == ']');
        lemma_skip_ws_nonws(inner);
        lemma_expect_prefix(seq![']'], rest);
        assert(parse_str_list(s) == Some((Seq::<Seq<char>>::empty(), rest)));
        assert(Seq::<Seq<char>>::empty() =~= l);
    } else {
        lemma_enc_str_items_head(l, 0);
        assert(inner[0] == '"');
        lemma_skip_ws_nonws(inner);
        lemma_expect_one_neq(inner, ']');
        assert(inner =~= enc_str_items(l, 0) + (seq![']'] + rest));
        assert((seq![']'] + rest)[0] == ']');
        lemma_parse_enc_str_items(l, 0, seq![']'] + rest);
        assert(l.skip(0) =~= l);
        lemma_skip_ws_nonws(seq![']'] + rest);
        lemma_expect_prefix(seq![']'], rest);
    }
}

/// The one-character strings of the alphabet convert back to its characters.
pub proof fn lemma_as_chars_singles(l: Seq<char>)
    ensures
        as_chars(singles(l)) == Some(l),
{
    assert(forall|i: int| 0 <= i < singles(l).len() ==> (#[trigger] singles(l)[i]).len() == 1);
    match as_chars(singles(l)) {
        Some(r) => {
            assert(r =~= l);
        },
        None => {},
    }
}

/// Encoded transition items parse back to the entries they encode, when the
/// key states are non-empty and hold no ':' and what follows starts with
/// neither whitespace nor a comma.
proof fn lemma_parse_enc_trans_items(
    ts: Seq<((Seq<char>, char), Seq<char>)>,
    k: int,
    rest: Seq<char>,
)
    requires
        0 <= k < ts.len(),
        rest.len() > 0,
        !is_ws(rest[0]),
        rest[0] != ',',
        forall|i: int|
            0 <= i < ts.len() ==> {
                let key = (#[trigger] ts[i]).0;
                key.0.len() > 0 && (forall|x: int| 0 <= x < key.0.len() ==> key.0[x] != ':')
            },
    ensures
        parse_trans_items(enc_trans_items(ts, k) + rest) == Ok::<_, ParseFailure>((ts.skip(k), rest)),
    decreases ts.len() - k,
{
    let e = ts[k];
    let key = e.0;
    let after_entry: Seq<char> = if k == ts.len() - 1 {
        rest
    } else {
        seq![','] + enc_trans_items(ts, k + 1) + rest
    };
    let s = enc_trans_items(ts, k) + rest;
    let colon_part = seq![':'] + enc_str(e.1) + after_entry;
    assert(s =~= enc_str(enc_key(key.0, key.1)) + colon_part);
    lemma_parse_enc_str(enc_key(key.0, key.1), colon_part);
    assert(key.0.len() > 0 && (forall|x: int| 0 <= x < key.0.len() ==> key.0[x] != ':'));
    lemma_decode_enc_key(key.0, key.1);
    assert(colon_part[0] == ':');
    lemma_skip_ws_nonws(colon_part);
    lemma_expect_prefix(seq![':'], enc_str(e.1) + after_entry);
    assert(colon_part =~= seq![':'] + (enc_str(e.1) + after_entry));
    assert((enc_str(e.1) + after_entry)[0] == '"');
    lemma_skip_ws_nonws(enc_str(e.1) + after_entry);
    lemma_parse_enc_str(e.1, after_entry);
    if k == ts.len() - 1 {
        lemma_skip_ws_nonws(after_entry);
        assert(parse_trans_items(s) == Ok::<_, ParseFailure>((seq![(key, e.1)], rest)));
        assert((key, e.1) == e);
        assert(seq![e] =~= ts.skip(k));
    } else {
        assert(after_entry[0] == ',');
        lemma_skip_ws_nonws(after_entry);
        lemma_enc_trans_items_head(ts, k + 1);
        assert(after_entry.drop_first() =~= enc_trans_items(ts, k + 1) + rest);
        assert((enc_trans_items(ts, k + 1) + rest)[0] == '"');
        lemma_skip_ws_nonws(enc_trans_items(ts, k + 1) + rest);
        lemma_parse_enc_trans_items(ts, k + 1, rest);
        assert((key, e.1) == e);
        assert(parse_trans_items(s) == Ok::<_, ParseFailure>((seq![e] + ts.skip(k + 1), rest)));
        assert(seq![e] + ts.skip(k + 1) =~= ts.skip(k));
    }
}

/// An encoded transitions object parses back to its entries.
pub proof fn lemma_parse_enc_trans(ts: Seq<((Seq<char>, char), Seq<char>)>, rest: Seq<char>)
    requires
        forall|i: int|
            0 <= i < ts.len() ==> {
                let key = (#[trigger] ts[i]).0;
                key.0.len() > 0 && (forall|x: int| 0 <= x < key.0.len() ==> key.0[x] != ':')
            },
    ensures
        parse_trans(enc_trans(ts) + rest) == Ok::<_, ParseFailure>((ts, rest)),
{
    let s = enc_trans(ts) + rest;
    let inner = enc_trans_items(ts, 0) + seq!['}'] + rest;
    assert(s =~= seq!['{'] + inner);
    lemma_expect_prefix(seq!['{'], inner);
    if ts.len() == 0 {
        assert(enc_trans_items(ts, 0) =~= Seq::<char>::empty());
        assert(inner =~= seq!['}'] + rest);
        assert(inner[0] == '}');
        lemma_skip_ws_nonws(inner);
        lemma_expect_prefix(seq!['}'], rest);
        assert(parse_trans(s) == Ok::<_, ParseFailure>((Seq::<((Seq<char>, char), Seq<char>)>::empty(), rest)));
        assert(Seq::<((Seq<char>, char), Seq<char>)>::empty() =~= ts);
    } else {
        lemma_enc_trans_items_head(ts, 0);
        assert(inner[0] == '"');
        lemma_skip_ws_nonws(inner);
        lemma_expect_one_neq(inner, '}');
        assert(inner =~= enc_trans_items(ts, 0) + (seq!['}'] + rest));
        assert((seq!['}'] + rest)[0] == '}');
        lemma_parse_enc_trans_items(ts, 0, seq!['}'] + rest);
        assert(ts.skip(0) =~= ts);
        lemma_skip_ws_nonws(seq!['}'] + rest);
        lemma_expect_prefix(seq!['}'], rest);
    }
}

// ---------------------------------------------------------------------------
// Identity of the set-semantics passes on already well-formed data.
// ---------------------------------------------------------------------------

/// Deduplication changes nothing where no duplicates stand.
pub proof fn lemma_dedup_strs_id(l: Seq<Seq<char>>)
    requires
        crate::model::distinct_seq(l),
    ensures
        dedup_strs(l) == l,
    decreases l.len(),
{
    if l.len() > 0 {
        let front = l.drop_last();
        assert(crate::model::distinct_seq(front)) by {
            assert(forall|i: int| 0 <= i < front.len() ==> front[i] == l[i]);
        }
        lemma_dedup_strs_id(front);
        if front.contains(l.last()) {
            let i = choose|i: int| 0 <= i < front.len() && front[i] == l.last();
            assert(l[i] == l[l.len() - 1]);
            assert(false);
        }
        assert(dedup_strs(l) == front.push(l.last()));
        assert(front.push(l.last()) =~= l);
    }
}

/// Deduplication changes nothing where no duplicates stand.
pub proof fn lemma_dedup_chars_id(l: Seq<char>)
    requires
        crate::model::distinct_seq(l),
    ensures
        dedup_chars(l) == l,
    decreases l.len(),
{
    if l.len() > 0 {
        let front = l.drop_last();
        assert(crate::model::distinct_seq(front)) by {
            assert(forall|i: int| 0 <= i < front.len() ==> front[i] == l[i]);
        }
        lemma_dedup_chars_id(front);
        if front.contains(l.last()) {
            let i = choose|i: int| 0 <= i < front.len() && front[i] == l.last();
            assert(l[i] == l[l.len() - 1]);
            assert(false);
        }
        assert(dedup_chars(l) == front.push(l.last()));
        assert(front.push(l.last()) =~= l);
    }
}

/// Building the table changes nothing where no key occurs twice.
pub proof fn lemma_build_trans_id(es: Seq<((Seq<char>, char), Seq<char>)>)
    requires
        forall|i: int, j: int|
            0 <= i < j < es.len() ==> (#[trigger] es[i]).0 != (#[trigger] es[j]).0,
    ensures
        build_trans(es) == es,
    decreases es.len(),
{
    if es.len() > 0 {
        let front = es.drop_last();
        assert(forall|i: int, j: int|
            0 <= i < j < front.len() ==> (#[trigger] front[i]).0 != (#[trigger] front[j]).0) by {
            assert(forall|i: int| 0 <= i < front.len() ==> front[i] == es[i]);
        }
        lemma_build_trans_id(front);
        let e = es.last();
        let k = e.0;
        crate::model::lemma_key_index(front, k.0, k.1);
        let ki = crate::model::key_index(front, k.0, k.1);
        if ki >= 0 {
            assert(front[ki] == es[ki]);
            assert(es[ki].0 == (k.0, k.1));
            assert(k == (k.0, k.1));
            assert(es[ki].0 == es[es.len() - 1].0);
            assert(false);
        }
        assert(build_trans(es) == front.push(((k.0, k.1), e.1)));
        assert(((k.0, k.1), e.1) == e);
        assert(front.push(e) =~= es);
    }
}

} // verus!

verus! {

// ---------------------------------------------------------------------------
// Executable parsers for lists and the transitions object.
// ---------------------------------------------------------------------------

/// One-character `expect`, characterized both ways.
proof fn lemma_expect_one(s: Seq<char>, c: char)
    ensures
        s.len() > 0 && s[0] == c ==> expect(s, seq![c]) == Some(s.drop_first()),
        !(s.len() > 0 && s[0] == c) ==> expect(s, seq![c]) is None,
{
    if s.len() > 0 && s[0] == c {
        assert(s.take(1) =~= seq![c]);
        assert(s.skip(1) =~= s.drop_first());
    } else if s.len() > 0 {
        lemma_expect_one_neq(s, c);
    }
}

/// Parses comma-separated quoted strings: the exec side of `parse_str_items`.
fn parse_str_items_exec(v: &Vec<char>, i: usize) -> (r: Option<(Vec<String>, usize)>)
    requires
        i <= v@.len(),
    ensures
        match r {
            Some(t) => i < t.1 <= v@.len() && parse_str_items(v@.skip(i as int)) == Some(
                (t.0.deep_view(), v@.skip(t.1 as int)),
            ),
            None => parse_str_items(v@.skip(i as int)) is None,
        },
    decreases v@.len() - i,
{
    match parse_string_exec(v, i) {
        None => None,
        Some((sv, j)) => {
            let first = crate::util::chars_to_string(&sv);
            let j1 = skip_ws_exec(v, j);
            if j1 < v.len() && v[j1] == ',' {
                proof {
                    assert(v@.skip(j1 as int)[0] == v@[j1 as int]);
                    assert(v@.skip(j1 as int).drop_first() =~= v@.skip(j1 + 1 as int));
                }
                let j2 = skip_ws_exec(v, j1 + 1);
                match parse_str_items_exec(v, j2) {
                    None => None,
                    Some((mut vs, j3)) => {
                        let ghost vs0 = vs.deep_view();
                        vs.insert(0, first);
                        proof {
                            assert(vs.deep_view() =~= seq![sv@] + vs0);
                        }
                        Some((vs, j3))
                    },
                }
            } else {
                proof {
                    if j1 < v@.len() {
                        assert(v@.skip(j1 as int)[0] == v@[j1 as int]);
                    }
                }
                let mut out: Vec<String> = Vec::new();
                out.push(first);
                proof {
                    assert(out.deep_view() =~= seq![sv@]);
                }
                Some((out, j))
            }
        },
    }
}

/// Parses a string list: the exec side of `parse_str_list`.
fn parse_str_list_exec(v: &Vec<char>, i: usize) -> (r: Option<(Vec<String>, usize)>)
    requires
        i <= v@.len(),
    ensures
        match r {
            Some(t) => i <= t.1 <= v@.len() && parse_str_list(v@.skip(i as int)) == Some(
                (t.0.deep_view(), v@.skip(t.1 as int)),
            ),
            None => parse_str_list(v@.skip(i as int)) is None,
        },
{
    let ghost s = v@.skip(i as int);
    proof {
        lemma_expect_one(s, '[');
        if s.len() > 0 {
            assert(s[0] == v@[i as int]);
        }
    }
    if !(i < v.len() && v[i] == '[') {
        return None;
    }
    proof {
        assert(s.drop_first() =~= v@.skip(i + 1 as int));
    }
    let j0 = skip_ws_exec(v, i + 1);
    let ghost r1 = v@.skip(j0 as int);
    proof {
        lemma_expect_one(r1, ']');
        if r1.len() > 0 {
            assert(r1[0] == v@[j0 as int]);
        }
    }
    if j0 < v.len() && v[j0] == ']' {
        let out: Vec<String> = Vec::new();
        proof {
            assert(r1.drop_first() =~= v@.skip(j0 + 1 as int));
            assert(out.deep_view() =~= Seq::<Seq<char>>::empty());
        }
        return Some((out, j0 + 1));
    }
    match parse_str_items_exec(v, j0) {
        None => None,
        Some((vs, j1)) => {
            let j2 = skip_ws_exec(v, j1);
            let ghost r2 = v@.skip(j2 as int);
            proof {
                lemma_expect_one(r2, ']');
                if r2.len() > 0 {
                    assert(r2[0] == v@[j2 as int]);
                }
            }
            if j2 < v.len() && v[j2] == ']' {
                proof {
                    assert(r2.drop_first() =~= v@.skip(j2 + 1 as int));
                }
                Some((vs, j2 + 1))
            } else {
                None
            }
        },
    }
}

/// Checks that every string is one character and takes those characters:
/// the exec side of `as_chars`.
fn as_chars_exec(vs: &Vec<String>) -> (r: Option<Vec<char>>)
    ensures
        match r {
            Some(cs) => as_chars(vs.deep_view()) == Some(cs@),
            None => as_chars(vs.deep_view()) is None,
        },
{
    let n = vs.len();
    let mut out: Vec<char> = Vec::new();
    let mut i: usize = 0;
    while i < n
        invariant
            0 <= i <= n,
            n == vs@.len(),
            out@.len() == i,
            forall|x: int| 0 <= x < i ==> (#[trigger] vs.deep_view()[x]).len() == 1,
            forall|x: int| 0 <= x < i ==> out@[x] == vs.deep_view()[x][0],
        decreases n - i,
    {
        let sref = &vs[i];
        if sref.as_str().unicode_len() != 1 {
            proof {
                assert(vs.deep_view()[i as int].len() != 1);
            }
            return None;
        }
        out.push(sref.as_str().get_char(0));
        i += 1;
    }
    proof {
        match as_chars(vs.deep_view()) {
            Some(cs) => {
                assert(out@ =~= cs);
            },
            None => {
                assert(false);
            },
        }
    }
    Some(out)
}

/// Parses comma-separated transition entries: the exec side of
/// `parse_trans_items`.
fn parse_trans_items_exec(v: &Vec<char>, i: usize) -> (r: Result<
    (Vec<(TransitionKey, String)>, usize),
    ParseError,
>)
    requires
        i <= v@.len(),
    ensures
        match r {
            Ok(t) => i < t.1 <= v@.len() && parse_trans_items(v@.skip(i as int)) == Ok::<
                _,
                ParseFailure,
            >((crate::model::transitions_model(t.0@), v@.skip(t.1 as int))),
            Err(e) => parse_trans_items(v@.skip(i as int)) == Err::<
                (Seq<((Seq<char>, char), Seq<char>)>, Seq<char>),
                ParseFailure,
            >(e.model()),
        },
    decreases v@.len() - i,
{
    match parse_string_exec(v, i) {
        None => Err(ParseError::Malformed),
        Some((ks, j)) => {
            let key_text = crate::util::chars_to_string(&ks);
            match TransitionKey::decode_key(key_text.as_str()) {
                Err(_) => Err(ParseError::BadTransitionKey),
                Ok(key) => {
                    let j1 = skip_ws_exec(v, j);
                    let ghost r1 = v@.skip(j1 as int);
                    proof {
                        lemma_expect_one(r1, ':');
                        if r1.len() > 0 {
                            assert(r1[0] == v@[j1 as int]);
                        }
                    }
                    if !(j1 < v.len() && v[j1] == ':') {
                        return Err(ParseError::Malformed);
                    }
                    proof {
                        assert(r1.drop_first() =~= v@.skip(j1 + 1 as int));
                    }
                    let j2 = skip_ws_exec(v, j1 + 1);
                    match parse_string_exec(v, j2) {
                        None => Err(ParseError::Malformed),
                        Some((tv, j3)) => {
                            let target = crate::util::chars_to_string(&tv);
                            let j4 = skip_ws_exec(v, j3);
                            if j4 < v.len() && v[j4] == ',' {
                                proof {
                                    assert(v@.skip(j4 as int)[0] == v@[j4 as int]);
                                    assert(v@.skip(j4 as int).drop_first() =~= v@.skip(
                                        j4 + 1 as int,
                                    ));
                                }
                                let j5 = skip_ws_exec(v, j4 + 1);
                                match parse_trans_items_exec(v, j5) {
                                    Err(e) => Err(e),
                                    Ok((mut es, j6)) => {
                                        let ghost es0 = crate::model::transitions_model(es@);
                                        es.insert(0, (key, target));
                                        proof {
                                            assert(crate::model::transitions_model(es@) =~= seq![
                                                ((key.0@, key.1), target@),
                                            ] + es0);
                                        }
                                        Ok((es, j6))
                                    },
                                }
                            } else {
                                proof {
                                    if j4 < v@.len() {
                                        assert(v@.skip(j4 as int)[0] == v@[j4 as int]);
                                    }
                                }
                                let mut out: Vec<(TransitionKey, String)> = Vec::new();
                                out.push((key, target));
                                proof {
                                    assert(crate::model::transitions_model(out@) =~= seq![
                                        ((key.0@, key.1), target@),
                                    ]);
                                }
                                Ok((out, j3))
                            }
                        },
                    }
                },
            }
        },
    }
}

/// Parses the transitions object: the exec side of `parse_trans`.
fn parse_trans_exec(v: &Vec<char>, i: usize) -> (r: Result<
    (Vec<(TransitionKey, String)>, usize),
    ParseError,
>)
    requires
        i <= v@.len(),
    ensures
        match r {
            Ok(t) => i <= t.1 <= v@.len() && parse_trans(v@.skip(i as int)) == Ok::<
                _,
                ParseFailure,
            >((crate::model::transitions_model(t.0@), v@.skip(t.1 as int))),
            Err(e) => parse_trans(v@.skip(i as int)) == Err::<
                (Seq<((Seq<char>, char), Seq<char>)>, Seq<char>),
                ParseFailure,
            >(e.model()),
        },
{
    let ghost s = v@.skip(i as int);
    proof {
        lemma_expect_one(s, '{');
        if s.len() > 0 {
            assert(s[0] == v@[i as int]);
        }
    }
    if !(i < v.len() && v[i] == '{') {
        return Err(ParseError::Malformed);
    }
    proof {
        assert(s.drop_first() =~= v@.skip(i + 1 as int));
    }
    let j0 = skip_ws_exec(v, i + 1);
    let ghost r1 = v@.skip(j0 as int);
    proof {
        lemma_expect_one(r1, '}');
        if r1.len() > 0 {
            assert(r1[0] == v@[j0 as int]);
        }
    }
    if j0 < v.len() && v[j0] == '}' {
        let out: Vec<(TransitionKey, String)> = Vec::new();
        proof {
            assert(r1.drop_first() =~= v@.skip(j0 + 1 as int));
            assert(crate::model::transitions_model(out@) =~= Seq::<
                ((Seq<char>, char), Seq<char>),
            >::empty());
        }
        return Ok((out, j0 + 1));
    }
    match parse_trans_items_exec(v, j0) {
        Err(e) => Err(e),
        Ok((es, j1)) => {
            let j2 = skip_ws_exec(v, j1);
            let ghost r2 = v@.skip(j2 as int);
            proof {
                lemma_expect_one(r2, '}');
                if r2.len() > 0 {
                    assert(r2[0] == v@[j2 as int]);
                }
            }
            if j2 < v.len() && v[j2] == '}' {
                proof {
                    assert(r2.drop_first() =~= v@.skip(j2 + 1 as int));
                }
                Ok((es, j2 + 1))
            } else {
                Err(ParseError::Malformed)
            }
        },
    }
}

// ---------------------------------------------------------------------------
// Executable set-semantics passes.
// ---------------------------------------------------------------------------

/// Whether the characters of `x` stand among the first `n` strings of `v`.
fn contains_str_upto(v: &Vec<String>, n: usize, x: &str) -> (r: bool)
    requires
        n <= v@.len(),
    ensures
        r == v.deep_view().take(n as int).contains(x@),
{
    let mut i: usize = 0;
    while i < n
        invariant
            0 <= i <= n <= v@.len(),
            forall|j: int| 0 <= j < i ==> v.deep_view()[j] != x@,
        decreases n - i,
    {
        if crate::util::str_eq(v[i].as_str(), x) {
            proof {
                assert(v.deep_view().take(n as int)[i as int] == x@);
            }
            return true;
        }
        i += 1;
    }
    proof {
        if v.deep_view().take(n as int).contains(x@) {
            let j = choose|j: int|
                0 <= j < n && v.deep_view().take(n as int)[j] == x@;
            assert(v.deep_view()[j] == x@);
        }
    }
    false
}

/// Whether `c` stands among the first `n` characters of `v`.
fn contains_char_upto(v: &Vec<char>, n: usize, c: char) -> (r: bool)
    requires
        n <= v@.len(),
    ensures
        r == v@.take(n as int).contains(c),
{
    let mut i: usize = 0;
    while i < n
        invariant
            0 <= i <= n <= v@.len(),
            forall|j: int| 0 <= j < i ==> v@[j] != c,
        decreases n - i,
    {
        if v[i] == c {
            proof {
                assert(v@.take(n as int)[i as int] == c);
            }
            return true;
        }
        i += 1;
    }
    proof {
        if v@.take(n as int).contains(c) {
            let j = choose|j: int| 0 <= j < n && v@.take(n as int)[j] == c;
            assert(v@[j] == c);
        }
    }
    false
}

/// Drops later duplicates, keeping first occurrences: the exec side of
/// `dedup_strs`.
fn dedup_strs_exec(v: Vec<String>) -> (r: Vec<String>)
    ensures
        r.deep_view() == dedup_strs(v.deep_view()),
{
    let n = v.len();
    let mut out: Vec<String> = Vec::new();
    let mut i: usize = 0;
    while i < n
        invariant
            0 <= i <= n,
            n == v@.len(),
            out.deep_view() =~= dedup_strs(v.deep_view().take(i as int)),
        decreases n - i,
    {
        let ghost pre = v.deep_view().take(i as int);
        let ghost cur = v.deep_view().take(i + 1 as int);
        proof {
            assert(cur.drop_last() =~= pre);
            assert(cur.last() == v.deep_view()[i as int]);
        }
        if !contains_str_upto(&v, i, v[i].as_str()) {
            let item = v[i].clone();
            out.push(item);
        }
        i += 1;
    }
    proof {
        assert(v.deep_view().take(n as int) =~= v.deep_view());
    }
    out
}

/// Drops later duplicates, keeping first occurrences: the exec side of
/// `dedup_chars`.
fn dedup_chars_exec(v: Vec<char>) -> (r: Vec<char>)
    ensures
        r@ == dedup_chars(v@),
{
    let n = v.len();
    let mut out: Vec<char> = Vec::new();
    let mut i: usize = 0;
    while i < n
        invariant
            0 <= i <= n,
            n == v@.len(),
            out@ =~= dedup_chars(v@.take(i as int)),
        decreases n - i,
    {
        let ghost pre = v@.take(i as int);
        let ghost cur = v@.take(i + 1 as int);
        proof {
            assert(cur.drop_last() =~= pre);
            assert(cur.last() == v@[i as int]);
        }
        if !contains_char_upto(&v, i, v[i]) {
            let item = v[i];
            out.push(item);
        }
        i += 1;
    }
    proof {
        assert(v@.take(n as int) =~= v@);
    }
    out
}

/// Inserts one entry, overriding an existing key in place: the exec side of
/// `tinsert`.
fn trans_insert(ts: &mut Vec<(TransitionKey, String)>, key: TransitionKey, target: String)
    ensures
        crate::model::transitions_model(final(ts)@) == tinsert(
            crate::model::transitions_model(old(ts)@),
            key.0@,
            key.1,
            target@,
        ),
{
    let ghost tm = crate::model::transitions_model(ts@);
    proof {
        crate::model::lemma_key_index(tm, key.0@, key.1);
    }
    let n = ts.len();
    let mut i: usize = 0;
    while i < n
        invariant
            0 <= i <= n,
            n == ts@.len(),
            ts@ == old(ts)@,
            tm == crate::model::transitions_model(ts@),
            forall|j: int| 0 <= j < i ==> (#[trigger] tm[j]).0 != (key.0@, key.1),
        decreases n - i,
    {
        let hit = {
            let entry = &ts[i];
            entry.0 .1 == key.1 && crate::util::str_eq(entry.0 .0.as_str(), key.0.as_str())
        };
        if hit {
            proof {
                assert(tm[i as int].0 == (key.0@, key.1));
                crate::model::lemma_key_index(tm, key.0@, key.1);
                assert(crate::model::key_index(tm, key.0@, key.1) == i);
            }
            ts.set(i, (key, target));
            proof {
                assert(crate::model::transitions_model(ts@) =~= tinsert(
                    tm,
                    key.0@,
                    key.1,
                    target@,
                ));
            }
            return ;
        }
        proof {
            assert(tm[i as int].0 != (key.0@, key.1));
        }
        i += 1;
    }
    proof {
        crate::model::lemma_key_index(tm, key.0@, key.1);
        assert(crate::model::key_index(tm, key.0@, key.1) == -1);
    }
    ts.push((key, target));
    proof {
        assert(crate::model::transitions_model(ts@) =~= tinsert(tm, key.0@, key.1, target@));
    }
}

/// Folds the parsed entries into the table: the exec side of `build_trans`.
fn build_trans_exec(entries: Vec<(TransitionKey, String)>) -> (r: Vec<(TransitionKey, String)>)
    ensures
        crate::model::transitions_model(r@) == build_trans(
            crate::model::transitions_model(entries@),
        ),
{
    let ghost em = crate::model::transitions_model(entries@);
    let mut out: Vec<(TransitionKey, String)> = Vec::new();
    let n = entries.len();
    let mut i: usize = 0;
    while i < n
        invariant
            0 <= i <= n,
            n == entries@.len(),
            em == crate::model::transitions_model(entries@),
            em.len() == n,
            crate::model::transitions_model(out@) == build_trans(em.take(i as int)),
        decreases n - i,
    {
        let ghost pre = em.take(i as int);
        let ghost cur = em.take(i + 1 as int);
        proof {
            assert(cur.drop_last() =~= pre);
            assert(cur.last() == em[i as int]);
        }
        let entry = &entries[i];
        let key = TransitionKey(entry.0 .0.clone(), entry.0 .1);
        let target = entry.1.clone();
        proof {
            assert(em[i as int].0 == (key.0@, key.1));
            assert(em[i as int].1 == target@);
        }
        trans_insert(&mut out, key, target);
        i += 1;
    }
    proof {
        assert(em.take(n as int) =~= em);
    }
    out
}

} // verus!

verus! {

// ---------------------------------------------------------------------------
// The whole document: fields in fixed order, description optional.
// ---------------------------------------------------------------------------

/// After the fields: the closing brace, then nothing but whitespace.
pub open spec fn finish_decode(r: Seq<char>, m: Model) -> Result<Model, ParseFailure> {
    match expect(skip_ws(r), seq!['}']) {
        None => Err(ParseFailure::Shape),
        Some(rr) => if skip_ws(rr).len() == 0 {
            Ok(m)
        } else {
            Err(ParseFailure::Shape)
        },
    }
}

/// The optional description field: absent, `null`, or a string.
pub open spec fn dec_description(
    r: Seq<char>,
    states: Seq<Seq<char>>,
    alphabet: Seq<char>,
    transitions: Seq<((Seq<char>, char), Seq<char>)>,
    start: Seq<char>,
    accept: Seq<Seq<char>>,
) -> Result<Model, ParseFailure> {
    let rw = skip_ws(r);
    match expect(rw, seq![',']) {
        None => finish_decode(
            rw,
            Model { states, alphabet, transitions, start, accept, description: None },
        ),
        Some(d0) => match expect(skip_ws(d0), "\"description\""@) {
            None => Err(ParseFailure::Shape),
            Some(d1) => match expect(skip_ws(d1), seq![':']) {
                None => Err(ParseFailure::Shape),
                Some(d2) => {
                    let d3 = skip_ws(d2);
                    match expect(d3, "null"@) {
                        Some(d4) => finish_decode(
                            d4,
                            Model { states, alphabet, transitions, start, accept, description: None },
                        ),
                        None => match parse_string(d3) {
                            None => Err(ParseFailure::Shape),
                            Some((dv, d4)) => finish_decode(
                                d4,
                                Model {
                                    states,
                                    alphabet,
                                    transitions,
                                    start,
                                    accept,
                                    description: Some(dv),
                                },
                            ),
                        },
                    }
                },
            },
        },
    }
}

/// The accept field.
pub open spec fn dec_accept(
    r: Seq<char>,
    states: Seq<Seq<char>>,
    alphabet: Seq<char>,
    transitions: Seq<((Seq<char>, char), Seq<char>)>,
    start: Seq<char>,
) -> Result<Model, ParseFailure> {
    match expect(skip_ws(r), seq![',']) {
        None => Err(ParseFailure::Shape),
        Some(a0) => match expect(skip_ws(a0), "\"accept\""@) {
            None => Err(ParseFailure::Shape),
            Some(a1) => match expect(skip_ws(a1), seq![':']) {
                None => Err(ParseFailure::Shape),
                Some(a2) => match parse_str_list(skip_ws(a2)) {
                    None => Err(ParseFailure::Shape),
                    Some((acc, r2)) => dec_description(
                        r2,
                        states,
                        alphabet,
                        transitions,
                        start,
                        dedup_strs(acc),
                    ),
                },
            },
        },
    }
}

/// The start field.
pub open spec fn dec_start(
    r: Seq<char>,
    states: Seq<Seq<char>>,
    alphabet: Seq<char>,
    transitions: Seq<((Seq<char>, char), Seq<char>)>,
) -> Result<Model, ParseFailure> {
    match expect(skip_ws(r), seq![',']) {
        None => Err(ParseFailure::Shape),
        Some(a0) => match expect(skip_ws(a0), "\"start\""@) {
            None => Err(ParseFailure::Shape),
            Some(a1) => match expect(skip_ws(a1), seq![':']) {
                None => Err(ParseFailure::Shape),
                Some(a2) => match parse_string(skip_ws(a2)) {
                    None => Err(ParseFailure::Shape),
                    Some((st, r2)) => dec_accept(r2, states, alphabet, transitions, st),
                },
            },
        },
    }
}

/// The transitions field.
pub open spec fn dec_transitions(r: Seq<char>, states: Seq<Seq<char>>, alphabet: Seq<char>) -> Result<
    Model,
    ParseFailure,
> {
    match expect(skip_ws(r), seq![',']) {
        None => Err(ParseFailure::Shape),
        Some(a0) => match expect(skip_ws(a0), "\"transitions\""@) {
            None => Err(ParseFailure::Shape),
            Some(a1) => match expect(skip_ws(a1), seq![':']) {
                None => Err(ParseFailure::Shape),
                Some(a2) => match parse_trans(skip_ws(a2)) {
                    Err(e) => Err(e),
                    Ok((es, r2)) => dec_start(r2, states, alphabet, build_trans(es)),
                },
            },
        },
    }
}

/// The alphabet field.
pub open spec fn dec_alphabet(r: Seq<char>, states: Seq<Seq<char>>) -> Result<Model, ParseFailure> {
    match expect(skip_ws(r), seq![',']) {
        None => Err(ParseFailure::Shape),
        Some(a0) => match expect(skip_ws(a0), "\"alphabet\""@) {
            None => Err(ParseFailure::Shape),
            Some(a1) => match expect(skip_ws(a1), seq![':']) {
                None => Err(ParseFailure::Shape),
                Some(a2) => match parse_str_list(skip_ws(a2)) {
                    None => Err(ParseFailure::Shape),
                    Some((als, r2)) => match as_chars(als) {
                        None => Err(ParseFailure::Shape),
                        Some(cs) => dec_transitions(r2, states, dedup_chars(cs)),
                    },
                },
            },
        },
    }
}

/// Decodes the whole document: the fields in order — states, alphabet,
/// transitions, start, accept, and optionally description — then the end of
/// the text.
pub open spec fn spec_decode(s: Seq<char>) -> Result<Model, ParseFailure> {
    match expect(skip_ws(s), seq!['{']) {
        None => Err(ParseFailure::Shape),
        Some(r0) => match expect(skip_ws(r0), "\"states\""@) {
            None => Err(ParseFailure::Shape),
            Some(r1) => match expect(skip_ws(r1), seq![':']) {
                None => Err(ParseFailure::Shape),
                Some(r2) => match parse_str_list(skip_ws(r2)) {
                    None => Err(ParseFailure::Shape),
                    Some((sts, r3)) => dec_alphabet(r3, dedup_strs(sts)),
                },
            },
        },
    }
}

/// Encodes the whole document, in the fixed field order the decoder reads.
pub open spec fn spec_encode(m: Model) -> Seq<char> {
    seq!['{'] + "\"states\""@ + seq![':'] + enc_str_list(m.states) + seq![','] + "\"alphabet\""@
        + seq![':'] + enc_char_list(m.alphabet) + seq![','] + "\"transitions\""@ + seq![':']
        + enc_trans(m.transitions) + seq![','] + "\"start\""@ + seq![':'] + enc_str(m.start)
        + seq![','] + "\"accept\""@ + seq![':'] + enc_str_list(m.accept) + seq![',']
        + "\"description\""@ + seq![':'] + (match m.description {
        None => "null"@,
        Some(d) => enc_str(d),
    }) + seq!['}']
}

/// Every transition key's state name can survive the canonical key format:
/// it is non-empty and holds no ':' separator.
pub open spec fn key_states_encodable(m: Model) -> bool {
    forall|i: int|
        0 <= i < m.transitions.len() ==> {
            let key = (#[trigger] m.transitions[i]).0;
            key.0.len() > 0 && (forall|x: int| 0 <= x < key.0.len() ==> key.0[x] != ':')
        }
}

proof fn lemma_stage_top(states: Seq<Seq<char>>, tail: Seq<char>)
    requires
        crate::model::distinct_seq(states),
        tail.len() > 0,
        tail[0] == ',',
    ensures
        spec_decode(seq!['{'] + "\"states\""@ + seq![':'] + enc_str_list(states) + tail)
            == dec_alphabet(tail, states),
{
    reveal_strlit("\"states\"");
    let s = seq!['{'] + "\"states\""@ + seq![':'] + enc_str_list(states) + tail;
    let r1 = "\"states\""@ + seq![':'] + enc_str_list(states) + tail;
    let r2 = seq![':'] + enc_str_list(states) + tail;
    let r3 = enc_str_list(states) + tail;
    assert(s =~= seq!['{'] + r1);
    assert(!is_ws(s[0]));
    lemma_skip_ws_nonws(s);
    lemma_expect_prefix(seq!['{'], r1);
    assert(r1 =~= "\"states\""@ + r2);
    assert(r1[0] == '"');
    lemma_skip_ws_nonws(r1);
    lemma_expect_prefix("\"states\""@, r2);
    assert(r2 =~= seq![':'] + r3);
    assert(r2[0] == ':');
    lemma_skip_ws_nonws(r2);
    lemma_expect_prefix(seq![':'], r3);
    assert(r3[0] == '[');
    lemma_skip_ws_nonws(r3);
    lemma_parse_enc_str_list(states, tail);
    lemma_dedup_strs_id(states);
}

proof fn lemma_stage_alphabet(states: Seq<Seq<char>>, alphabet: Seq<char>, tail: Seq<char>)
    requires
        crate::model::distinct_seq(alphabet),
        tail.len() > 0,
        tail[0] == ',',
    ensures
        dec_alphabet(seq![','] + "\"alphabet\""@ + seq![':'] + enc_char_list(alphabet) + tail, states)
            == dec_transitions(tail, states, alphabet),
{
    reveal_strlit("\"alphabet\"");
    let s = seq![','] + "\"alphabet\""@ + seq![':'] + enc_char_list(alphabet) + tail;
    let r1 = "\"alphabet\""@ + seq![':'] + enc_char_list(alphabet) + tail;
    let r2 = seq![':'] + enc_char_list(alphabet) + tail;
    let r3 = enc_char_list(alphabet) + tail;
    assert(s =~= seq![','] + r1);
    assert(s[0] == ',');
    lemma_skip_ws_nonws(s);
    lemma_expect_prefix(seq![','], r1);
    assert(r1 =~= "\"alphabet\""@ + r2);
    assert(r1[0] == '"');
    lemma_skip_ws_nonws(r1);
    lemma_expect_prefix("\"alphabet\""@, r2);
    assert(r2 =~= seq![':'] + r3);
    assert(r2[0] == ':');
    lemma_skip_ws_nonws(r2);
    lemma_expect_prefix(seq![':'], r3);
    assert(r3[0] == '[');
    lemma_skip_ws_nonws(r3);
    lemma_parse_enc_str_list(singles(alphabet), tail);
    lemma_as_chars_singles(alphabet);
    lemma_dedup_chars_id(alphabet);
}

proof fn lemma_stage_transitions(
    states: Seq<Seq<char>>,
    alphabet: Seq<char>,
    ts: Seq<((Seq<char>, char), Seq<char>)>,
    tail: Seq<char>,
)
    requires
        forall|i: int, j: int|
            0 <= i < j < ts.len() ==> (#[trigger] ts[i]).0 != (#[trigger] ts[j]).0,
        forall|i: int|
            0 <= i < ts.len() ==> {
                let key = (#[trigger] ts[i]).0;
                key.0.len() > 0 && (forall|x: int| 0 <= x < key.0.len() ==> key.0[x] != ':')
            },
        tail.len() > 0,
        tail[0] == ',',
    ensures
        dec_transitions(seq![','] + "\"transitions\""@ + seq![':'] + enc_trans(ts) + tail, states, alphabet)
            == dec_start(tail, states, alphabet, ts),
{
    reveal_strlit("\"transitions\"");
    let s = seq![','] + "\"transitions\""@ + seq![':'] + enc_trans(ts) + tail;
    let r1 = "\"transitions\""@ + seq![':'] + enc_trans(ts) + tail;
    let r2 = seq![':'] + enc_trans(ts) + tail;
    let r3 = enc_trans(ts) + tail;
    assert(s =~= seq![','] + r1);
    assert(s[0] == ',');
    lemma_skip_ws_nonws(s);
    lemma_expect_prefix(seq![','], r1);
    assert(r1 =~= "\"transitions\""@ + r2);
    assert(r1[0] == '"');
    lemma_skip_ws_nonws(r1);
    lemma_expect_prefix("\"transitions\""@, r2);
    assert(r2 =~= seq![':'] + r3);
    assert(r2[0] == ':');
    lemma_skip_ws_nonws(r2);
    lemma_expect_prefix(seq![':'], r3);
    assert(r3[0] == '{');
    lemma_skip_ws_nonws(r3);
    lemma_parse_enc_trans(ts, tail);
    lemma_build_trans_id(ts);
}

proof fn lemma_stage_start(
    states: Seq<Seq<char>>,
    alphabet: Seq<char>,
    ts: Seq<((Seq<char>, char), Seq<char>)>,
    st: Seq<char>,
    tail: Seq<char>,
)
    requires
        tail.len() > 0,
        tail[0] == ',',
    ensures
        dec_start(seq![','] + "\"start\""@ + seq![':'] + enc_str(st) + tail, states, alphabet, ts)
            == dec_accept(tail, states, alphabet, ts, st),
{
    reveal_strlit("\"start\"");
    let s = seq![','] + "\"start\""@ + seq![':'] + enc_str(st) + tail;
    let r1 = "\"start\""@ + seq![':'] + enc_str(st) + tail;
    let r2 = seq![':'] + enc_str(st) + tail;
    let r3 = enc_str(st) + tail;
    assert(s =~= seq![','] + r1);
    assert(s[0] == ',');
    lemma_skip_ws_nonws(s);
    lemma_expect_prefix(seq![','], r1);
    assert(r1 =~= "\"start\""@ + r2);
    assert(r1[0] == '"');
    lemma_skip_ws_nonws(r1);
    lemma_expect_prefix("\"start\""@, r2);
    assert(r2 =~= seq![':'] + r3);
    assert(r2[0] == ':');
    lemma_skip_ws_nonws(r2);
    lemma_expect_prefix(seq![':'], r3);
    assert(r3[0] == '"');
    lemma_skip_ws_nonws(r3);
    lemma_parse_enc_str(st, tail);
}

proof fn lemma_stage_accept(
    states: Seq<Seq<char>>,
    alphabet: Seq<char>,
    ts: Seq<((Seq<char>, char), Seq<char>)>,
    st: Seq<char>,
    acc: Seq<Seq<char>>,
    tail: Seq<char>,
)
    requires
        crate::model::distinct_seq(acc),
        tail.len() > 0,
        tail[0] == ',',
    ensures
        dec_accept(seq![','] + "\"accept\""@ + seq![':'] + enc_str_list(acc) + tail, states, alphabet, ts, st)
            == dec_description(tail, states, alphabet, ts, st, acc),
{
    reveal_strlit("\"accept\"");
    let s = seq![','] + "\"accept\""@ + seq![':'] + enc_str_list(acc) + tail;
    let r1 = "\"accept\""@ + seq![':'] + enc_str_list(acc) + tail;
    let r2 = seq![':'] + enc_str_list(acc) + tail;
    let r3 = enc_str_list(acc) + tail;
    assert(s =~= seq![','] + r1);
    assert(s[0] == ',');
    lemma_skip_ws_nonws(s);
    lemma_expect_prefix(seq![','], r1);
    assert(r1 =~= "\"accept\""@ + r2);
    assert(r1[0] == '"');
    lemma_skip_ws_nonws(r1);
    lemma_expect_prefix("\"accept\""@, r2);
    assert(r2 =~= seq![':'] + r3);
    assert(r2[0] == ':');
    lemma_skip_ws_nonws(r2);
    lemma_expect_prefix(seq![':'], r3);
    assert(r3[0] == '[');
    lemma_skip_ws_nonws(r3);
    lemma_parse_enc_str_list(acc, tail);
    lemma_dedup_strs_id(acc);
}

proof fn lemma_stage_description(
    states: Seq<Seq<char>>,
    alphabet: Seq<char>,
    ts: Seq<((Seq<char>, char), Seq<char>)>,
    st: Seq<char>,
    acc: Seq<Seq<char>>,
    description: Option<Seq<char>>,
)
    ensures
        dec_description(
            seq![','] + "\"description\""@ + seq![':'] + (match description {
                None => "null"@,
                Some(d) => enc_str(d),
            }) + seq!['}'],
            states,
            alphabet,
            ts,
            st,
            acc,
        ) == Ok::<Model, ParseFailure>(
            Model { states, alphabet, transitions: ts, start: st, accept: acc, description },
        ),
{
    reveal_strlit("\"description\"");
    reveal_strlit("null");
    let desc_part: Seq<char> = match description {
        None => "null"@,
        Some(d) => enc_str(d),
    };
    let s = seq![','] + "\"description\""@ + seq![':'] + desc_part + seq!['}'];
    let r1 = "\"description\""@ + seq![':'] + desc_part + seq!['}'];
    let r2 = seq![':'] + desc_part + seq!['}'];
    let r3 = desc_part + seq!['}'];
    assert(s =~= seq![','] + r1);
    assert(s[0] == ',');
    lemma_skip_ws_nonws(s);
    lemma_expect_prefix(seq![','], r1);
    assert(r1 =~= "\"description\""@ + r2);
    assert(r1[0] == '"');
    lemma_skip_ws_nonws(r1);
    lemma_expect_prefix("\"description\""@, r2);
    assert(r2 =~= seq![':'] + r3);
    assert(r2[0] == ':');
    lemma_skip_ws_nonws(r2);
    lemma_expect_prefix(seq![':'], r3);
    match description {
        None => {
            assert(r3 =~= "null"@ + seq!['}']);
            assert(r3[0] == 'n');
            lemma_skip_ws_nonws(r3);
            lemma_expect_prefix("null"@, seq!['}']);
            lemma_finish(
                Model { states, alphabet, transitions: ts, start: st, accept: acc, description },
                seq!['}'],
            );
        },
        Some(d) => {
            assert(r3 =~= enc_str(d) + seq!['}']);
            assert(r3[0] == '"');
            lemma_skip_ws_nonws(r3);
            assert(expect(r3, "null"@) is None) by {
                if r3.len() >= 4 && r3.take(4) == "null"@ {
                    assert(r3.take(4)[0] == r3[0]);
                }
            }
            lemma_parse_enc_str(d, seq!['}']);
            lemma_finish(
                Model { states, alphabet, transitions: ts, start: st, accept: acc, description },
                seq!['}'],
            );
        },
    }
}

/// Encoding and decoding are inverse: a well-formed automaton whose key
/// states fit the canonical key format comes back from its own encoding
/// exactly, and — being valid — passes the validator with no defects.
#[verifier::rlimit(100)]
#[verifier::spinoff_prover]
pub proof fn lemma_encode_decode_validate(m: Model)
    requires
        m.valid(),
        m.wf(),
        key_states_encodable(m),
    ensures
        spec_decode(spec_encode(m)) == Ok::<Model, ParseFailure>(m),
        crate::validator::spec_defects(m).len() == 0,
{
    let desc_part: Seq<char> = match m.description {
        None => "null"@,
        Some(d) => enc_str(d),
    };
    let rest_desc = seq![','] + "\"description\""@ + seq![':'] + desc_part + seq!['}'];
    let rest_accept = seq![','] + "\"accept\""@ + seq![':'] + enc_str_list(m.accept) + rest_desc;
    let rest_start = seq![','] + "\"start\""@ + seq![':'] + enc_str(m.start) + rest_accept;
    let rest_trans = seq![','] + "\"transitions\""@ + seq![':'] + enc_trans(m.transitions)
        + rest_start;
    let rest_alpha = seq![','] + "\"alphabet\""@ + seq![':'] + enc_char_list(m.alphabet)
        + rest_trans;
    let top = seq!['{'] + "\"states\""@ + seq![':'] + enc_str_list(m.states) + rest_alpha;
    assert(spec_encode(m) =~= top);
    assert(rest_alpha[0] == ',');
    assert(rest_trans[0] == ',');
    assert(rest_start[0] == ',');
    assert(rest_accept[0] == ',');
    assert(rest_desc[0] == ',');
    lemma_stage_top(m.states, rest_alpha);
    lemma_stage_alphabet(m.states, m.alphabet, rest_trans);
    lemma_stage_transitions(m.states, m.alphabet, m.transitions, rest_start);
    lemma_stage_start(m.states, m.alphabet, m.transitions, m.start, rest_accept);
    lemma_stage_accept(m.states, m.alphabet, m.transitions, m.start, m.accept, rest_desc);
    lemma_stage_description(
        m.states,
        m.alphabet,
        m.transitions,
        m.start,
        m.accept,
        m.description,
    );
    crate::validator::lemma_defects_empty_iff_valid(m);
}

/// The closing brace followed by nothing decodes to the finished model.
proof fn lemma_finish(m: Model, r: Seq<char>)
    requires
        r =~= seq!['}'],
    ensures
        finish_decode(r, m) == Ok::<Model, ParseFailure>(m),
{
    assert(!is_ws(r[0]));
    lemma_skip_ws_nonws(r);
    lemma_expect_prefix(seq!['}'], Seq::empty());
    assert(r =~= seq!['}'] + Seq::<char>::empty());
    assert(expect(r, seq!['}']) == Some(Seq::<char>::empty()));
    assert(skip_ws(Seq::<char>::empty()).len() == 0);
}

} // verus!

verus! {

// ---------------------------------------------------------------------------
// Executable encoder.
// ---------------------------------------------------------------------------

/// Appends the encoded form of one alphabet symbol.
fn push_enc_char(out: &mut Vec<char>, c: char)
    ensures
        final(out)@ == old(out)@ + enc_str(seq![c]),
{
    out.push('"');
    if c == '"' || c == '\\' {
        out.push('\\');
        out.push(c);
    } else {
        out.push(c);
    }
    out.push('"');
    proof {
        assert(esc_from(seq![c], 1) =~= Seq::<char>::empty());
        assert(esc_from(seq![c], 0) =~= esc1(c));
        assert(out@ =~= old(out)@ + enc_str(seq![c]));
    }
}

/// Appends the encoded items of a string list from index `i` on.
fn push_enc_str_items(out: &mut Vec<char>, l: &Vec<String>, i: usize)
    requires
        i <= l@.len(),
    ensures
        final(out)@ == old(out)@ + enc_str_items(l.deep_view(), i as int),
    decreases l@.len() - i,
{
    if i < l.len() {
        push_enc_str(out, l[i].as_str());
        if i + 1 < l.len() {
            out.push(',');
            push_enc_str_items(out, l, i + 1);
        }
    }
    proof {
        assert(out@ =~= old(out)@ + enc_str_items(l.deep_view(), i as int));
    }
}

/// Appends an encoded string list.
fn push_enc_str_list(out: &mut Vec<char>, l: &Vec<String>)
    ensures
        final(out)@ == old(out)@ + enc_str_list(l.deep_view()),
{
    out.push('[');
    push_enc_str_items(out, l, 0);
    out.push(']');
    proof {
        assert(out@ =~= old(out)@ + enc_str_list(l.deep_view()));
    }
}

/// Appends the encoded items of the alphabet from index `i` on.
fn push_enc_char_items(out: &mut Vec<char>, l: &Vec<char>, i: usize)
    requires
        i <= l@.len(),
    ensures
        final(out)@ == old(out)@ + enc_str_items(singles(l@), i as int),
    decreases l@.len() - i,
{
    if i < l.len() {
        push_enc_char(out, l[i]);
        proof {
            assert(singles(l@)[i as int] == seq![l@[i as int]]);
        }
        if i + 1 < l.len() {
            out.push(',');
            push_enc_char_items(out, l, i + 1);
        }
    }
    proof {
        assert(out@ =~= old(out)@ + enc_str_items(singles(l@), i as int));
    }
}

/// Appends the encoded alphabet list.
fn push_enc_char_list(out: &mut Vec<char>, l: &Vec<char>)
    ensures
        final(out)@ == old(out)@ + enc_char_list(l@),
{
    out.push('[');
    push_enc_char_items(out, l, 0);
    out.push(']');
    proof {
        assert(out@ =~= old(out)@ + enc_char_list(l@));
    }
}

/// Appends the encoded entries of the transitions object from index `i` on.
fn push_enc_trans_items(out: &mut Vec<char>, ts: &Vec<(TransitionKey, String)>, i: usize)
    requires
        i <= ts@.len(),
    ensures
        final(out)@ == old(out)@ + enc_trans_items(
            crate::model::transitions_model(ts@),
            i as int,
        ),
    decreases ts@.len() - i,
{
    let ghost tm = crate::model::transitions_model(ts@);
    if i < ts.len() {
        let ks = {
            let entry = &ts[i];
            entry.0.encode_key()
        };
        push_enc_str(out, ks.as_str());
        out.push(':');
        let tgt = {
            let entry = &ts[i];
            entry.1.clone()
        };
        push_enc_str(out, tgt.as_str());
        proof {
            let e = tm[i as int];
            let k = e.0;
            assert(ks@ == enc_key(k.0, k.1));
            assert(tgt@ == e.1);
        }
        if i + 1 < ts.len() {
            out.push(',');
            push_enc_trans_items(out, ts, i + 1);
        }
    }
    proof {
        assert(out@ =~= old(out)@ + enc_trans_items(tm, i as int));
    }
}

/// Appends the encoded transitions object.
fn push_enc_trans(out: &mut Vec<char>, ts: &Vec<(TransitionKey, String)>)
    ensures
        final(out)@ == old(out)@ + enc_trans(crate::model::transitions_model(ts@)),
{
    out.push('{');
    push_enc_trans_items(out, ts, 0);
    out.push('}');
    proof {
        assert(out@ =~= old(out)@ + enc_trans(crate::model::transitions_model(ts@)));
    }
}

/// Encodes an automaton into the textual format the decoder reads: the
/// fields in fixed order, set ordering as the automaton holds it.
#[verifier::rlimit(100)]
pub fn encode(d: &DFA) -> (r: String)
    ensures
        r@ == spec_encode(d.model()),
{
    let mut out: Vec<char> = Vec::new();
    out.push('{');
    crate::util::push_str_chars(&mut out, "\"states\"");
    out.push(':');
    push_enc_str_list(&mut out, d.states());
    out.push(',');
    crate::util::push_str_chars(&mut out, "\"alphabet\"");
    out.push(':');
    push_enc_char_list(&mut out, d.alphabet());
    out.push(',');
    crate::util::push_str_chars(&mut out, "\"transitions\"");
    out.push(':');
    push_enc_trans(&mut out, d.transitions());
    out.push(',');
    crate::util::push_str_chars(&mut out, "\"start\"");
    out.push(':');
    push_enc_str(&mut out, d.start().as_str());
    out.push(',');
    crate::util::push_str_chars(&mut out, "\"accept\"");
    out.push(':');
    push_enc_str_list(&mut out, d.accept());
    out.push(',');
    crate::util::push_str_chars(&mut out, "\"description\"");
    out.push(':');
    match d.description() {
        Some(ds) => {
            let dd = ds.clone();
            push_enc_str(&mut out, dd.as_str());
        },
        None => {
            crate::util::push_str_chars(&mut out, "null");
        },
    }
    out.push('}');
    proof {
        assert(out@ =~= spec_encode(d.model()));
    }
    crate::util::chars_to_string(&out)
}

} // verus!

verus! {

// ---------------------------------------------------------------------------
// Executable decoder.
// ---------------------------------------------------------------------------

/// The closing brace and the end of the text: the exec side of
/// `finish_decode`.
fn finish_exec(
    v: &Vec<char>,
    i: usize,
    states: Vec<String>,
    alphabet: Vec<char>,
    transitions: Vec<(TransitionKey, String)>,
    start: String,
    accept: Vec<String>,
    description: Option<String>,
) -> (r: Result<DFA, ParseError>)
    requires
        i <= v@.len(),
    ensures
        ({
            let m = Model {
                states: states.deep_view(),
                alphabet: alphabet@,
                transitions: crate::model::transitions_model(transitions@),
                start: start@,
                accept: accept.deep_view(),
                description: match description {
                    Some(d) => Some(d@),
                    None => None,
                },
            };
            match r {
                Ok(d) => finish_decode(v@.skip(i as int), m) == Ok::<Model, ParseFailure>(d.model())
                    && d.model() == m,
                Err(e) => finish_decode(v@.skip(i as int), m) == Err::<Model, ParseFailure>(
                    e.model(),
                ),
            }
        }),
{
    let j = skip_ws_exec(v, i);
    proof {
        lemma_expect_one(v@.skip(j as int), '}');
        if j < v@.len() {
            assert(v@.skip(j as int)[0] == v@[j as int]);
        }
    }
    if !(j < v.len() && v[j] == '}') {
        return Err(ParseError::Malformed);
    }
    proof {
        assert(v@.skip(j as int).drop_first() =~= v@.skip(j + 1 as int));
    }
    let j2 = skip_ws_exec(v, j + 1);
    if j2 < v.len() {
        return Err(ParseError::Malformed);
    }
    proof {
        assert(v@.skip(j2 as int).len() == 0);
    }
    Ok(DFA::new(states, alphabet, transitions, start, accept, description))
}

/// The optional description field: the exec side of `dec_description`.
fn dec_description_exec(
    v: &Vec<char>,
    i: usize,
    states: Vec<String>,
    alphabet: Vec<char>,
    transitions: Vec<(TransitionKey, String)>,
    start: String,
    accept: Vec<String>,
) -> (r: Result<DFA, ParseError>)
    requires
        i <= v@.len(),
    ensures
        ({
            let sd = dec_description(
                v@.skip(i as int),
                states.deep_view(),
                alphabet@,
                crate::model::transitions_model(transitions@),
                start@,
                accept.deep_view(),
            );
            match r {
                Ok(d) => sd == Ok::<Model, ParseFailure>(d.model()),
                Err(e) => sd == Err::<Model, ParseFailure>(e.model()),
            }
        }),
{
    let rw = skip_ws_exec(v, i);
    proof {
        lemma_expect_one(v@.skip(rw as int), ',');
        if rw < v@.len() {
            assert(v@.skip(rw as int)[0] == v@[rw as int]);
        }
    }
    if !(rw < v.len() && v[rw] == ',') {
        return finish_exec(v, rw, states, alphabet, transitions, start, accept, None);
    }
    proof {
        assert(v@.skip(rw as int).drop_first() =~= v@.skip(rw + 1 as int));
    }
    let d0 = skip_ws_exec(v, rw + 1);
    let d1 = match expect_exec(v, d0, "\"description\"") {
        None => {
            return Err(ParseError::Malformed);
        },
        Some(x) => x,
    };
    let d1w = skip_ws_exec(v, d1);
    proof {
        lemma_expect_one(v@.skip(d1w as int), ':');
        if d1w < v@.len() {
            assert(v@.skip(d1w as int)[0] == v@[d1w as int]);
        }
    }
    if !(d1w < v.len() && v[d1w] == ':') {
        return Err(ParseError::Malformed);
    }
    proof {
        assert(v@.skip(d1w as int).drop_first() =~= v@.skip(d1w + 1 as int));
    }
    let d3 = skip_ws_exec(v, d1w + 1);
    match expect_exec(v, d3, "null") {
        Some(d4) => finish_exec(v, d4, states, alphabet, transitions, start, accept, None),
        None => match parse_string_exec(v, d3) {
            None => Err(ParseError::Malformed),
            Some((dv, d4)) => {
                let desc = crate::util::chars_to_string(&dv);
                finish_exec(v, d4, states, alphabet, transitions, start, accept, Some(desc))
            },
        },
    }
}

/// The accept field: the exec side of `dec_accept`.
fn dec_accept_exec(
    v: &Vec<char>,
    i: usize,
    states: Vec<String>,
    alphabet: Vec<char>,
    transitions: Vec<(TransitionKey, String)>,
    start: String,
) -> (r: Result<DFA, ParseError>)
    requires
        i <= v@.len(),
    ensures
        ({
            let sd = dec_accept(
                v@.skip(i as int),
                states.deep_view(),
                alphabet@,
                crate::model::transitions_model(transitions@),
                start@,
            );
            match r {
                Ok(d) => sd == Ok::<Model, ParseFailure>(d.model()),
                Err(e) => sd == Err::<Model, ParseFailure>(e.model()),
            }
        }),
{
    let rw = skip_ws_exec(v, i);
    proof {
        lemma_expect_one(v@.skip(rw as int), ',');
        if rw < v@.len() {
            assert(v@.skip(rw as int)[0] == v@[rw as int]);
        }
    }
    if !(rw < v.len() && v[rw] == ',') {
        return Err(ParseError::Malformed);
    }
    proof {
        assert(v@.skip(rw as int).drop_first() =~= v@.skip(rw + 1 as int));
    }
    let a0 = skip_ws_exec(v, rw + 1);
    let a1 = match expect_exec(v, a0, "\"accept\"") {
        None => {
            return Err(ParseError::Malformed);
        },
        Some(x) => x,
    };
    let a1w = skip_ws_exec(v, a1);
    proof {
        lemma_expect_one(v@.skip(a1w as int), ':');
        if a1w < v@.len() {
            assert(v@.skip(a1w as int)[0] == v@[a1w as int]);
        }
    }
    if !(a1w < v.len() && v[a1w] == ':') {
        return Err(ParseError::Malformed);
    }
    proof {
        assert(v@.skip(a1w as int).drop_first() =~= v@.skip(a1w + 1 as int));
    }
    let a2 = skip_ws_exec(v, a1w + 1);
    match parse_str_list_exec(v, a2) {
        None => Err(ParseError::Malformed),
        Some((acc_raw, r2)) => {
            let accept = dedup_strs_exec(acc_raw);
            dec_description_exec(v, r2, states, alphabet, transitions, start, accept)
        },
    }
}

/// The start field: the exec side of `dec_start`.
fn dec_start_exec(
    v: &Vec<char>,
    i: usize,
    states: Vec<String>,
    alphabet: Vec<char>,
    transitions: Vec<(TransitionKey, String)>,
) -> (r: Result<DFA, ParseError>)
    requires
        i <= v@.len(),
    ensures
        ({
            let sd = dec_start(
                v@.skip(i as int),
                states.deep_view(),
                alphabet@,
                crate::model::transitions_model(transitions@),
            );
            match r {
                Ok(d) => sd == Ok::<Model, ParseFailure>(d.model()),
                Err(e) => sd == Err::<Model, ParseFailure>(e.model()),
            }
        }),
{
    let rw = skip_ws_exec(v, i);
    proof {
        lemma_expect_one(v@.skip(rw as int), ',');
        if rw < v@.len() {
            assert(v@.skip(rw as int)[0] == v@[rw as int]);
        }
    }
    if !(rw < v.len() && v[rw] == ',') {
        return Err(ParseError::Malformed);
    }
    proof {
        assert(v@.skip(rw as int).drop_first() =~= v@.skip(rw + 1 as int));
    }
    let a0 = skip_ws_exec(v, rw + 1);
    let a1 = match expect_exec(v, a0, "\"start\"") {
        None => {
            return Err(ParseError::Malformed);
        },
        Some(x) => x,
    };
    let a1w = skip_ws_exec(v, a1);
    proof {
        lemma_expect_one(v@.skip(a1w as int), ':');
        if a1w < v@.len() {
            assert(v@.skip(a1w as int)[0] == v@[a1w as int]);
        }
    }
    if !(a1w < v.len() && v[a1w] == ':') {
        return Err(ParseError::Malformed);
    }
    proof {
        assert(v@.skip(a1w as int).drop_first() =~= v@.skip(a1w + 1 as int));
    }
    let a2 = skip_ws_exec(v, a1w + 1);
    match parse_string_exec(v, a2) {
        None => Err(ParseError::Malformed),
        Some((stv, r2)) => {
            let start = crate::util::chars_to_string(&stv);
            dec_accept_exec(v, r2, states, alphabet, transitions, start)
        },
    }
}

/// The transitions field: the exec side of `dec_transitions`.
fn dec_transitions_exec(v: &Vec<char>, i: usize, states: Vec<String>, alphabet: Vec<char>) -> (r:
    Result<DFA, ParseError>)
    requires
        i <= v@.len(),
    ensures
        ({
            let sd = dec_transitions(v@.skip(i as int), states.deep_view(), alphabet@);
            match r {
                Ok(d) => sd == Ok::<Model, ParseFailure>(d.model()),
                Err(e) => sd == Err::<Model, ParseFailure>(e.model()),
            }
        }),
{
    let rw = skip_ws_exec(v, i);
    proof {
        lemma_expect_one(v@.skip(rw as int), ',');
        if rw < v@.len() {
            assert(v@.skip(rw as int)[0] == v@[rw as int]);
        }
    }
    if !(rw < v.len() && v[rw] == ',') {
        return Err(ParseError::Malformed);
    }
    proof {
        assert(v@.skip(rw as int).drop_first() =~= v@.skip(rw + 1 as int));
    }
    let a0 = skip_ws_exec(v, rw + 1);
    let a1 = match expect_exec(v, a0, "\"transitions\"") {
        None => {
            return Err(ParseError::Malformed);
        },
        Some(x) => x,
    };
    let a1w = skip_ws_exec(v, a1);
    proof {
        lemma_expect_one(v@.skip(a1w as int), ':');
        if a1w < v@.len() {
            assert(v@.skip(a1w as int)[0] == v@[a1w as int]);
        }
    }
    if !(a1w < v.len() && v[a1w] == ':') {
        return Err(ParseError::Malformed);
    }
    proof {
        assert(v@.skip(a1w as int).drop_first() =~= v@.skip(a1w + 1 as int));
    }
    let a2 = skip_ws_exec(v, a1w + 1);
    match parse_trans_exec(v, a2) {
        Err(e) => Err(e),
        Ok((entries, r2)) => {
            let transitions = build_trans_exec(entries);
            dec_start_exec(v, r2, states, alphabet, transitions)
        },
    }
}

/// The alphabet field: the exec side of `dec_alphabet`.
fn dec_alphabet_exec(v: &Vec<char>, i: usize, states: Vec<String>) -> (r: Result<DFA, ParseError>)
    requires
        i <= v@.len(),
    ensures
        ({
            let sd = dec_alphabet(v@.skip(i as int), states.deep_view());
            match r {
                Ok(d) => sd == Ok::<Model, ParseFailure>(d.model()),
                Err(e) => sd == Err::<Model, ParseFailure>(e.model()),
            }
        }),
{
    let rw = skip_ws_exec(v, i);
    proof {
        lemma_expect_one(v@.skip(rw as int), ',');
        if rw < v@.len() {
            assert(v@.skip(rw as int)[0] == v@[rw as int]);
        }
    }
    if !(rw < v.len() && v[rw] == ',') {
        return Err(ParseError::Malformed);
    }
    proof {
        assert(v@.skip(rw as int).drop_first() =~= v@.skip(rw + 1 as int));
    }
    let a0 = skip_ws_exec(v, rw + 1);
    let a1 = match expect_exec(v, a0, "\"alphabet\"") {
        None => {
            return Err(ParseError::Malformed);
        },
        Some(x) => x,
    };
    let a1w = skip_ws_exec(v, a1);
    proof {
        lemma_expect_one(v@.skip(a1w as int), ':');
        if a1w < v@.len() {
            assert(v@.skip(a1w as int)[0] == v@[a1w as int]);
        }
    }
    if !(a1w < v.len() && v[a1w] == ':') {
        return Err(ParseError::Malformed);
    }
    proof {
        assert(v@.skip(a1w as int).drop_first() =~= v@.skip(a1w + 1 as int));
    }
    let a2 = skip_ws_exec(v, a1w + 1);
    match parse_str_list_exec(v, a2) {
        None => Err(ParseError::Malformed),
        Some((als, r2)) => match as_chars_exec(&als) {
            None => Err(ParseError::Malformed),
            Some(cs) => {
                let alphabet = dedup_chars_exec(cs);
                dec_transitions_exec(v, r2, states, alphabet)
            },
        },
    }
}

/// Decodes the textual representation into an automaton, without checking
/// any cross-field invariant: that is the validator's job. The decoded
/// model is exactly what `spec_decode` reads from the text.
pub fn decode(s: &str) -> (r: Result<DFA, ParseError>)
    ensures
        match r {
            Ok(d) => spec_decode(s@) == Ok::<Model, ParseFailure>(d.model()) && d.model().wf(),
            Err(e) => spec_decode(s@) == Err::<Model, ParseFailure>(e.model()),
        },
{
    proof {
        lemma_decode_wf(s@);
    }
    let v = to_chars(s);
    proof {
        assert(v@.skip(0) =~= v@);
    }
    let i0 = skip_ws_exec(&v, 0);
    proof {
        lemma_expect_one(v@.skip(i0 as int), '{');
        if i0 < v@.len() {
            assert(v@.skip(i0 as int)[0] == v@[i0 as int]);
        }
    }
    if !(i0 < v.len() && v[i0] == '{') {
        return Err(ParseError::Malformed);
    }
    proof {
        assert(v@.skip(i0 as int).drop_first() =~= v@.skip(i0 + 1 as int));
    }
    let i1 = skip_ws_exec(&v, i0 + 1);
    let i2 = match expect_exec(&v, i1, "\"states\"") {
        None => {
            return Err(ParseError::Malformed);
        },
        Some(x) => x,
    };
    let i3 = skip_ws_exec(&v, i2);
    proof {
        lemma_expect_one(v@.skip(i3 as int), ':');
        if i3 < v@.len() {
            assert(v@.skip(i3 as int)[0] == v@[i3 as int]);
        }
    }
    if !(i3 < v.len() && v[i3] == ':') {
        return Err(ParseError::Malformed);
    }
    proof {
        assert(v@.skip(i3 as int).drop_first() =~= v@.skip(i3 + 1 as int));
    }
    let i4 = skip_ws_exec(&v, i3 + 1);
    match parse_str_list_exec(&v, i4) {
        None => Err(ParseError::Malformed),
        Some((sts_raw, i5)) => {
            let states = dedup_strs_exec(sts_raw);
            dec_alphabet_exec(&v, i5, states)
        },
    }
}

/// How reading a description can fail as a whole: a syntax failure of the
/// codec, or the validator's full list of structural defects.
#[derive(Debug, PartialEq, Eq)]
pub enum DfaError {
    /// The text could not be read at all.
    Parse(ParseError),
    /// The text decoded, but the automaton violates structural invariants.
    Invalid(Vec<crate::validator::Defect>),
}

impl DFA {
    /// Reads an automaton from its textual representation and validates it:
    /// a syntax failure is fatal and immediate, while structural defects
    /// come back collected in full.
    pub fn de_json(text: &str) -> (r: Result<DFA, DfaError>)
        ensures
            match r {
                Ok(d) => spec_decode(text@) == Ok::<Model, ParseFailure>(d.model())
                    && d.model().valid() && d.model().wf(),
                Err(DfaError::Parse(e)) => spec_decode(text@) == Err::<Model, ParseFailure>(
                    e.model(),
                ),
                Err(DfaError::Invalid(l)) => (spec_decode(text@) matches Ok(m) && !m.valid()
                    && crate::validator::defect_models(l@) == crate::validator::spec_defects(m)
                    && l@.len() > 0),
            },
    {
        match decode(text) {
            Err(e) => Err(DfaError::Parse(e)),
            Ok(d) => match d.validate() {
                Ok(d2) => Ok(d2),
                Err(l) => Err(DfaError::Invalid(l)),
            },
        }
    }
}

} // verus!

verus! {

// ---------------------------------------------------------------------------
// A decoded automaton is well formed: the set-semantics passes leave no
// duplicate states, symbols, accept states or transition keys behind.
// ---------------------------------------------------------------------------

proof fn lemma_dedup_strs_subset(l: Seq<Seq<char>>, x: Seq<char>)
    ensures
        dedup_strs(l).contains(x) ==> l.contains(x),
    decreases l.len(),
{
    if l.len() > 0 {
        lemma_dedup_strs_subset(l.drop_last(), x);
        if dedup_strs(l).contains(x) {
            if l.drop_last().contains(l.last()) {
                if l.drop_last().contains(x) {
                    let i = choose|i: int| 0 <= i < l.drop_last().len() && l.drop_last()[i] == x;
                    assert(l[i] == x);
                }
            } else {
                let d = dedup_strs(l.drop_last());
                let j = choose|j: int| 0 <= j < d.push(l.last()).len() && d.push(l.last())[j] == x;
                if j < d.len() {
                    assert(d[j] == x);
                    if l.drop_last().contains(x) {
                        let i = choose|i: int|
                            0 <= i < l.drop_last().len() && l.drop_last()[i] == x;
                        assert(l[i] == x);
                    }
                } else {
                    assert(l[l.len() - 1] == x);
                }
            }
        }
    }
}

proof fn lemma_dedup_strs_distinct(l: Seq<Seq<char>>)
    ensures
        crate::model::distinct_seq(dedup_strs(l)),
    decreases l.len(),
{
    if l.len() > 0 {
        lemma_dedup_strs_distinct(l.drop_last());
        if !l.drop_last().contains(l.last()) {
            let d = dedup_strs(l.drop_last());
            lemma_dedup_strs_subset(l.drop_last(), l.last());
            assert(!d.contains(l.last()));
            assert forall|i: int, j: int|
                0 <= i < j < d.push(l.last()).len() implies d.push(l.last())[i] != d.push(
                l.last(),
            )[j] by {
                if j < d.len() {
                    assert(d.push(l.last())[i] == d[i]);
                    assert(d.push(l.last())[j] == d[j]);
                } else {
                    assert(d.push(l.last())[j] == l.last());
                    assert(d.push(l.last())[i] == d[i]);
                    assert(d.contains(d[i]));
                }
            }
        }
    }
}

proof fn lemma_dedup_chars_subset(l: Seq<char>, x: char)
    ensures
        dedup_chars(l).contains(x) ==> l.contains(x),
    decreases l.len(),
{
    if l.len() > 0 {
        lemma_dedup_chars_subset(l.drop_last(), x);
        if dedup_chars(l).contains(x) {
            if l.drop_last().contains(l.last()) {
                if l.drop_last().contains(x) {
                    let i = choose|i: int| 0 <= i < l.drop_last().len() && l.drop_last()[i] == x;
                    assert(l[i] == x);
                }
            } else {
                let d = dedup_chars(l.drop_last());
                let j = choose|j: int| 0 <= j < d.push(l.last()).len() && d.push(l.last())[j] == x;
                if j < d.len() {
                    assert(d[j] == x);
                    if l.drop_last().contains(x) {
                        let i = choose|i: int|
                            0 <= i < l.drop_last().len() && l.drop_last()[i] == x;
                        assert(l[i] == x);
                    }
                } else {
                    assert(l[l.len() - 1] == x);
                }
            }
        }
    }
}

proof fn lemma_dedup_chars_distinct(l: Seq<char>)
    ensures
        crate::model::distinct_seq(dedup_chars(l)),
    decreases l.len(),
{
    if l.len() > 0 {
        lemma_dedup_chars_distinct(l.drop_last());
        if !l.drop_last().contains(l.last()) {
            let d = dedup_chars(l.drop_last());
            lemma_dedup_chars_subset(l.drop_last(), l.last());
            assert(!d.contains(l.last()));
            assert forall|i: int, j: int|
                0 <= i < j < d.push(l.last()).len() implies d.push(l.last())[i] != d.push(
                l.last(),
            )[j] by {
                if j < d.len() {
                    assert(d.push(l.last())[i] == d[i]);
                    assert(d.push(l.last())[j] == d[j]);
                } else {
                    assert(d.push(l.last())[j] == l.last());
                    assert(d.push(l.last())[i] == d[i]);
                    assert(d.contains(d[i]));
                }
            }
        }
    }
}

/// No key occurs twice in the table.
pub open spec fn keys_distinct(ts: Seq<((Seq<char>, char), Seq<char>)>) -> bool {
    forall|i: int, j: int| 0 <= i < j < ts.len() ==> (#[trigger] ts[i]).0 != (#[trigger] ts[j]).0
}

proof fn lemma_build_trans_keys_distinct(es: Seq<((Seq<char>, char), Seq<char>)>)
    ensures
        keys_distinct(build_trans(es)),
    decreases es.len(),
{
    if es.len() > 0 {
        lemma_build_trans_keys_distinct(es.drop_last());
        let b = build_trans(es.drop_last());
        let e = es.last();
        let k = e.0;
        crate::model::lemma_key_index(b, k.0, k.1);
        let ki = crate::model::key_index(b, k.0, k.1);
        if ki >= 0 {
            let u = b.update(ki, ((k.0, k.1), e.1));
            assert(b[ki].0 == (k.0, k.1));
            assert forall|i: int, j: int|
                0 <= i < j < u.len() implies (#[trigger] u[i]).0 != (#[trigger] u[j]).0 by {
                assert(u[i].0 == b[i].0);
                assert(u[j].0 == b[j].0);
            }
        } else {
            let u = b.push(((k.0, k.1), e.1));
            assert forall|i: int, j: int|
                0 <= i < j < u.len() implies (#[trigger] u[i]).0 != (#[trigger] u[j]).0 by {
                if j < b.len() {
                    assert(u[i].0 == b[i].0);
                    assert(u[j].0 == b[j].0);
                } else {
                    assert(u[j].0 == (k.0, k.1));
                    assert(u[i].0 == b[i].0);
                }
            }
        }
    }
}

proof fn lemma_finish_wf(r: Seq<char>, m0: Model)
    requires
        m0.wf(),
    ensures
        finish_decode(r, m0) matches Ok(m) ==> m.wf(),
{
}

proof fn lemma_dec_description_wf(
    r: Seq<char>,
    states: Seq<Seq<char>>,
    alphabet: Seq<char>,
    ts: Seq<((Seq<char>, char), Seq<char>)>,
    st: Seq<char>,
    acc: Seq<Seq<char>>,
)
    requires
        crate::model::distinct_seq(states),
        crate::model::distinct_seq(alphabet),
        crate::model::distinct_seq(acc),
        keys_distinct(ts),
    ensures
        dec_description(r, states, alphabet, ts, st, acc) matches Ok(m) ==> m.wf(),
{
    let rw = skip_ws(r);
    match expect(rw, seq![',']) {
        None => {
            lemma_finish_wf(
                rw,
                Model { states, alphabet, transitions: ts, start: st, accept: acc, description: None },
            );
        },
        Some(d0) => {
            match expect(skip_ws(d0), "\"description\""@) {
                None => {},
                Some(d1) => {
                    match expect(skip_ws(d1), seq![':']) {
                        None => {},
                        Some(d2) => {
                            let d3 = skip_ws(d2);
                            match expect(d3, "null"@) {
                                Some(d4) => {
                                    lemma_finish_wf(
                                        d4,
                                        Model {
                                            states,
                                            alphabet,
                                            transitions: ts,
                                            start: st,
                                            accept: acc,
                                            description: None,
                                        },
                                    );
                                },
                                None => {
                                    match parse_string(d3) {
                                        None => {},
                                        Some((dv, d4)) => {
                                            lemma_finish_wf(
                                                d4,
                                                Model {
                                                    states,
                                                    alphabet,
                                                    transitions: ts,
                                                    start: st,
                                                    accept: acc,
                                                    description: Some(dv),
                                                },
                                            );
                                        },
                                    }
                                },
                            }
                        },
                    }
                },
            }
        },
    }
}

proof fn lemma_dec_accept_wf(
    r: Seq<char>,
    states: Seq<Seq<char>>,
    alphabet: Seq<char>,
    ts: Seq<((Seq<char>, char), Seq<char>)>,
    st: Seq<char>,
)
    requires
        crate::model::distinct_seq(states),
        crate::model::distinct_seq(alphabet),
        keys_distinct(ts),
    ensures
        dec_accept(r, states, alphabet, ts, st) matches Ok(m) ==> m.wf(),
{
    match expect(skip_ws(r), seq![',']) {
        None => {},
        Some(a0) => match expect(skip_ws(a0), "\"accept\""@) {
            None => {},
            Some(a1) => match expect(skip_ws(a1), seq![':']) {
                None => {},
                Some(a2) => match parse_str_list(skip_ws(a2)) {
                    None => {},
                    Some((acc, r2)) => {
                        lemma_dedup_strs_distinct(acc);
                        lemma_dec_description_wf(r2, states, alphabet, ts, st, dedup_strs(acc));
                    },
                },
            },
        },
    }
}

proof fn lemma_dec_start_wf(
    r: Seq<char>,
    states: Seq<Seq<char>>,
    alphabet: Seq<char>,
    ts: Seq<((Seq<char>, char), Seq<char>)>,
)
    requires
        crate::model::distinct_seq(states),
        crate::model::distinct_seq(alphabet),
        keys_distinct(ts),
    ensures
        dec_start(r, states, alphabet, ts) matches Ok(m) ==> m.wf(),
{
    match expect(skip_ws(r), seq![',']) {
        None => {},
        Some(a0) => match expect(skip_ws(a0), "\"start\""@) {
            None => {},
            Some(a1) => match expect(skip_ws(a1), seq![':']) {
                None => {},
                Some(a2) => match parse_string(skip_ws(a2)) {
                    None => {},
                    Some((st, r2)) => {
                        lemma_dec_accept_wf(r2, states, alphabet, ts, st);
                    },
                },
            },
        },
    }
}

proof fn lemma_dec_transitions_wf(r: Seq<char>, states: Seq<Seq<char>>, alphabet: Seq<char>)
    requires
        crate::model::distinct_seq(states),
        crate::model::distinct_seq(alphabet),
    ensures
        dec_transitions(r, states, alphabet) matches Ok(m) ==> m.wf(),
{
    match expect(skip_ws(r), seq![',']) {
        None => {},
        Some(a0) => match expect(skip_ws(a0), "\"transitions\""@) {
            None => {},
            Some(a1) => match expect(skip_ws(a1), seq![':']) {
                None => {},
                Some(a2) => match parse_trans(skip_ws(a2)) {
                    Err(_) => {},
                    Ok((es, r2)) => {
                        lemma_build_trans_keys_distinct(es);
                        lemma_dec_start_wf(r2, states, alphabet, build_trans(es));
                    },
                },
            },
        },
    }
}

proof fn lemma_dec_alphabet_wf(r: Seq<char>, states: Seq<Seq<char>>)
    requires
        crate::model::distinct_seq(states),
    ensures
        dec_alphabet(r, states) matches Ok(m) ==> m.wf(),
{
    match expect(skip_ws(r), seq![',']) {
        None => {},
        Some(a0) => match expect(skip_ws(a0), "\"alphabet\""@) {
            None => {},
            Some(a1) => match expect(skip_ws(a1), seq![':']) {
                None => {},
                Some(a2) => match parse_str_list(skip_ws(a2)) {
                    None => {},
                    Some((als, r2)) => match as_chars(als) {
                        None => {},
                        Some(cs) => {
                            lemma_dedup_chars_distinct(cs);
                            lemma_dec_transitions_wf(r2, states, dedup_chars(cs));
                        },
                    },
                },
            },
        },
    }
}

/// Whatever text decodes, the automaton it decodes to is well formed: the
/// states, alphabet and accept states hold no duplicates, and no transition
/// key occurs twice.
pub proof fn lemma_decode_wf(s: Seq<char>)
    ensures
        spec_decode(s) matches Ok(m) ==> m.wf(),
{
    match expect(skip_ws(s), seq!['{']) {
        None => {},
        Some(r0) => match expect(skip_ws(r0), "\"states\""@) {
            None => {},
            Some(r1) => match expect(skip_ws(r1), seq![':']) {
                None => {},
                Some(r2) => match parse_str_list(skip_ws(r2)) {
                    None => {},
                    Some((sts, r3)) => {
                        lemma_dedup_strs_distinct(sts);
                        lemma_dec_alphabet_wf(r3, dedup_strs(sts));
                    },
                },
            },
        },
    }
}

} // verus!
