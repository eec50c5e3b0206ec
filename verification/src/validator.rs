use vstd::prelude::*;
use crate::model::{DFA, Model, contains_char, contains_str, lookup_target};
use crate::util::{chars_to_string, push_str_chars};

verus! {

/// The mathematical value of a structural defect.
pub ghost enum DefectModel {
    StartUnknown(Seq<char>),
    AcceptUnknown(Seq<char>),
    SourceUnknown(Seq<char>, char),
    SymbolUnknown(Seq<char>, char),
    TargetUnknown(Seq<char>, char, Seq<char>),
    MissingTransition(Seq<char>, char),
}

/// One structural invariant violation found by the validator.
#[derive(Debug, PartialEq, Eq)]
pub enum Defect {
    /// The start state is not a declared state.
    StartUnknown(String),
    /// An accept state is not a declared state.
    AcceptUnknown(String),
    /// A transition's source state is not a declared state.
    SourceUnknown(String, char),
    /// A transition's symbol is not in the alphabet.
    SymbolUnknown(String, char),
    /// A transition's target state is not a declared state.
    TargetUnknown(String, char, String),
    /// A (state, symbol) pair has no transition: the function is not total.
    MissingTransition(String, char),
}

impl Defect {
    /// The mathematical value of the defect.
    pub open spec fn model(self) -> DefectModel {
        match self {
            Defect::StartUnknown(s) => DefectModel::StartUnknown(s@),
            Defect::AcceptUnknown(s) => DefectModel::AcceptUnknown(s@),
            Defect::SourceUnknown(q, c) => DefectModel::SourceUnknown(q@, c),
            Defect::SymbolUnknown(q, c) => DefectModel::SymbolUnknown(q@, c),
            Defect::TargetUnknown(q, c, t) => DefectModel::TargetUnknown(q@, c, t@),
            Defect::MissingTransition(q, c) => DefectModel::MissingTransition(q@, c),
        }
    }
}

/// The message that describes a defect.
pub open spec fn defect_message(d: DefectModel) -> Seq<char> {
    match d {
        DefectModel::StartUnknown(s) => "start state '"@ + s + "' is not a declared state"@,
        DefectModel::AcceptUnknown(s) => "accept state '"@ + s + "' is not a declared state"@,
        DefectModel::SourceUnknown(q, c) => "transition '"@ + q + ":"@ + seq![c]
            + "' has an unknown source state"@,
        DefectModel::SymbolUnknown(q, c) => "transition '"@ + q + ":"@ + seq![c]
            + "' has an unknown symbol"@,
        DefectModel::TargetUnknown(q, c, t) => "transition '"@ + q + ":"@ + seq![c]
            + "' has an unknown target state '"@ + t + "'"@,
        DefectModel::MissingTransition(q, c) => "missing transition for '"@ + q + ":"@ + seq![c]
            + "'"@,
    }
}

/// The models of a list of defects.
pub open spec fn defect_models(l: Seq<Defect>) -> Seq<DefectModel> {
    l.map_values(|d: Defect| d.model())
}

proof fn lemma_push_model(l_old: Seq<Defect>, l_new: Seq<Defect>, d: Defect)
    requires
        l_new == l_old.push(d),
    ensures
        defect_models(l_new) =~= defect_models(l_old).push(d.model()),
{
    assert forall|i: int| 0 <= i < l_new.len() implies defect_models(l_new)[i] == defect_models(
        l_old,
    ).push(d.model())[i] by {
        if i < l_old.len() {
            assert(l_new[i] == l_old[i]);
        } else {
            assert(l_new[i] == d);
        }
    }
}

impl Defect {
    /// Renders the human-readable message of the defect.
    pub fn describe(&self) -> (r: String)
        ensures
            r@ == defect_message(self.model()),
    {
        let mut out: Vec<char> = Vec::new();
        match self {
            Defect::StartUnknown(s) => {
                push_str_chars(&mut out, "start state '");
                push_str_chars(&mut out, s.as_str());
                push_str_chars(&mut out, "' is not a declared state");
            },
            Defect::AcceptUnknown(s) => {
                push_str_chars(&mut out, "accept state '");
                push_str_chars(&mut out, s.as_str());
                push_str_chars(&mut out, "' is not a declared state");
            },
            Defect::SourceUnknown(q, c) => {
                push_str_chars(&mut out, "transition '");
                push_str_chars(&mut out, q.as_str());
                push_str_chars(&mut out, ":");
                out.push(*c);
                push_str_chars(&mut out, "' has an unknown source state");
            },
            Defect::SymbolUnknown(q, c) => {
                push_str_chars(&mut out, "transition '");
                push_str_chars(&mut out, q.as_str());
                push_str_chars(&mut out, ":");
                out.push(*c);
                push_str_chars(&mut out, "' has an unknown symbol");
            },
            Defect::TargetUnknown(q, c, t) => {
                push_str_chars(&mut out, "transition '");
                push_str_chars(&mut out, q.as_str());
                push_str_chars(&mut out, ":");
                out.push(*c);
                push_str_chars(&mut out, "' has an unknown target state '");
                push_str_chars(&mut out, t.as_str());
                push_str_chars(&mut out, "'");
            },
            Defect::MissingTransition(q, c) => {
                push_str_chars(&mut out, "missing transition for '");
                push_str_chars(&mut out, q.as_str());
                push_str_chars(&mut out, ":");
                out.push(*c);
                push_str_chars(&mut out, "'");
            },
        }
        proof {
            assert(out@ =~= defect_message(self.model()));
        }
        chars_to_string(&out)
    }
}

/// The start-state check's defects.
pub open spec fn start_defects(m: Model) -> Seq<DefectModel> {
    if m.states.contains(m.start) {
        Seq::empty()
    } else {
        seq![DefectModel::StartUnknown(m.start)]
    }
}

/// The defect of one accept state, if it is undeclared.
pub open spec fn accept_defect(m: Model, s: Seq<char>) -> Seq<DefectModel> {
    if m.states.contains(s) {
        Seq::empty()
    } else {
        seq![DefectModel::AcceptUnknown(s)]
    }
}

/// The accept-state check's defects over the first `n` accept states.
pub open spec fn accept_defects_upto(m: Model, n: int) -> Seq<DefectModel>
    decreases n,
{
    if n <= 0 {
        Seq::empty()
    } else {
        accept_defects_upto(m, n - 1) + accept_defect(m, m.accept[n - 1])
    }
}

/// The defect of one transition entry's source state, if it is undeclared.
pub open spec fn source_defect(m: Model, q: Seq<char>, c: char) -> Seq<DefectModel> {
    if m.states.contains(q) {
        Seq::empty()
    } else {
        seq![DefectModel::SourceUnknown(q, c)]
    }
}

/// The defect of one transition entry's symbol, if it is not in the alphabet.
pub open spec fn symbol_defect(m: Model, q: Seq<char>, c: char) -> Seq<DefectModel> {
    if m.alphabet.contains(c) {
        Seq::empty()
    } else {
        seq![DefectModel::SymbolUnknown(q, c)]
    }
}

/// The defect of one transition entry's target state, if it is undeclared.
pub open spec fn target_defect(m: Model, q: Seq<char>, c: char, t: Seq<char>) -> Seq<DefectModel> {
    if m.states.contains(t) {
        Seq::empty()
    } else {
        seq![DefectModel::TargetUnknown(q, c, t)]
    }
}

/// The defects of one transition entry.
pub open spec fn entry_defects(m: Model, e: ((Seq<char>, char), Seq<char>)) -> Seq<DefectModel> {
    let k = e.0;
    source_defect(m, k.0, k.1) + symbol_defect(m, k.0, k.1) + target_defect(m, k.0, k.1, e.1)
}

/// The transition-entry check's defects over the first `n` entries.
pub open spec fn trans_defects_upto(m: Model, n: int) -> Seq<DefectModel>
    decreases n,
{
    if n <= 0 {
        Seq::empty()
    } else {
        trans_defects_upto(m, n - 1) + entry_defects(m, m.transitions[n - 1])
    }
}

/// The defect of one (state, symbol) pair, if its transition is missing.
pub open spec fn missing_defect(m: Model, q: Seq<char>, c: char) -> Seq<DefectModel> {
    if m.has_transition(q, c) {
        Seq::empty()
    } else {
        seq![DefectModel::MissingTransition(q, c)]
    }
}

/// The totality check's defects for state `q` over the first `n` symbols.
pub open spec fn row_defects_upto(m: Model, q: Seq<char>, n: int) -> Seq<DefectModel>
    decreases n,
{
    if n <= 0 {
        Seq::empty()
    } else {
        row_defects_upto(m, q, n - 1) + missing_defect(m, q, m.alphabet[n - 1])
    }
}

/// The totality check's defects over the first `n` states.
pub open spec fn totality_defects_upto(m: Model, n: int) -> Seq<DefectModel>
    decreases n,
{
    if n <= 0 {
        Seq::empty()
    } else {
        totality_defects_upto(m, n - 1) + row_defects_upto(m, m.states[n - 1], m.alphabet.len() as int)
    }
}

/// All the defects of a model, in the order the validator reports them:
/// start state, accept states, transition entries, totality.
pub open spec fn spec_defects(m: Model) -> Seq<DefectModel> {
    start_defects(m) + accept_defects_upto(m, m.accept.len() as int) + trans_defects_upto(
        m,
        m.transitions.len() as int,
    ) + totality_defects_upto(m, m.states.len() as int)
}

proof fn lemma_accept_defects_iff(m: Model, n: int)
    requires
        0 <= n <= m.accept.len(),
    ensures
        accept_defects_upto(m, n).len() == 0 <==> (forall|i: int|
            0 <= i < n ==> m.states.contains(#[trigger] m.accept[i])),
    decreases n,
{
    if n > 0 {
        lemma_accept_defects_iff(m, n - 1);
    }
}

proof fn lemma_snoc<T>(a: Seq<T>, x: T)
    ensures
        a + seq![x] =~= a.push(x),
{
}

proof fn lemma_concat_push<T>(a: Seq<T>, b: Seq<T>, x: T)
    ensures
        (a + b).push(x) =~= a + b.push(x),
{
}

proof fn lemma_concat_empty<T>(a: Seq<T>)
    ensures
        a + Seq::<T>::empty() =~= a,
{
}

proof fn lemma_row_step(m: Model, q: Seq<char>, n: int)
    requires
        0 < n,
    ensures
        row_defects_upto(m, q, n) == row_defects_upto(m, q, n - 1) + missing_defect(
            m,
            q,
            m.alphabet[n - 1],
        ),
{
}

proof fn lemma_missing_defect_cases(m: Model, q: Seq<char>, c: char)
    ensures
        m.has_transition(q, c) ==> missing_defect(m, q, c) =~= Seq::<DefectModel>::empty(),
        !m.has_transition(q, c) ==> missing_defect(m, q, c) =~= seq![
            DefectModel::MissingTransition(q, c),
        ],
{
    if m.has_transition(q, c) {
        assert(missing_defect(m, q, c) =~= Seq::<DefectModel>::empty());
    } else {
        assert(missing_defect(m, q, c) =~= seq![DefectModel::MissingTransition(q, c)]);
    }
}

proof fn lemma_missing_defect_len(m: Model, q: Seq<char>, c: char)
    ensures
        m.has_transition(q, c) ==> missing_defect(m, q, c).len() == 0,
        !m.has_transition(q, c) ==> missing_defect(m, q, c).len() == 1,
{
    if m.has_transition(q, c) {
        assert(missing_defect(m, q, c).len() == 0);
    } else {
        assert(missing_defect(m, q, c).len() == 1);
    }
}

proof fn lemma_entry_defect_lens(m: Model, q: Seq<char>, c: char, t: Seq<char>)
    ensures
        m.states.contains(q) ==> source_defect(m, q, c).len() == 0,
        !m.states.contains(q) ==> source_defect(m, q, c).len() == 1,
        m.alphabet.contains(c) ==> symbol_defect(m, q, c).len() == 0,
        !m.alphabet.contains(c) ==> symbol_defect(m, q, c).len() == 1,
        m.states.contains(t) ==> target_defect(m, q, c, t).len() == 0,
        !m.states.contains(t) ==> target_defect(m, q, c, t).len() == 1,
{
    if m.states.contains(q) {
        assert(source_defect(m, q, c).len() == 0);
    } else {
        assert(source_defect(m, q, c).len() == 1);
    }
    if m.alphabet.contains(c) {
        assert(symbol_defect(m, q, c).len() == 0);
    } else {
        assert(symbol_defect(m, q, c).len() == 1);
    }
    if m.states.contains(t) {
        assert(target_defect(m, q, c, t).len() == 0);
    } else {
        assert(target_defect(m, q, c, t).len() == 1);
    }
}

proof fn lemma_trans_defects_iff(m: Model, n: int)
    requires
        0 <= n <= m.transitions.len(),
    ensures
        trans_defects_upto(m, n).len() == 0 <==> (forall|i: int|
            0 <= i < n ==> {
                let e = #[trigger] m.transitions[i];
                let k = e.0;
                &&& m.states.contains(k.0)
                &&& m.alphabet.contains(k.1)
                &&& m.states.contains(e.1)
            }),
    decreases n,
{
    if n > 0 {
        lemma_trans_defects_iff(m, n - 1);
        let e = m.transitions[n - 1];
        let k = e.0;
        assert(trans_defects_upto(m, n).len() == trans_defects_upto(m, n - 1).len()
            + entry_defects(m, e).len());
        assert(entry_defects(m, e).len() == source_defect(m, k.0, k.1).len() + symbol_defect(
            m,
            k.0,
            k.1,
        ).len() + target_defect(m, k.0, k.1, e.1).len());
        lemma_entry_defect_lens(m, k.0, k.1, e.1);
        if trans_defects_upto(m, n).len() == 0 {
            assert forall|i: int| 0 <= i < n implies {
                let e2 = #[trigger] m.transitions[i];
                let k2 = e2.0;
                &&& m.states.contains(k2.0)
                &&& m.alphabet.contains(k2.1)
                &&& m.states.contains(e2.1)
            } by {
                if i == n - 1 {
                    assert(m.transitions[i] == e);
                }
            }
        }
    }
}

proof fn lemma_row_defects_iff(m: Model, q: Seq<char>, n: int)
    requires
        0 <= n <= m.alphabet.len(),
    ensures
        row_defects_upto(m, q, n).len() == 0 <==> (forall|j: int|
            0 <= j < n ==> m.has_transition(q, #[trigger] m.alphabet[j])),
    decreases n,
{
    if n > 0 {
        lemma_row_defects_iff(m, q, n - 1);
        let c = m.alphabet[n - 1];
        assert(row_defects_upto(m, q, n).len() == row_defects_upto(m, q, n - 1).len()
            + missing_defect(m, q, c).len());
        lemma_missing_defect_len(m, q, c);
        if row_defects_upto(m, q, n).len() == 0 {
            assert forall|j: int| 0 <= j < n implies m.has_transition(
                q,
                #[trigger] m.alphabet[j],
            ) by {
                if j == n - 1 {
                }
            }
        }
    }
}

proof fn lemma_totality_defects_iff(m: Model, n: int)
    requires
        0 <= n <= m.states.len(),
    ensures
        totality_defects_upto(m, n).len() == 0 <==> (forall|i: int, j: int|
            0 <= i < n && 0 <= j < m.alphabet.len() ==> m.has_transition(
                #[trigger] m.states[i],
                #[trigger] m.alphabet[j],
            )),
    decreases n,
{
    if n > 0 {
        lemma_totality_defects_iff(m, n - 1);
        lemma_row_defects_iff(m, m.states[n - 1], m.alphabet.len() as int);
    }
}

/// The validator's report is exhaustive and exact: the defect list is empty
/// exactly when the model satisfies the structural invariants.
pub proof fn lemma_defects_empty_iff_valid(m: Model)
    ensures
        spec_defects(m).len() == 0 <==> m.valid(),
{
    lemma_accept_defects_iff(m, m.accept.len() as int);
    lemma_trans_defects_iff(m, m.transitions.len() as int);
    lemma_totality_defects_iff(m, m.states.len() as int);
    if spec_defects(m).len() == 0 {
        assert(start_defects(m).len() == 0);
        assert(accept_defects_upto(m, m.accept.len() as int).len() == 0);
        assert(trans_defects_upto(m, m.transitions.len() as int).len() == 0);
        assert(totality_defects_upto(m, m.states.len() as int).len() == 0);
        assert(m.states.contains(m.start));
        assert(m.entries_closed());
        assert forall|q: Seq<char>, c: char|
            m.states.contains(q) && m.alphabet.contains(c) implies #[trigger] m.has_transition(
            q,
            c,
        ) by {
            let i = choose|i: int| 0 <= i < m.states.len() && m.states[i] == q;
            let j = choose|j: int| 0 <= j < m.alphabet.len() && m.alphabet[j] == c;
            assert(m.has_transition(m.states[i], m.alphabet[j]));
        }
        assert(m.valid());
    }
    if m.valid() {
        assert forall|i: int, j: int|
            0 <= i < m.states.len() && 0 <= j < m.alphabet.len() implies m.has_transition(
            #[trigger] m.states[i],
            #[trigger] m.alphabet[j],
        ) by {
            assert(m.states.contains(m.states[i]));
            assert(m.alphabet.contains(m.alphabet[j]));
        }
        assert(start_defects(m).len() == 0);
        assert(accept_defects_upto(m, m.accept.len() as int).len() == 0);
        assert(trans_defects_upto(m, m.transitions.len() as int).len() == 0);
        assert(totality_defects_upto(m, m.states.len() as int).len() == 0);
    }
}

impl DFA {
    /// Checks every structural invariant, collecting every violation rather
    /// than stopping at the first. An automaton with an empty defect list is
    /// returned unchanged, confirmed valid; otherwise the full defect list
    /// comes back, in checking order.
    pub fn validate(self) -> (r: Result<DFA, Vec<Defect>>)
        ensures
            match r {
                Ok(d) => self.model().valid() && d == self,
                Err(l) => !self.model().valid() && defect_models(l@) == spec_defects(
                    self.model(),
                ) && l@.len() > 0,
            },
    {
        let ghost m = self.model();
        let mut defects: Vec<Defect> = Vec::new();

        if !contains_str(&self.states, self.start.as_str()) {
            defects.push(Defect::StartUnknown(self.start.clone()));
        }
        assert(defect_models(defects@) =~= start_defects(m));
        let ghost base1 = start_defects(m);

        let na = self.accept.len();
        let mut i: usize = 0;
        while i < na
            invariant
                i <= na,
                na == self.accept@.len(),
                m == self.model(),
                base1 == start_defects(m),
                defect_models(defects@) =~= base1 + accept_defects_upto(m, i as int),
            decreases na - i,
        {
            let ghost prev = defect_models(defects@);
            if !contains_str(&self.states, self.accept[i].as_str()) {
                let d = Defect::AcceptUnknown(self.accept[i].clone());
                assert(d.model() == DefectModel::AcceptUnknown(m.accept[i as int]));
                defects.push(d);
                assert(defect_models(defects@) =~= prev.push(
                    DefectModel::AcceptUnknown(m.accept[i as int]),
                ));
            }
            assert(defect_models(defects@) =~= base1 + accept_defects_upto(m, i + 1 as int));
            i += 1;
        }
        let ghost base2 = base1 + accept_defects_upto(m, m.accept.len() as int);

        let nt = self.transitions.len();
        let mut t: usize = 0;
        while t < nt
            invariant
                t <= nt,
                nt == self.transitions@.len(),
                m == self.model(),
                base2 == start_defects(m) + accept_defects_upto(m, m.accept.len() as int),
                defect_models(defects@) =~= base2 + trans_defects_upto(m, t as int),
            decreases nt - t,
        {
            let ghost prev = defect_models(defects@);
            let ghost e = m.transitions[t as int];
            let ghost k = e.0;
            let entry = &self.transitions[t];
            let key = &entry.0;
            if !contains_str(&self.states, key.0.as_str()) {
                let d = Defect::SourceUnknown(key.0.clone(), key.1);
                assert(d.model() == DefectModel::SourceUnknown(k.0, k.1));
                defects.push(d);
            }
            if !contains_char(&self.alphabet, key.1) {
                let d = Defect::SymbolUnknown(key.0.clone(), key.1);
                assert(d.model() == DefectModel::SymbolUnknown(k.0, k.1));
                defects.push(d);
            }
            if !contains_str(&self.states, entry.1.as_str()) {
                let d = Defect::TargetUnknown(key.0.clone(), key.1, entry.1.clone());
                assert(d.model() == DefectModel::TargetUnknown(k.0, k.1, e.1));
                defects.push(d);
            }
            assert(defect_models(defects@) =~= prev + entry_defects(m, e));
            assert(defect_models(defects@) =~= base2 + trans_defects_upto(m, t + 1 as int));
            t += 1;
        }
        let ghost base3 = base2 + trans_defects_upto(m, m.transitions.len() as int);

        let ns = self.states.len();
        let nc = self.alphabet.len();
        let mut s: usize = 0;
        while s < ns
            invariant
                s <= ns,
                ns == self.states@.len(),
                nc == self.alphabet@.len(),
                m == self.model(),
                base3 == start_defects(m) + accept_defects_upto(m, m.accept.len() as int)
                    + trans_defects_upto(m, m.transitions.len() as int),
                defect_models(defects@) =~= base3 + totality_defects_upto(m, s as int),
            decreases ns - s,
        {
            let ghost rowbase = defect_models(defects@);
            let ghost q = m.states[s as int];
            let mut j: usize = 0;
            while j < nc
                invariant
                    j <= nc,
                    s < ns,
                    ns == self.states@.len(),
                    nc == self.alphabet@.len(),
                    m == self.model(),
                    q == m.states[s as int],
                    defect_models(defects@) =~= rowbase + row_defects_upto(m, q, j as int),
                decreases nc - j,
            {
                let ghost prev = defects@;
                let ghost c = m.alphabet[j as int];
                proof {
                    lemma_row_step(m, q, j + 1 as int);
                    lemma_missing_defect_cases(m, q, c);
                }
                if lookup_target(&self.transitions, self.states[s].as_str(), self.alphabet[j]).is_none() {
                    assert(!m.has_transition(q, c));
                    let d = Defect::MissingTransition(self.states[s].clone(), self.alphabet[j]);
                    assert(d.model() == DefectModel::MissingTransition(q, c));
                    defects.push(d);
                    proof {
                        lemma_push_model(prev, defects@, d);
                        lemma_snoc(row_defects_upto(m, q, j as int), d.model());
                        lemma_concat_push(rowbase, row_defects_upto(m, q, j as int), d.model());
                        assert(defect_models(defects@) =~= rowbase + row_defects_upto(
                            m,
                            q,
                            j + 1 as int,
                        ));
                    }
                } else {
                    assert(m.has_transition(q, c));
                    proof {
                        lemma_concat_empty(row_defects_upto(m, q, j as int));
                        assert(row_defects_upto(m, q, j + 1 as int) =~= row_defects_upto(
                            m,
                            q,
                            j as int,
                        ));
                        assert(defect_models(defects@) =~= rowbase + row_defects_upto(
                            m,
                            q,
                            j + 1 as int,
                        ));
                    }
                }
                j += 1;
            }
            assert(defect_models(defects@) =~= base3 + totality_defects_upto(m, s + 1 as int));
            s += 1;
        }

        proof {
            assert(defect_models(defects@) =~= spec_defects(m));
            lemma_defects_empty_iff_valid(m);
        }
        if defects.is_empty() {
            assert(spec_defects(m).len() == 0);
            Ok(self)
        } else {
            assert(!m.valid());
            Err(defects)
        }
    }
}

} // verus!
