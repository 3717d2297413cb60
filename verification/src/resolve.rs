//! Name resolution: a local glossary resolves measurement names, falling back
//! to the name itself; the remote translation service is reached by the
//! caller, and only its outcome is judged here.

use vstd::prelude::*;
use crate::errors::Error;
use crate::grammar::{names_of, values_of, SizeDetail, SizeDetails};

verus! {

/// The map a glossary holds: a later entry for an already-seen source label
/// overrides the earlier one, as repeated inserts into a map behave.
pub open spec fn glossary_map(es: Seq<(String, String)>) -> Map<Seq<char>, Seq<char>>
    decreases es.len(),
{
    if es.len() == 0 {
        Map::empty()
    } else {
        glossary_map(es.drop_last()).insert(es.last().0@, es.last().1@)
    }
}

/// What local resolution yields for one name: the glossary's target label
/// when the name is a source label, the name itself otherwise.
pub open spec fn resolve_one(m: Map<Seq<char>, Seq<char>>, n: Seq<char>) -> Seq<char> {
    if m.contains_key(n) {
        m[n]
    } else {
        n
    }
}

/// A source-label to target-label mapping, loaded once and then read-only.
/// It may be empty; local resolution then degrades to pass-through.
pub struct Glossary {
    entries: Vec<(String, String)>,
}

impl View for Glossary {
    type V = Map<Seq<char>, Seq<char>>;

    closed spec fn view(&self) -> Map<Seq<char>, Seq<char>> {
        glossary_map(self.entries@)
    }
}

proof fn lemma_glossary_lookup(es: Seq<(String, String)>, k: Seq<char>, j: int)
    requires
        0 <= j < es.len(),
        es[j].0@ == k,
        forall|i: int| j < i < es.len() ==> #[trigger] es[i].0@ != k,
    ensures
        glossary_map(es).contains_key(k),
        glossary_map(es)[k] == es[j].1@,
    decreases es.len(),
{
    if j < es.len() - 1 {
        assert(forall|i: int| 0 <= i < es.len() - 1 ==> es.drop_last()[i] == es[i]);
        lemma_glossary_lookup(es.drop_last(), k, j);
        assert(es.last().0@ != k);
    }
}

proof fn lemma_glossary_absent(es: Seq<(String, String)>, k: Seq<char>)
    requires
        forall|i: int| 0 <= i < es.len() ==> #[trigger] es[i].0@ != k,
    ensures
        !glossary_map(es).contains_key(k),
    decreases es.len(),
{
    if es.len() > 0 {
        assert(forall|i: int| 0 <= i < es.len() - 1 ==> es.drop_last()[i] == es[i]);
        lemma_glossary_absent(es.drop_last(), k);
    }
}

impl Glossary {
    /// The empty glossary.
    pub fn new() -> (g: Glossary)
        ensures
            g@ == Map::<Seq<char>, Seq<char>>::empty(),
    {
        Glossary { entries: Vec::new() }
    }

    /// Builds a glossary from (source, target) pairs; a later pair with an
    /// already-seen source label overrides the earlier one.
    pub fn from_pairs(pairs: Vec<(String, String)>) -> (g: Glossary)
        ensures
            g@ == glossary_map(pairs@),
    {
        Glossary { entries: pairs }
    }

    /// The target label for `name`, or `name` itself when the glossary has no
    /// entry for it.
    pub fn resolve_name(&self, name: &String) -> (r: String)
        ensures
            r@ == resolve_one(self@, name@),
    {
        let n = self.entries.len();
        let mut i: usize = n;
        while i > 0
            invariant
                i <= n,
                n == self.entries@.len(),
                forall|j: int| i <= j < n ==> #[trigger] self.entries@[j].0@ != name@,
            decreases i,
        {
            i = i - 1;
            if self.entries[i].0 == *name {
                proof {
                    lemma_glossary_lookup(self.entries@, name@, i as int);
                }
                return self.entries[i].1.clone();
            }
        }
        proof {
            lemma_glossary_absent(self.entries@, name@);
        }
        name.clone()
    }
}

/// A client for measurement-name translation: a loaded glossary answers local
/// resolution. Credentials and transport for the remote service stay with the
/// caller; this value never performs input or output.
pub struct TranslateClient {
    pub glossary: Glossary,
}

impl TranslateClient {
    /// A client over an already-loaded glossary.
    pub fn new(glossary: Glossary) -> (c: TranslateClient)
        ensures
            c.glossary@ == glossary@,
    {
        TranslateClient { glossary }
    }

    /// Resolves each input through the glossary, passing unknown names
    /// through unchanged. Total: it never fails.
    pub fn translate_local(&self, inputs: &Vec<String>) -> (r: Result<Vec<String>, Error>)
        ensures
            match r {
                Ok(out) => out@.len() == inputs@.len() && (forall|i: int|
                    0 <= i < inputs@.len() ==> #[trigger] out@[i]@ == resolve_one(
                        self.glossary@,
                        inputs@[i]@,
                    )),
                Err(_) => false,
            },
    {
        let mut out: Vec<String> = Vec::new();
        let mut i: usize = 0;
        while i < inputs.len()
            invariant
                i <= inputs@.len(),
                out@.len() == i,
                forall|k: int|
                    0 <= k < i ==> #[trigger] out@[k]@ == resolve_one(
                        self.glossary@,
                        inputs@[k]@,
                    ),
            decreases inputs@.len() - i,
        {
            out.push(self.glossary.resolve_name(&inputs[i]));
            i = i + 1;
        }
        Ok(out)
    }
}

impl SizeDetails {
    /// A copy whose names are resolved through the client's glossary; the
    /// values are untouched.
    pub fn translate_to_zh(self, translate_client: &TranslateClient) -> (r: Result<
        SizeDetails,
        Error,
    >)
        ensures
            match r {
                Ok(sd) => {
                    &&& sd.spec_values() == self.spec_values()
                    &&& sd.spec_names().len() == self.spec_names().len()
                    &&& forall|i: int|
                        0 <= i < self.spec_names().len() ==> #[trigger] sd.spec_names()[i]
                            == resolve_one(translate_client.glossary@, self.spec_names()[i])
                },
                Err(_) => false,
            },
    {
        let mut rest = self.0;
        let mut out: Vec<SizeDetail> = Vec::new();
        let ghost all = rest@;
        proof {
            assert(all.skip(0) =~= all);
        }
        while rest.len() > 0
            invariant
                out@.len() + rest@.len() == all.len(),
                rest@ == all.skip(out@.len() as int),
                forall|k: int|
                    0 <= k < out@.len() ==> #[trigger] out@[k].name@ == resolve_one(
                        translate_client.glossary@,
                        all[k].name@,
                    ),
                forall|k: int| 0 <= k < out@.len() ==> #[trigger] out@[k].value == all[k].value,
            decreases rest@.len(),
        {
            let ghost k = out@.len();
            let d = rest.remove(0);
            proof {
                assert(d == all.skip(k as int)[0]);
                assert(all.skip(k as int)[0] == all[k as int]);
                assert(rest@ =~= all.skip(k as int).skip(1));
                assert(all.skip(k as int).skip(1) =~= all.skip(k + 1 as int));
            }
            let name = translate_client.glossary.resolve_name(&d.name);
            out.push(SizeDetail { name, value: d.value });
        }
        proof {
            assert(out@.len() == all.len());
            assert(self.0@ == all);
            assert(values_of(out@) =~~= values_of(all));
            assert forall|i: int| 0 <= i < all.len() implies #[trigger] names_of(out@)[i]
                == resolve_one(translate_client.glossary@, names_of(all)[i]) by {
                assert(names_of(out@)[i] == out@[i].name@);
                assert(names_of(all)[i] == all[i].name@);
            }
        }
        Ok(SizeDetails(out))
    }
}

/// What one remote translation call produced, as seen at the transport
/// boundary: the parallel translations, an error body from the service, or no
/// usable response at all.
pub enum TranslateOutcome {
    Success(Vec<String>),
    Rejected(String),
    Unavailable,
}

/// The failure-degradation policy of remote resolution: a successful response
/// yields its translations, an error response fails with the upstream
/// message, and anything else reports the service unavailable. No retry is
/// performed; retry policy belongs to the caller.
pub fn resolve_remote_outcome(outcome: TranslateOutcome) -> (r: Result<Vec<String>, Error>)
    ensures
        match outcome {
            TranslateOutcome::Success(v) => r == Ok::<Vec<String>, Error>(v),
            TranslateOutcome::Rejected(m) => r == Err::<Vec<String>, Error>(
                Error::TranslateResponse(m),
            ),
            TranslateOutcome::Unavailable => r == Err::<Vec<String>, Error>(
                Error::TranslateUnavailable,
            ),
        },
{
    match outcome {
        TranslateOutcome::Success(v) => Ok(v),
        TranslateOutcome::Rejected(m) => Err(Error::TranslateResponse(m)),
        TranslateOutcome::Unavailable => Err(Error::TranslateUnavailable),
    }
}

} // verus!
