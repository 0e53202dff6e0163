//! From the description of a field to its candidates.

use vstd::prelude::*;
use crate::error::GenError;
use crate::pattern::{agrees, expand, expansion, regen_language};
use crate::text::all_texts;
use crate::tokenizer::{tokenize, tokens};

verus! {

/// How the candidates of one field are given.
#[derive(Debug, PartialEq, Eq)]
pub enum FieldSpec {
    /// The candidates themselves, separated by `|`.
    Literal(String),
    /// A bounded pattern; the candidates are the strings that it matches.
    Pattern(String),
}

impl Clone for FieldSpec {
    fn clone(&self) -> (copy: FieldSpec)
        ensures
            copy == *self,
    {
        match self {
            FieldSpec::Literal(raw) => FieldSpec::Literal(raw.clone()),
            FieldSpec::Pattern(expr) => FieldSpec::Pattern(expr.clone()),
        }
    }
}

/// The candidates that the description of a field denotes, or why it has
/// none.
pub open spec fn candidates(spec: FieldSpec) -> Result<Seq<Seq<char>>, GenError> {
    match spec {
        FieldSpec::Literal(raw) => Ok(tokens(raw@)),
        FieldSpec::Pattern(expr) => expansion(expr@, regen_language(expr@)),
    }
}

/// The candidates of one field, in order.
///
/// A literal field always has candidates; a pattern field fails as `expand`
/// does.
pub fn parse(spec: &FieldSpec) -> (result: Result<Vec<String>, GenError>)
    ensures
        agrees(result, candidates(*spec)),
{
    match spec {
        FieldSpec::Literal(raw) => Ok(tokenize(raw.as_str())),
        FieldSpec::Pattern(expr) => expand(expr.as_str()),
    }
}

/// The candidates of every field, in the order of the fields. The first field
/// that fails decides the error, and nothing is returned for the others.
pub fn parse_format_strings(parts: &Vec<FieldSpec>) -> (result: Result<
    Vec<Vec<String>>,
    GenError,
>)
    ensures
        match result {
            Ok(all) => all.len() == parts.len() && forall|k: int|
                0 <= k < parts.len() ==> candidates(#[trigger] parts[k]) == Ok::<
                    Seq<Seq<char>>,
                    GenError,
                >(all_texts(all@)[k]),
            Err(e) => exists|k: int|
                0 <= k < parts.len() && candidates(#[trigger] parts[k]) == Err::<
                    Seq<Seq<char>>,
                    GenError,
                >(e) && forall|j: int| 0 <= j < k ==> candidates(#[trigger] parts[j]) is Ok,
        },
{
    let mut all: Vec<Vec<String>> = Vec::new();
    let mut k: usize = 0;
    while k < parts.len()
        invariant
            k <= parts.len(),
            all.len() == k,
            forall|j: int|
                0 <= j < k ==> candidates(#[trigger] parts[j]) == Ok::<Seq<Seq<char>>, GenError>(
                    all_texts(all@)[j],
                ),
        decreases parts.len() - k,
    {
        match parse(&parts[k]) {
            Err(e) => {
                return Err(e);
            },
            Ok(options) => {
                let ghost before = all@;
                all.push(options);
                assert forall|j: int| 0 <= j < k + 1 implies candidates(#[trigger] parts[j])
                    == Ok::<Seq<Seq<char>>, GenError>(all_texts(all@)[j]) by {
                    if j < k {
                        assert(all_texts(all@)[j] == all_texts(before)[j]);
                    }
                }
            },
        }
        k = k + 1;
    }
    Ok(all)
}

} // verus!
