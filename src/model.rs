//! The chat models that a translation can run on.
use vstd::prelude::*;

use crate::error::Error;
use crate::text::{chars_of, contains, contains_chars};

verus! {

/// The chat model to use for the translation.
#[derive(Clone, Copy, Debug, PartialEq, Eq, Structural)]
pub enum Model {
    /// GPT-4o
    Gpt4O,
    /// GPT-4o mini
    Gpt4OMini,
    /// GPT-4 Turbo
    Gpt4Turbo,
    /// GPT-3.5 Turbo
    Gpt35Turbo,
}

/// The model that a user-given name selects: the first of `4o`, `mini`, `4`
/// and `35` that occurs in it decides.
pub open spec fn parse_model(s: Seq<char>) -> Option<Model> {
    if contains(s, seq!['4', 'o']) {
        Some(Model::Gpt4O)
    } else if contains(s, seq!['m', 'i', 'n', 'i']) {
        Some(Model::Gpt4OMini)
    } else if contains(s, seq!['4']) {
        Some(Model::Gpt4Turbo)
    } else if contains(s, seq!['3', '5']) {
        Some(Model::Gpt35Turbo)
    } else {
        None
    }
}

/// The identifier of a model at the service.
pub open spec fn model_id(m: Model) -> Seq<char> {
    match m {
        Model::Gpt4O => "gpt-4o"@,
        Model::Gpt4OMini => "gpt-4o-mini"@,
        Model::Gpt4Turbo => "gpt-4-turbo"@,
        Model::Gpt35Turbo => "gpt-3.5-turbo"@,
    }
}

impl Model {
    /// Selects a model from a partial name: `4o` is GPT-4o, `mini` GPT-4o mini,
    /// `4` GPT-4 Turbo and `35` GPT-3.5 Turbo. A name with none of these is
    /// refused.
    pub fn from_str(s: &str) -> (r: Result<Model, Error>)
        ensures
            match parse_model(s@) {
                Some(m) => r == Ok::<Model, Error>(m),
                None => r is Err && r->Err_0 is UnknownModel && r->Err_0->UnknownModel_0@ == s@,
            },
    {
        broadcast use vstd::string::group_string_axioms;

        let cs = chars_of(s);
        let four_o: Vec<char> = vec!['4', 'o'];
        let mini: Vec<char> = vec!['m', 'i', 'n', 'i'];
        let four: Vec<char> = vec!['4'];
        let three_five: Vec<char> = vec!['3', '5'];
        assert(four_o@ =~= seq!['4', 'o']);
        assert(mini@ =~= seq!['m', 'i', 'n', 'i']);
        assert(four@ =~= seq!['4']);
        assert(three_five@ =~= seq!['3', '5']);
        if contains_chars(&cs, &four_o) {
            Ok(Model::Gpt4O)
        } else if contains_chars(&cs, &mini) {
            Ok(Model::Gpt4OMini)
        } else if contains_chars(&cs, &four) {
            Ok(Model::Gpt4Turbo)
        } else if contains_chars(&cs, &three_five) {
            Ok(Model::Gpt35Turbo)
        } else {
            Err(Error::UnknownModel(s.to_string()))
        }
    }

    /// The identifier of the model at the service, such as `gpt-4o-mini`.
    pub fn name(&self) -> (r: &'static str)
        ensures
            r@ == model_id(*self),
    {
        match self {
            Model::Gpt4O => "gpt-4o",
            Model::Gpt4OMini => "gpt-4o-mini",
            Model::Gpt4Turbo => "gpt-4-turbo",
            Model::Gpt35Turbo => "gpt-3.5-turbo",
        }
    }
}

} // verus!
