//! The translator and its two states.
//!
//! A translator starts from its configuration and becomes ready for
//! translation once: the credential is checked and both prompts are resolved.
//! Only a ready translator builds the messages of a request, so no request is
//! ever made from a half-initialised one.
use vstd::prelude::*;
use vstd::string::StringExecFns;

use crate::error::Error;
use crate::model::Model;
use crate::prompt::{resolve_prompt, resolved_prompt, DEFAULT_SYSTEM_PROMPT, DEFAULT_USER_PROMPT};

verus! {

/// A state of the [`Translator`].
pub trait State {

}

/// The configuration a translator starts from. The prompt file fields hold
/// the contents of the override files, or nothing when no file was given or it
/// could not be read.
pub struct Uninitialized {
    /// Credential for the chat-completion service.
    pub openai_api_key: String,
    /// Model to use.
    pub model: Model,
    /// The maximum number of tokens to generate in a completion.
    pub max_tokens: u16,
    /// Contents of the system prompt file.
    pub system_prompt_file: Option<String>,
    /// Contents of the user prompt file.
    pub user_prompt_file: Option<String>,
    /// System prompt text; overrides the system prompt file.
    pub system_prompt_text: Option<String>,
    /// User prompt text; overrides the user prompt file.
    pub user_prompt_text: Option<String>,
    /// Language of the text to translate.
    pub source_language: String,
    /// Language to translate into.
    pub target_language: String,
}

impl State for Uninitialized {

}

/// A translator whose parameters and prompts are fixed for every request.
pub struct ReadyForTranslation {
    /// Credential for the chat-completion service.
    pub api_key: String,
    /// Model to use.
    pub model: Model,
    /// The maximum number of tokens to generate in a completion.
    pub max_tokens: u16,
    /// The resolved user prompt, which precedes each fragment.
    pub user_prompt: String,
    /// The resolved system prompt.
    pub system_prompt: String,
}

impl State for ReadyForTranslation {

}

/// Who a message of a chat request speaks for.
#[derive(Clone, Copy, Debug, PartialEq, Eq, Structural)]
pub enum Role {
    /// The instructions that frame the conversation.
    System,
    /// The request proper.
    User,
}

/// One message of a chat request.
#[derive(Debug)]
pub struct Message {
    /// Who the message speaks for.
    pub role: Role,
    /// What it says.
    pub content: String,
}

/// The translator, in one of its states.
pub struct Translator<S: State> {
    state: S,
}

/// The contents of an optional string.
pub open spec fn opt_view(o: Option<String>) -> Option<Seq<char>> {
    match o {
        Some(s) => Some(s@),
        None => None,
    }
}

/// The values of the present entries of `s`, in order.
pub open spec fn present(s: Seq<Option<String>>) -> Seq<String>
    decreases s.len(),
{
    if s.len() == 0 {
        seq![]
    } else {
        match s.last() {
            Some(t) => present(s.drop_last()).push(t),
            None => present(s.drop_last()),
        }
    }
}

impl<S: State> Translator<S> {
    /// The state the translator is in.
    pub closed spec fn spec_state(&self) -> S {
        self.state
    }

    /// The state the translator is in.
    pub fn state(&self) -> (r: &S)
        ensures
            *r == self.spec_state(),
    {
        &self.state
    }
}

impl Translator<Uninitialized> {
    /// Makes a translator ready from its configuration: checks that there is a
    /// credential and resolves the system prompt and the user prompt.
    pub fn from(config: Uninitialized) -> (r: Result<Translator<ReadyForTranslation>, Error>)
        ensures
            config.openai_api_key@.len() == 0 <==> r is Err,
            r is Err ==> r->Err_0 is Config,
            r is Ok ==> ({
                let s = r->Ok_0.spec_state();
                &&& s.api_key == config.openai_api_key
                &&& s.model == config.model
                &&& s.max_tokens == config.max_tokens
                &&& s.system_prompt@ == resolved_prompt(
                    opt_view(config.system_prompt_file),
                    opt_view(config.system_prompt_text),
                    DEFAULT_SYSTEM_PROMPT@,
                    config.source_language@,
                    config.target_language@,
                )
                &&& s.user_prompt@ == resolved_prompt(
                    opt_view(config.user_prompt_file),
                    opt_view(config.user_prompt_text),
                    DEFAULT_USER_PROMPT@,
                    config.source_language@,
                    config.target_language@,
                )
            }),
    {
        if config.openai_api_key.as_str().unicode_len() == 0 {
            return Err(Error::Config(String::from_str("the API key is empty")));
        }
        let Uninitialized {
            openai_api_key,
            model,
            max_tokens,
            system_prompt_file,
            user_prompt_file,
            system_prompt_text,
            user_prompt_text,
            source_language,
            target_language,
        } = config;
        let system_prompt = resolve_prompt(
            system_prompt_file,
            system_prompt_text,
            DEFAULT_SYSTEM_PROMPT,
            source_language.as_str(),
            target_language.as_str(),
        );
        let user_prompt = resolve_prompt(
            user_prompt_file,
            user_prompt_text,
            DEFAULT_USER_PROMPT,
            source_language.as_str(),
            target_language.as_str(),
        );
        Ok(Translator {
            state: ReadyForTranslation {
                api_key: openai_api_key,
                model,
                max_tokens,
                user_prompt,
                system_prompt,
            },
        })
    }
}

impl Translator<ReadyForTranslation> {
    /// The two messages of the request that translates `input`: the system
    /// prompt, then the user prompt, a newline and the input, verbatim.
    pub fn messages(&self, input: &str) -> (r: Vec<Message>)
        ensures
            r@.len() == 2,
            r@[0].role == Role::System,
            r@[0].content@ == self.spec_state().system_prompt@,
            r@[1].role == Role::User,
            r@[1].content@ == self.spec_state().user_prompt@ + seq!['\n'] + input@,
    {
        proof {
            reveal_strlit("\n");
        }
        let mut user = self.state.user_prompt.clone();
        user.append("\n");
        user.append(input);
        let mut r: Vec<Message> = Vec::new();
        r.push(Message { role: Role::System, content: self.state.system_prompt.clone() });
        r.push(Message { role: Role::User, content: user });
        assert("\n"@ =~= seq!['\n']);
        r
    }

    /// The texts of a response's choices, in order, leaving out the choices
    /// that carry no text.
    pub fn replies(contents: Vec<Option<String>>) -> (r: Vec<String>)
        ensures
            r@ == present(contents@),
    {
        let mut r: Vec<String> = Vec::new();
        let mut i: usize = 0;
        while i < contents.len()
            invariant
                i <= contents.len(),
                r@ == present(contents@.take(i as int)),
            decreases contents.len() - i,
        {
            assert(contents@.take(i + 1).drop_last() =~= contents@.take(i as int));
            match &contents[i] {
                Some(t) => r.push(t.clone()),
                None => {},
            }
            i = i + 1;
        }
        assert(contents@.take(i as int) =~= contents@);
        r
    }
}

} // verus!
