//! Resolving the system prompt and the user prompt template.
//!
//! A prompt comes from override text when there is some, else from the
//! contents of an override file when it could be read, else from the built-in
//! default. Whichever template wins gets its `{source}` and `{target}`
//! placeholders replaced with the language names, in one pass: a language
//! name, once inserted, is not scanned again.
use vstd::prelude::*;
use vstd::string::StrSliceExecFns;
use vstd::string::StringExecFns;

use crate::text::{chars_of, contains, matches_at, occurs_at};

verus! {

/// The built-in system prompt.
pub const DEFAULT_SYSTEM_PROMPT: &'static str = "You are a professional translator. You translate Markdown documents faithfully and idiomatically, keep their Markdown structure intact, and reply with the translation only.";

/// The built-in user prompt template.
pub const DEFAULT_USER_PROMPT: &'static str = "Translate the following Markdown text from {source} to {target}. Keep headings, lists, links, inline code and code blocks as they are, and answer with the translated text only.";

/// The placeholder for the source language name.
pub open spec fn source_token() -> Seq<char> {
    seq!['{', 's', 'o', 'u', 'r', 'c', 'e', '}']
}

/// The placeholder for the target language name.
pub open spec fn target_token() -> Seq<char> {
    seq!['{', 't', 'a', 'r', 'g', 'e', 't', '}']
}

/// `template` with every `{source}` replaced by `source` and every `{target}`
/// by `target`, in one pass from left to right: at each position a
/// placeholder is replaced, any other character is copied.
pub open spec fn fill(template: Seq<char>, source: Seq<char>, target: Seq<char>) -> Seq<char>
    decreases template.len(),
{
    if template.len() == 0 {
        template
    } else if occurs_at(template, source_token(), 0) {
        source + fill(template.skip(source_token().len() as int), source, target)
    } else if occurs_at(template, target_token(), 0) {
        target + fill(template.skip(target_token().len() as int), source, target)
    } else {
        seq![template[0]] + fill(template.drop_first(), source, target)
    }
}

/// The template that the given overrides and default select: override text,
/// else the contents of the override file, else the default.
pub open spec fn chosen_template(
    file_text: Option<Seq<char>>,
    override_text: Option<Seq<char>>,
    default: Seq<char>,
) -> Seq<char> {
    match override_text {
        Some(o) => o,
        None => match file_text {
            Some(f) => f,
            None => default,
        },
    }
}

/// The prompt that the given overrides, default and languages resolve to.
pub open spec fn resolved_prompt(
    file_text: Option<Seq<char>>,
    override_text: Option<Seq<char>>,
    default: Seq<char>,
    source: Seq<char>,
    target: Seq<char>,
) -> Seq<char> {
    fill(chosen_template(file_text, override_text, default), source, target)
}

/// Replaces the `{source}` and `{target}` placeholders of `template` with the
/// language names, in one pass.
pub fn fill_placeholders(template: &str, source: &str, target: &str) -> (r: String)
    ensures
        r@ == fill(template@, source@, target@),
{
    let cs = chars_of(template);
    let source_tok: Vec<char> = vec!['{', 's', 'o', 'u', 'r', 'c', 'e', '}'];
    let target_tok: Vec<char> = vec!['{', 't', 'a', 'r', 'g', 'e', 't', '}'];
    assert(source_tok@ =~= source_token());
    assert(target_tok@ =~= target_token());
    let mut out = String::new();
    let mut i: usize = 0;
    assert(cs@.skip(0) =~= cs@);
    assert(out@ + fill(cs@, source@, target@) =~= fill(cs@, source@, target@));
    while i < cs.len()
        invariant
            cs@ == template@,
            source_tok@ == source_token(),
            target_tok@ == target_token(),
            i <= cs.len(),
            out@ + fill(cs@.skip(i as int), source@, target@) == fill(cs@, source@, target@),
        decreases cs.len() - i,
    {
        let ghost rest = cs@.skip(i as int);
        let ghost before = out@;
        if matches_at(&cs, &source_tok, i) {
            assert(occurs_at(rest, source_token(), 0)) by {
                assert(rest.subrange(0, 8) =~= cs@.subrange(i as int, i + 8));
            };
            assert(rest.skip(8) =~= cs@.skip(i + 8));
            out.append(source);
            assert(out@ + fill(cs@.skip(i + 8), source@, target@) =~= before + (source@ + fill(
                rest.skip(8),
                source@,
                target@,
            )));
            i = i + 8;
        } else if matches_at(&cs, &target_tok, i) {
            assert(!occurs_at(rest, source_token(), 0)) by {
                if occurs_at(rest, source_token(), 0) {
                    assert(rest.subrange(0, 8) =~= cs@.subrange(i as int, i + 8));
                }
            };
            assert(occurs_at(rest, target_token(), 0)) by {
                assert(rest.subrange(0, 8) =~= cs@.subrange(i as int, i + 8));
            };
            assert(rest.skip(8) =~= cs@.skip(i + 8));
            out.append(target);
            assert(out@ + fill(cs@.skip(i + 8), source@, target@) =~= before + (target@ + fill(
                rest.skip(8),
                source@,
                target@,
            )));
            i = i + 8;
        } else {
            assert(!occurs_at(rest, source_token(), 0) && !occurs_at(rest, target_token(), 0)) by {
                if occurs_at(rest, source_token(), 0) || occurs_at(rest, target_token(), 0) {
                    assert(rest.subrange(0, 8) =~= cs@.subrange(i as int, i + 8));
                }
            };
            assert(rest.drop_first() =~= cs@.skip(i + 1));
            out.append(template.substring_char(i, i + 1));
            assert(template@.subrange(i as int, i + 1) =~= seq![rest[0]]);
            assert(out@ + fill(cs@.skip(i + 1), source@, target@) =~= before + (seq![rest[0]]
                + fill(rest.drop_first(), source@, target@)));
            i = i + 1;
        }
    }
    assert(cs@.skip(i as int) =~= Seq::<char>::empty());
    assert(out@ + fill(cs@.skip(i as int), source@, target@) =~= out@);
    out
}

/// Resolves one prompt: override text wins over the contents of an override
/// file, which win over `default`; the placeholders of the winner are filled
/// in.
///
/// `file_text` holds the contents of the override file, or nothing when no
/// file was given or it could not be read.
pub fn resolve_prompt(
    file_text: Option<String>,
    override_text: Option<String>,
    default: &str,
    source: &str,
    target: &str,
) -> (r: String)
    ensures
        r@ == resolved_prompt(
            match file_text {
                Some(f) => Some(f@),
                None => None,
            },
            match override_text {
                Some(o) => Some(o@),
                None => None,
            },
            default@,
            source@,
            target@,
        ),
        override_text is Some ==> r@ == fill(override_text->0@, source@, target@),
{
    match override_text {
        Some(o) => fill_placeholders(o.as_str(), source, target),
        None => match file_text {
            Some(f) => fill_placeholders(f.as_str(), source, target),
            None => fill_placeholders(default, source, target),
        },
    }
}

/// Whether `s` holds no opening brace.
pub open spec fn brace_free(s: Seq<char>) -> bool {
    forall|i: int| 0 <= i < s.len() ==> s[i] != '{'
}

/// Whether every opening brace of `t` starts a `{source}` or `{target}`
/// placeholder.
pub open spec fn braces_only_in_placeholders(t: Seq<char>) -> bool {
    forall|i: int|
        0 <= i < t.len() && t[i] == '{' ==> occurs_at(t, source_token(), i) || occurs_at(
            t,
            target_token(),
            i,
        )
}

proof fn lemma_fill_brace_free(t: Seq<char>, source: Seq<char>, target: Seq<char>)
    requires
        brace_free(source),
        brace_free(target),
        braces_only_in_placeholders(t),
    ensures
        brace_free(fill(t, source, target)),
    decreases t.len(),
{
    if t.len() == 0 {
    } else if occurs_at(t, source_token(), 0) || occurs_at(t, target_token(), 0) {
        let rest = t.skip(8);
        assert forall|i: int| 0 <= i < rest.len() && rest[i] == '{' implies occurs_at(
            rest,
            source_token(),
            i,
        ) || occurs_at(rest, target_token(), i) by {
            assert(t[i + 8] == '{');
            assert(rest.subrange(i, i + 8) =~= t.subrange(i + 8, i + 16)) by {
                if i + 16 <= t.len() {
                }
            };
        };
        lemma_fill_brace_free(rest, source, target);
        let f = fill(t, source, target);
        let ins = if occurs_at(t, source_token(), 0) { source } else { target };
        assert(f == ins + fill(rest, source, target));
        assert forall|i: int| 0 <= i < f.len() implies f[i] != '{' by {
            if i >= ins.len() {
                assert(f[i] == fill(rest, source, target)[i - ins.len()]);
            }
        };
    } else {
        let rest = t.drop_first();
        assert(t[0] != '{');
        assert forall|i: int| 0 <= i < rest.len() && rest[i] == '{' implies occurs_at(
            rest,
            source_token(),
            i,
        ) || occurs_at(rest, target_token(), i) by {
            assert(t[i + 1] == '{');
            assert(rest.subrange(i, i + 8) =~= t.subrange(i + 1, i + 9)) by {
                if i + 9 <= t.len() {
                }
            };
        };
        lemma_fill_brace_free(rest, source, target);
        let f = fill(t, source, target);
        assert forall|i: int| 0 <= i < f.len() implies f[i] != '{' by {
            if i >= 1 {
                assert(f[i] == fill(rest, source, target)[i - 1]);
            }
        };
    }
}

/// When the language names hold no brace and every brace of the template
/// belongs to a placeholder, the filled template holds no placeholder, and no
/// brace at all.
pub proof fn lemma_fill_leaves_no_placeholder(t: Seq<char>, source: Seq<char>, target: Seq<char>)
    requires
        brace_free(source),
        brace_free(target),
        braces_only_in_placeholders(t),
    ensures
        brace_free(fill(t, source, target)),
        !contains(fill(t, source, target), source_token()),
        !contains(fill(t, source, target), target_token()),
{
    let f = fill(t, source, target);
    lemma_fill_brace_free(t, source, target);
    assert forall|i: int| !occurs_at(f, source_token(), i) && !occurs_at(f, target_token(), i) by {
        if occurs_at(f, source_token(), i) {
            assert(f.subrange(i, i + 8)[0] == '{');
        }
        if occurs_at(f, target_token(), i) {
            assert(f.subrange(i, i + 8)[0] == '{');
        }
    };
}

} // verus!
