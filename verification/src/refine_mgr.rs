//! The decisions of the refine manager: which engine refines a text, and the
//! punctuation that closes the result.
//!
//! The engines themselves (remote LLM, local LLM, filler filter and
//! punctuation model) are run by the caller.

use vstd::prelude::*;

use crate::chars::{append_chars, chars_of, string_from_chars};

verus! {

/// The characters that already close a sentence.
pub open spec fn is_closing_punct(c: char) -> bool {
    ",.:?!;，。？！："@.contains(c)
}

fn is_closing_punct_exec(c: char) -> (b: bool)
    ensures
        b == is_closing_punct(c),
{
    let p = chars_of(",.:?!;，。？！：");
    crate::chars::contains_char(p.as_slice(), c)
}

/// `ensure_trailing_punct`: texts of more than `min_refine_length` characters
/// that do not end with closing punctuation get `trailing_punct` appended.
pub open spec fn trailing_punct_spec(text: Seq<char>, min_refine_length: nat, trailing_punct: Seq<
    char,
>) -> Seq<char> {
    if text.len() <= min_refine_length || is_closing_punct(text.last()) {
        text
    } else {
        text + trailing_punct
    }
}

pub fn ensure_trailing_punct(text: &str, min_refine_length: usize, trailing_punct: &str) -> (r:
    String)
    ensures
        r@ == trailing_punct_spec(text@, min_refine_length as nat, trailing_punct@),
{
    let mut t = chars_of(text);
    if t.len() <= min_refine_length {
        return string_from_chars(t.as_slice());
    }
    if is_closing_punct_exec(t[t.len() - 1]) {
        return string_from_chars(t.as_slice());
    }
    append_chars(&mut t, chars_of(trailing_punct).as_slice());
    string_from_chars(t.as_slice())
}

/// Closing punctuation is kept, and only missing punctuation is added: a
/// text of more than `min_refine_length` characters that ends with one of
/// `, . : ? ! ;` or the full-width `， 。 ？ ！ ：` is returned unchanged, one
/// that ends with anything else gets `trailing_punct` appended, and a shorter
/// text is returned unchanged.
pub proof fn lemma_trailing_punct(text: Seq<char>, min_refine_length: nat, trailing_punct: Seq<char>)
    ensures
        text.len() <= min_refine_length ==> trailing_punct_spec(text, min_refine_length, trailing_punct) == text,
        text.len() > min_refine_length ==> {
            let c = text.last();
            let closing = c == ',' || c == '.' || c == ':' || c == '?' || c == '!' || c == ';' || c == '，'
                || c == '。' || c == '？' || c == '！' || c == '：';
            &&& closing ==> trailing_punct_spec(text, min_refine_length, trailing_punct) == text
            &&& !closing ==> trailing_punct_spec(text, min_refine_length, trailing_punct) == text
                + trailing_punct
        },
{
    reveal_strlit(",.:?!;，。？！：");
    let p = ",.:?!;，。？！："@;
    assert(p.len() == 11);
    if text.len() > min_refine_length {
        let c = text.last();
        if c == ',' || c == '.' || c == ':' || c == '?' || c == '!' || c == ';' || c == '，' || c == '。' || c == '？'
            || c == '！' || c == '：' {
            if c == ',' { assert(p[0] == c); }
            if c == '.' { assert(p[1] == c); }
            if c == ':' { assert(p[2] == c); }
            if c == '?' { assert(p[3] == c); }
            if c == '!' { assert(p[4] == c); }
            if c == ';' { assert(p[5] == c); }
            if c == '，' { assert(p[6] == c); }
            if c == '。' { assert(p[7] == c); }
            if c == '？' { assert(p[8] == c); }
            if c == '！' { assert(p[9] == c); }
            if c == '：' { assert(p[10] == c); }
            assert(is_closing_punct(c));
        } else {
            assert(!p.contains(c));
        }
    }
}

/// The engine that `do_refine` hands a text to.
#[derive(PartialEq, Eq, Structural, Debug, Clone, Copy)]
pub enum RefineRoute {
    /// Filler filter, then the punctuation model when enabled.
    FallbackPunc,
    /// The remote chat-completions service.
    Remote,
    /// The local LLM (falls back to `FallbackPunc` when it fails).
    Local,
}

/// Short texts skip the LLMs; otherwise the remote service when it is enabled
/// and configured, else the local LLM when loaded, else the fallback.
pub open spec fn route_spec(
    text_chars: nat,
    min_refine_length: nat,
    remote_enabled: bool,
    has_remote_config: bool,
    has_local_llm: bool,
) -> RefineRoute {
    if text_chars <= min_refine_length {
        RefineRoute::FallbackPunc
    } else if remote_enabled && has_remote_config {
        RefineRoute::Remote
    } else if has_local_llm {
        RefineRoute::Local
    } else {
        RefineRoute::FallbackPunc
    }
}

pub fn refine_route(
    text: &str,
    min_refine_length: usize,
    remote_enabled: bool,
    has_remote_config: bool,
    has_local_llm: bool,
) -> (r: RefineRoute)
    ensures
        r == route_spec(
            text@.len(),
            min_refine_length as nat,
            remote_enabled,
            has_remote_config,
            has_local_llm,
        ),
{
    let n = chars_of(text).len();
    if n <= min_refine_length {
        RefineRoute::FallbackPunc
    } else if remote_enabled && has_remote_config {
        RefineRoute::Remote
    } else if has_local_llm {
        RefineRoute::Local
    } else {
        RefineRoute::FallbackPunc
    }
}

} // verus!
