//! Refinement through an OpenAI-compatible chat-completions service: the
//! request's texts, and the reading of the answer.
//!
//! The HTTP exchange and the JSON (de)serialisation of request and response
//! bodies are done by the caller.

use vstd::prelude::*;

use crate::chars::{
    append_chars, chars_of, contains_chars, contains_seq, ends_with, ends_with_chars,
    index_of, lemma_index_of, slice_chars, starts_with, starts_with_chars, string_from_chars,
    strip_suffixes, strip_suffixes_chars, trim, trim_chars,
};
use crate::json::{json_object_strings, json_object_strings_of, opt_strings_view};

verus! {

/// `str::to_lowercase`: the Unicode lowercase mapping of a text.
pub uninterp spec fn lowercase_of(s: Seq<char>) -> Seq<char>;

/// Calls `str::to_lowercase`; the contract names the result (Unicode case
/// mapping is std's).
#[verifier::external_body]
fn to_lowercase(s: &str) -> (r: String)
    ensures
        r@ == lowercase_of(s@),
{
    s.to_lowercase()
}

/// GLM models get `"thinking": {"type": "disabled"}` in the request.
pub fn disables_thinking(model: &str) -> (r: bool)
    ensures
        r == contains_seq(lowercase_of(model@), "glm"@),
{
    let lower = to_lowercase(model);
    let l = chars_of(lower.as_str());
    let g = chars_of("glm");
    contains_chars(l.as_slice(), g.as_slice())
}

/// The endpoint: the configured URL when it already ends with
/// `/chat/completions`, otherwise that path appended after removing trailing `/`.
pub open spec fn completions_url_spec(api_url: Seq<char>) -> Seq<char> {
    if ends_with(api_url, "/chat/completions"@) {
        api_url
    } else {
        strip_suffixes(api_url, "/"@) + "/chat/completions"@
    }
}

pub fn completions_url(api_url: &str) -> (r: String)
    ensures
        r@ == completions_url_spec(api_url@),
{
    let u = chars_of(api_url);
    let path = chars_of("/chat/completions");
    if ends_with_chars(u.as_slice(), path.as_slice()) {
        return string_from_chars(u.as_slice());
    }
    let slash = chars_of("/");
    let mut v = strip_suffixes_chars(u.as_slice(), slash.as_slice());
    append_chars(&mut v, path.as_slice());
    string_from_chars(v.as_slice())
}

/// The input size estimate used for `max_tokens`: one token per character.
pub fn estimate_tokens(text: &str) -> (r: usize)
    ensures
        r == text@.len(),
{
    chars_of(text).len()
}

/// The user message of the request.
pub open spec fn user_message_spec(text: Seq<char>) -> Seq<char> {
    "请润色以下文本："@ + text
}

pub fn user_message(text: &str) -> (r: String)
    ensures
        r@ == user_message_spec(text@),
{
    let mut v = chars_of("请润色以下文本：");
    append_chars(&mut v, chars_of(text).as_slice());
    string_from_chars(v.as_slice())
}

/// The first `Some` in a list of optional strings.
pub open spec fn first_some(v: Seq<Option<Seq<char>>>) -> Option<Seq<char>>
    decreases v.len(),
{
    if v.len() == 0 {
        None
    } else if v[0] is Some {
        v[0]
    } else {
        first_some(v.drop_first())
    }
}

proof fn lemma_first_some_first(v: Seq<Option<Seq<char>>>)
    ensures
        first_some(v) matches Some(x) ==> exists|i: int|
            0 <= i < v.len() && #[trigger] v[i] == Some(x) && forall|j: int| 0 <= j < i ==> v[j] is None,
        first_some(v) is None ==> forall|i: int| 0 <= i < v.len() ==> (#[trigger] v[i]) is None,
    decreases v.len(),
{
    if v.len() > 0 && v[0] is None {
        lemma_first_some_first(v.drop_first());
        if first_some(v) is Some {
            let x = first_some(v).unwrap();
            let i = choose|i: int|
                0 <= i < v.drop_first().len() && #[trigger] v.drop_first()[i] == Some(x) && forall|j: int|
                    0 <= j < i ==> v.drop_first()[j] is None;
            assert(v[i + 1] == Some(x));
            assert forall|j: int| 0 <= j < i + 1 implies v[j] is None by {
                if j > 0 {
                    assert(v[j] == v.drop_first()[j - 1]);
                }
            }
        } else {
            assert forall|i: int| 0 <= i < v.len() implies (#[trigger] v[i]) is None by {
                if i > 0 {
                    assert(v[i] == v.drop_first()[i - 1]);
                }
            }
        }
    }
}

/// The text taken from an answer that is a JSON object is the value of its
/// first member (in the map's key order) that holds a string: no member
/// before it holds one. When no member holds a string, the answer text is
/// kept.
pub proof fn lemma_json_string_field_first(input: Seq<char>)
    ensures
        ({
            let cleaned = unfence(trim(input));
            starts_with(cleaned, "{"@) && json_object_strings_of(cleaned) is Some ==> {
                let vals = json_object_strings_of(cleaned).unwrap();
                ||| exists|i: int|
                    0 <= i < vals.len() && (#[trigger] vals[i]) is Some && (forall|j: int| 0 <= j < i ==> vals[j] is None)
                        && json_string_field_spec(input) == vals[i].unwrap()
                ||| (forall|i: int| 0 <= i < vals.len() ==> (#[trigger] vals[i]) is None) && json_string_field_spec(
                    input,
                ) == cleaned
            }
        }),
{
    let cleaned = unfence(trim(input));
    if starts_with(cleaned, "{"@) && json_object_strings_of(cleaned) is Some {
        let vals = json_object_strings_of(cleaned).unwrap();
        lemma_first_some_first(vals);
        if first_some(vals) is Some {
            let x = first_some(vals).unwrap();
            let i = choose|i: int|
                0 <= i < vals.len() && #[trigger] vals[i] == Some(x) && forall|j: int| 0 <= j < i ==> vals[j] is None;
            assert(vals[i] is Some);
        }
    }
}

/// The code-fence cleanup of `parse_json_string_field`: a text starting with
/// three backticks loses its first line, then a closing fence.
pub open spec fn unfence(cleaned: Seq<char>) -> Seq<char> {
    if starts_with(cleaned, "```"@) {
        let c1 = match index_of(cleaned, '\n') {
            Some(k) => cleaned.subrange(k + 1int, cleaned.len() as int),
            None => cleaned,
        };
        if ends_with(c1, "```"@) {
            trim(c1.subrange(0, c1.len() - 3))
        } else {
            c1
        }
    } else {
        cleaned
    }
}

/// The model's answer as text: without code fences; when it is a JSON
/// object, its first string value (in the map's key order); otherwise itself.
pub open spec fn json_string_field_spec(input: Seq<char>) -> Seq<char> {
    let cleaned = unfence(trim(input));
    if !starts_with(cleaned, "{"@) {
        cleaned
    } else {
        match json_object_strings_of(cleaned) {
            Some(vals) => match first_some(vals) {
                Some(s) => s,
                None => cleaned,
            },
            None => cleaned,
        }
    }
}

fn first_some_exec(v: &Vec<Option<String>>) -> (r: Option<String>)
    ensures
        match r {
            Some(s) => first_some(opt_strings_view(v@)) == Some(s@),
            None => first_some(opt_strings_view(v@)) is None,
        },
{
    let mut i: usize = 0;
    assert(opt_strings_view(v@).subrange(0, v@.len() as int) =~= opt_strings_view(v@));
    while i < v.len()
        invariant
            i <= v@.len(),
            first_some(opt_strings_view(v@).subrange(i as int, v@.len() as int)) == first_some(
                opt_strings_view(v@),
            ),
        decreases v@.len() - i,
    {
        let ghost w = opt_strings_view(v@).subrange(i as int, v@.len() as int);
        if let Some(s) = &v[i] {
            assert(w[0] == Some(s@));
            return Some(s.clone());
        }
        assert(w.drop_first() =~= opt_strings_view(v@).subrange(i + 1, v@.len() as int));
        i = i + 1;
    }
    assert(opt_strings_view(v@).subrange(i as int, v@.len() as int) =~= Seq::<Option<Seq<char>>>::empty());
    None
}

/// `parse_json_string_field`.
pub fn parse_json_string_field(input: &str) -> (r: String)
    ensures
        r@ == json_string_field_spec(input@),
{
    let mut cleaned = trim_chars(chars_of(input).as_slice());
    let fence = chars_of("```");
    proof {
        reveal_strlit("```");
    }
    if starts_with_chars(cleaned.as_slice(), fence.as_slice()) {
        let mut k: usize = 0;
        while k < cleaned.len() && cleaned[k] != '\n'
            invariant
                k <= cleaned@.len(),
                forall|j: int| 0 <= j < k ==> cleaned@[j] != '\n',
            decreases cleaned@.len() - k,
        {
            k = k + 1;
        }
        proof {
            lemma_index_of(cleaned@, '\n', k as int);
        }
        if k < cleaned.len() {
            cleaned = slice_chars(cleaned.as_slice(), k + 1, cleaned.len());
        }
        if ends_with_chars(cleaned.as_slice(), fence.as_slice()) {
            let body = slice_chars(cleaned.as_slice(), 0, cleaned.len() - 3);
            cleaned = trim_chars(body.as_slice());
        }
    }
    let brace = chars_of("{");
    if !starts_with_chars(cleaned.as_slice(), brace.as_slice()) {
        return string_from_chars(cleaned.as_slice());
    }
    let text = string_from_chars(cleaned.as_slice());
    match json_object_strings(text.as_str()) {
        Some(vals) => match first_some_exec(&vals) {
            Some(s) => s,
            None => text,
        },
        None => text,
    }
}

/// The text of the first choice of a response: its content, trimmed, or when
/// that is empty its reasoning content, trimmed; empty when there is no choice.
pub open spec fn raw_output_spec(first_choice: Option<(Seq<char>, Seq<char>)>) -> Seq<char> {
    match first_choice {
        None => Seq::empty(),
        Some((content, reasoning)) => if trim(content).len() == 0 {
            trim(reasoning)
        } else {
            trim(content)
        },
    }
}

pub open spec fn choice_view(c: Option<(&str, &str)>) -> Option<(Seq<char>, Seq<char>)> {
    match c {
        Some((a, b)) => Some((a@, b@)),
        None => None,
    }
}

/// The refined text of a response whose first choice carries `content` and
/// `reasoning_content`: `None` when both are blank or there is no choice.
pub fn response_output(first_choice: Option<(&str, &str)>) -> (r: Option<String>)
    ensures
        raw_output_spec(choice_view(first_choice)).len() == 0 ==> r is None,
        raw_output_spec(choice_view(first_choice)).len() > 0 ==> (r matches Some(s) && s@
            == json_string_field_spec(raw_output_spec(choice_view(first_choice)))),
{
    let raw = match first_choice {
        None => Vec::new(),
        Some((content, reasoning)) => {
            let c = trim_chars(chars_of(content).as_slice());
            if c.len() == 0 {
                trim_chars(chars_of(reasoning).as_slice())
            } else {
                c
            }
        },
    };
    if raw.len() == 0 {
        return None;
    }
    let rs = string_from_chars(raw.as_slice());
    Some(parse_json_string_field(rs.as_str()))
}


/// Why a remote refinement gave no text.
pub enum RemoteError {
    MissingApiKey,
    EmptyBody,
    EmptyOutput,
}

impl RemoteError {
    /// The text of the error, as the caller reports it.
    pub fn message(&self) -> (r: String)
        ensures
            r@ == match self {
                RemoteError::MissingApiKey => "API key not configured"@,
                RemoteError::EmptyBody => "API returned empty response"@,
                RemoteError::EmptyOutput => "API returned empty output"@,
            },
    {
        match self {
            RemoteError::MissingApiKey => String::from_str("API key not configured"),
            RemoteError::EmptyBody => String::from_str("API returned empty response"),
            RemoteError::EmptyOutput => String::from_str("API returned empty output"),
        }
    }
}

/// What to do for a remote refinement.
pub enum RemotePlan {
    /// The trimmed input is empty: it is the answer, no request is made.
    Done(String),
    /// Send a request: the trimmed input, the key, the endpoint, whether
    /// thinking is turned off, the input's token estimate and the user message.
    Send {
        input: String,
        api_key: String,
        url: String,
        disable_thinking: bool,
        input_tokens: usize,
        user_message: String,
    },
}

/// The first half of `LlmRemoteEngine::refine`: the request to make, if any.
pub fn remote_plan(text: &str, api_key: Option<String>, model: &str, api_url: &str) -> (r: Result<RemotePlan, RemoteError>)
    ensures
        trim(text@).len() == 0 ==> (r matches Ok(RemotePlan::Done(t)) && t@ == trim(text@)),
        trim(text@).len() > 0 && api_key is None ==> r matches Err(RemoteError::MissingApiKey),
        trim(text@).len() > 0 && api_key is Some ==> (r matches Ok(
            RemotePlan::Send { input, api_key: k, url, disable_thinking, input_tokens, user_message },
        ) && {
            &&& input@ == trim(text@)
            &&& k@ == api_key.unwrap()@
            &&& url@ == completions_url_spec(api_url@)
            &&& disable_thinking == contains_seq(lowercase_of(model@), "glm"@)
            &&& input_tokens == trim(text@).len()
            &&& user_message@ == user_message_spec(trim(text@))
        }),
{
    let t = string_from_chars(trim_chars(chars_of(text).as_slice()).as_slice());
    if t.as_str().is_empty() {
        return Ok(RemotePlan::Done(t));
    }
    let key = match api_key {
        Some(k) => k,
        None => return Err(RemoteError::MissingApiKey),
    };
    let url = completions_url(api_url);
    let disable_thinking = disables_thinking(model);
    let input_tokens = estimate_tokens(t.as_str());
    let msg = user_message(t.as_str());
    Ok(RemotePlan::Send { input: t, api_key: key, url, disable_thinking, input_tokens, user_message: msg })
}

/// The second half: the refined text of a response body whose first choice
/// (when the body parsed) carries `content` and `reasoning_content`.
pub fn remote_read(body: &str, first_choice: Option<(&str, &str)>) -> (r: Result<String, RemoteError>)
    ensures
        trim(body@).len() == 0 ==> r matches Err(RemoteError::EmptyBody),
        trim(body@).len() > 0 && raw_output_spec(choice_view(first_choice)).len() == 0 ==> r matches Err(RemoteError::EmptyOutput),
        trim(body@).len() > 0 && raw_output_spec(choice_view(first_choice)).len() > 0 ==> (r matches Ok(s)
            && s@ == json_string_field_spec(raw_output_spec(choice_view(first_choice)))),
{
    if trim_chars(chars_of(body).as_slice()).len() == 0 {
        return Err(RemoteError::EmptyBody);
    }
    match response_output(first_choice) {
        Some(s) => Ok(s),
        None => Err(RemoteError::EmptyOutput),
    }
}

/// What `llm_remote_refine_with_fallback` hands on: the refined text when
/// the remote refinement gave one, else the original text.
pub fn refined_or_original(text: &str, refined: Option<String>) -> (r: String)
    ensures
        r@ == match refined {
            Some(s) => s@,
            None => text@,
        },
{
    match refined {
        Some(s) => s,
        None => crate::chars::string_of(text),
    }
}

} // verus!
