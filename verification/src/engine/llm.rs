//! The local LLM refiner (Qwen2.5 in ONNX form): its prompt texts, the
//! prefill template, the reading of the generated JSON, and the BPE tokenizer.
//!
//! Inference itself runs outside this crate; what is decided around it is here.

use vstd::prelude::*;

use crate::chars::{
    append_chars, chars_of, is_ws, last_index_of, lemma_last_index_of_bound, replace_all,
    replace_all_chars, rfind_char, slice_chars, string_from_chars, strip_suffixes,
    strip_suffixes_chars, trim, trim_chars, trim_quotes, trim_quotes_chars,
};
use crate::json::{json_field, json_field_of, JsonField, JsonFieldView};

verus! {

// ───────────────────────────── prompts ─────────────────────────────

/// The chat-template text of the system prompt.
pub open spec fn system_part_spec(system_prompt: Seq<char>) -> Seq<char> {
    "<|im_start|>system\n"@ + system_prompt + "<|im_end|>\n"@
}

/// `format!("<|im_start|>system\n{}<|im_end|>\n", system_prompt)`.
pub fn system_part(system_prompt: &str) -> (r: String)
    ensures
        r@ == system_part_spec(system_prompt@),
{
    let mut v = chars_of("<|im_start|>system\n");
    append_chars(&mut v, chars_of(system_prompt).as_slice());
    append_chars(&mut v, chars_of("<|im_end|>\n").as_slice());
    string_from_chars(v.as_slice())
}

/// The start of the assistant's answer: the prefill template with `{INPUT}`
/// replaced by the text.
pub open spec fn assistant_prefix_spec(template: Seq<char>, text: Seq<char>) -> Seq<char> {
    replace_all(template, "{INPUT}"@, text)
}

/// `prefill_template.replace("{INPUT}", text)`.
pub fn assistant_prefix(template: &str, text: &str) -> (r: String)
    ensures
        r@ == assistant_prefix_spec(template@, text@),
{
    let p = chars_of("{INPUT}");
    proof {
        reveal_strlit("{INPUT}");
    }
    let v = replace_all_chars(chars_of(template).as_slice(), p.as_slice(), chars_of(text).as_slice());
    string_from_chars(v.as_slice())
}

/// The user turn followed by the opened assistant turn.
pub open spec fn user_part_spec(text: Seq<char>, assistant_prefix: Seq<char>) -> Seq<char> {
    "<|im_start|>user\n"@ + text + "<|im_end|>\n<|im_start|>assistant\n"@ + assistant_prefix
}

/// `format!("<|im_start|>user\n{}<|im_end|>\n<|im_start|>assistant\n{}", text, assistant_prefix)`.
pub fn user_part(text: &str, assistant_prefix: &str) -> (r: String)
    ensures
        r@ == user_part_spec(text@, assistant_prefix@),
{
    let mut v = chars_of("<|im_start|>user\n");
    append_chars(&mut v, chars_of(text).as_slice());
    append_chars(&mut v, chars_of("<|im_end|>\n<|im_start|>assistant\n").as_slice());
    append_chars(&mut v, chars_of(assistant_prefix).as_slice());
    string_from_chars(v.as_slice())
}

// ───────────────────────────── the prefill template ─────────────────────────────

/// Where the name of the result field starts: after the last `,` before the
/// last `:`, or at the second character when that comma is missing or first.
pub open spec fn field_start(t: Seq<char>, colon: int) -> int {
    match last_index_of(t.subrange(0, colon), ',') {
        Some(c) => if c > 0 {
            c + 1int
        } else {
            1
        },
        None => 1,
    }
}

/// The templates on which the field extraction slices between characters:
/// the field does not start after the last `:`, and when it starts at the
/// second character, the first one is ASCII (one byte long).
pub open spec fn template_slicable(t: Seq<char>) -> bool {
    match last_index_of(t, ':') {
        None => true,
        Some(colon) => field_start(t, colon as int) <= colon && (field_start(t, colon as int)
            == 1 ==> (t[0] as u32) < 128),
    }
}

/// The name of the JSON field that the template leaves open: the text between
/// `field_start` and the last `:`, without surrounding quotes and spaces;
/// `None` when the template has no `:`.
pub open spec fn result_field_spec(t: Seq<char>) -> Option<Seq<char>> {
    match last_index_of(t, ':') {
        None => None,
        Some(colon) => Some(trim_quotes(t.subrange(field_start(t, colon as int), colon as int))),
    }
}

/// The result field named by a prefill template (as `LlmEngine::build` and
/// `rebuild_prompt` read it).
pub fn result_field_from_template(template: &str) -> (r: Option<String>)
    requires
        template_slicable(template@),
    ensures
        match r {
            Some(f) => result_field_spec(template@) == Some(f@),
            None => result_field_spec(template@) is None,
        },
{
    let t = chars_of(template);
    let colon = match rfind_char(t.as_slice(), ':') {
        Some(c) => c,
        None => return None,
    };
    proof {
        lemma_last_index_of_bound(t@, ':');
    }
    let before = slice_chars(t.as_slice(), 0, colon);
    let start = match rfind_char(before.as_slice(), ',') {
        Some(c) => if c > 0 {
            c + 1
        } else {
            1
        },
        None => 1,
    };
    let raw = slice_chars(t.as_slice(), start, colon);
    let f = trim_quotes_chars(raw.as_slice());
    Some(string_from_chars(f.as_slice()))
}

/// What the language model's prompt is: the length of the system prompt
/// held in the model's cache, the prefill template and its result field.
pub struct PromptState {
    pub system_prompt_len: usize,
    pub prefill_template: String,
    pub result_field: String,
}

impl PromptState {
    /// The last step of `rebuild_prompt`, once the model has taken the new
    /// system prompt of `system_len` tokens: when the new template names a
    /// result field, the three parts are replaced together and `true` is
    /// returned; otherwise nothing changes.
    pub fn apply_rebuild(&mut self, system_len: usize, new_prefill_template: &str) -> (r: bool)
        requires
            template_slicable(new_prefill_template@),
        ensures
            r == (result_field_spec(new_prefill_template@) is Some),
            r ==> {
                &&& final(self).system_prompt_len == system_len
                &&& final(self).prefill_template@ == new_prefill_template@
                &&& final(self).result_field@ == result_field_spec(new_prefill_template@)->0
            },
            !r ==> {
                &&& final(self).system_prompt_len == old(self).system_prompt_len
                &&& final(self).prefill_template@ == old(self).prefill_template@
                &&& final(self).result_field@ == old(self).result_field@
            },
    {
        match result_field_from_template(new_prefill_template) {
            Some(f) => {
                self.system_prompt_len = system_len;
                self.prefill_template = crate::chars::string_of(new_prefill_template);
                self.result_field = f;
                true
            },
            None => false,
        }
    }
}

// ───────────────────────────── reading the generated answer ─────────────────────────────

/// Why the generated text gave no refinement.
pub enum RefineFailure {
    /// The prefix and the generated text together are not JSON.
    JsonParse,
    /// The JSON has no string under the result field.
    MissingField,
    /// The refined text is blank.
    EmptyResult,
}

/// What the generated continuation yields: the prefix and the continuation
/// (without its end-of-turn markers, trimmed) form a JSON object whose
/// result field holds the refined text.
pub open spec fn refined_spec(prefix: Seq<char>, decoded: Seq<char>, field: Seq<char>) -> Result<
    Seq<char>,
    RefineFailure,
> {
    let full = prefix + trim(strip_suffixes(decoded, "<|im_end|>"@));
    match json_field_of(full, field) {
        JsonFieldView::Invalid => Err(RefineFailure::JsonParse),
        JsonFieldView::Str(s) => if trim(s).len() == 0 {
            Err(RefineFailure::EmptyResult)
        } else {
            Ok(s)
        },
        _ => Err(RefineFailure::MissingField),
    }
}

/// The second half of `try_refine`: the refined text in the model's continuation.
pub fn extract_refined(assistant_prefix: &str, decoded: &str, result_field: &str) -> (r: Result<
    String,
    RefineFailure,
>)
    ensures
        match r {
            Ok(s) => refined_spec(assistant_prefix@, decoded@, result_field@) == Ok::<
                Seq<char>,
                RefineFailure,
            >(s@),
            Err(e) => refined_spec(assistant_prefix@, decoded@, result_field@) == Err::<
                Seq<char>,
                RefineFailure,
            >(e),
        },
{
    let end = chars_of("<|im_end|>");
    let stripped = strip_suffixes_chars(chars_of(decoded).as_slice(), end.as_slice());
    let tail = trim_chars(stripped.as_slice());
    let mut full = chars_of(assistant_prefix);
    append_chars(&mut full, tail.as_slice());
    let fs = string_from_chars(full.as_slice());
    match json_field(fs.as_str(), result_field) {
        JsonField::Invalid => Err(RefineFailure::JsonParse),
        JsonField::Str(s) => {
            if trim_chars(chars_of(s.as_str()).as_slice()).len() == 0 {
                Err(RefineFailure::EmptyResult)
            } else {
                Ok(s)
            }
        },
        _ => Err(RefineFailure::MissingField),
    }
}

/// The first decision of `LlmEngine::refine`.
pub enum LlmStart {
    /// Answer with this text (the trimmed input) without running the model.
    Skip(String),
    /// Run the model on this text (the trimmed input).
    Refine(String),
}

/// `LlmEngine::refine` skips blank inputs and inputs of at most
/// `min_refine_length` characters; both answer with the trimmed input.
pub fn llm_refine_start(text: &str, min_refine_length: usize) -> (r: LlmStart)
    ensures
        trim(text@).len() <= min_refine_length ==> (r matches LlmStart::Skip(t) && t@ == trim(
            text@,
        )),
        trim(text@).len() > min_refine_length ==> (r matches LlmStart::Refine(t) && t@ == trim(
            text@,
        )),
{
    let t = trim_chars(chars_of(text).as_slice());
    let s = string_from_chars(t.as_slice());
    if t.len() <= min_refine_length {
        LlmStart::Skip(s)
    } else {
        LlmStart::Refine(s)
    }
}


/// The id of `<|im_end|>`, which ends the model's answer.
pub const EOS_TOKEN_ID: u32 = 151645;

/// What the generation loop does with the token the model chose.
pub enum GenStep {
    /// The answer is complete; the token is not kept.
    Finish,
    /// The token is kept and generation goes on.
    Continue,
    /// The token is kept, and the answer is now longer than allowed.
    TooLong,
}

/// One decision of `generate`: `<|im_end|>` finishes the answer; any other
/// token is kept, and after a decoding step (not the first token, which
/// comes from the prompt) an answer of more than `max_gen_tokens` tokens is
/// refused. `kept` is the number of tokens kept, this one included.
pub fn generation_step(token: u32, kept: usize, max_gen_tokens: Option<usize>, from_prompt: bool) -> (r: GenStep)
    ensures
        token == EOS_TOKEN_ID ==> r is Finish,
        token != EOS_TOKEN_ID && !from_prompt && (max_gen_tokens matches Some(m) && kept > m) ==> r is TooLong,
        token != EOS_TOKEN_ID && (from_prompt || !(max_gen_tokens matches Some(m) && kept > m)) ==> r is Continue,
{
    if token == EOS_TOKEN_ID {
        return GenStep::Finish;
    }
    if !from_prompt {
        match max_gen_tokens {
            Some(m) => {
                if kept > m {
                    return GenStep::TooLong;
                }
            },
            None => {},
        }
    }
    GenStep::Continue
}

} // verus!

verus! {

// ───────────────────────────── byte-level alphabet ─────────────────────────────

/// The bytes that stand for themselves in the byte-level alphabet.
pub open spec fn in_bs(b: int) -> bool {
    (33 <= b <= 126) || (161 <= b <= 172) || (174 <= b <= 255)
}

/// How many bytes below `b` do not stand for themselves.
pub open spec fn non_bs_below(b: int) -> int
    decreases b,
{
    if b <= 0 {
        0
    } else {
        non_bs_below(b - 1) + if in_bs(b - 1) {
            0int
        } else {
            1int
        }
    }
}

/// The code point that byte `b` is written as: itself, or `256 + n` for the
/// `n`-th byte that does not stand for itself.
pub open spec fn byte_cp(b: int) -> u32 {
    if in_bs(b) {
        b as u32
    } else {
        (256 + non_bs_below(b)) as u32
    }
}

/// The UTF-8 bytes of the character that byte `b` is written as (`bytes_to_unicode()[b]`).
pub open spec fn greek(b: int) -> Seq<u8> {
    vstd::utf8::encode_scalar(byte_cp(b))
}

proof fn lemma_non_bs_below_bound(b: int)
    requires
        0 <= b,
    ensures
        0 <= non_bs_below(b) <= b,
    decreases b,
{
    if b > 0 {
        lemma_non_bs_below_bound(b - 1);
    }
}

/// The UTF-8 encoding of a Unicode scalar value.
pub fn encode_scalar_exec(cp: u32) -> (r: Vec<u8>)
    requires
        vstd::utf8::is_scalar(cp),
    ensures
        r@ == vstd::utf8::encode_scalar(cp),
{
    let mut r: Vec<u8> = Vec::new();
    if cp <= 0x7F {
        r.push((cp & 0x7F) as u8);
    } else if cp <= 0x7FF {
        r.push(0xC0 | ((cp >> 6) & 0x1F) as u8);
        r.push(0x80 | (cp & 0x3F) as u8);
    } else if cp <= 0xFFFF {
        r.push(0xE0 | ((cp >> 12) & 0x0F) as u8);
        r.push(0x80 | ((cp >> 6) & 0x3F) as u8);
        r.push(0x80 | (cp & 0x3F) as u8);
    } else {
        r.push(0xF0 | ((cp >> 18) & 0x7) as u8);
        r.push(0x80 | ((cp >> 12) & 0x3F) as u8);
        r.push(0x80 | ((cp >> 6) & 0x3F) as u8);
        r.push(0x80 | (cp & 0x3F) as u8);
    }
    proof {
        assert(r@ =~= vstd::utf8::encode_scalar(cp));
    }
    r
}

fn in_bs_exec(b: u32) -> (r: bool)
    ensures
        r == in_bs(b as int),
{
    (33 <= b && b <= 126) || (161 <= b && b <= 172) || (174 <= b && b <= 255)
}

/// The byte-level alphabet of GPT-2 style BPE: for each byte, the UTF-8
/// bytes of the character it is written as.
pub fn bytes_to_unicode() -> (table: Vec<Vec<u8>>)
    ensures
        table@.len() == 256,
        forall|b: int| 0 <= b < 256 ==> #[trigger] table@[b]@ == greek(b),
{
    let mut table: Vec<Vec<u8>> = Vec::new();
    let mut n: u32 = 0;
    let mut b: u32 = 0;
    while b < 256
        invariant
            b <= 256,
            n as int == non_bs_below(b as int),
            table@.len() == b,
            forall|x: int| 0 <= x < b ==> #[trigger] table@[x]@ == greek(x),
        decreases 256 - b,
    {
        proof {
            lemma_non_bs_below_bound(b as int);
        }
        let cp = if in_bs_exec(b) {
            b
        } else {
            256 + n
        };
        let enc = encode_scalar_exec(cp);
        table.push(enc);
        if !in_bs_exec(b) {
            n = n + 1;
        }
        b = b + 1;
    }
    table
}

// ───────────────────────────── pre-tokenization ─────────────────────────────

/// Characters that extend a word: ASCII letters and everything beyond ASCII.
pub open spec fn is_word_char(c: char) -> bool {
    ('a' <= c && c <= 'z') || ('A' <= c && c <= 'Z') || (c as u32) > 127
}

pub open spec fn is_digit(c: char) -> bool {
    '0' <= c && c <= '9'
}

/// Number of leading ASCII digits of `s`.
pub open spec fn digit_run(s: Seq<char>) -> nat
    decreases s.len(),
{
    if s.len() > 0 && is_digit(s[0]) {
        1 + digit_run(s.drop_first())
    } else {
        0
    }
}

pub open spec fn flush(cur: Seq<char>) -> Seq<Seq<char>> {
    if cur.len() > 0 {
        seq![cur]
    } else {
        Seq::empty()
    }
}

/// The pieces of `s`, given the word `cur` being collected: runs of word
/// characters, runs of digits, and every other character alone.
pub open spec fn split_from(s: Seq<char>, cur: Seq<char>) -> Seq<Seq<char>>
    decreases s.len(),
{
    if s.len() == 0 {
        flush(cur)
    } else if is_word_char(s[0]) {
        split_from(s.drop_first(), cur.push(s[0]))
    } else if is_digit(s[0]) {
        let k = digit_run(s);
        if 0 < k <= s.len() {
            flush(cur) + seq![s.subrange(0, k as int)] + split_from(s.subrange(k as int, s.len() as int), Seq::empty())
        } else {
            flush(cur)
        }
    } else {
        flush(cur) + seq![seq![s[0]]] + split_from(s.drop_first(), Seq::empty())
    }
}

/// The pre-tokenization of `regex_split`.
pub open spec fn regex_split_spec(s: Seq<char>) -> Seq<Seq<char>> {
    split_from(s, Seq::empty())
}

proof fn lemma_digit_run(s: Seq<char>, k: int)
    requires
        0 <= k <= s.len(),
        forall|j: int| 0 <= j < k ==> is_digit(#[trigger] s[j]),
        k == s.len() || !is_digit(s[k]),
    ensures
        digit_run(s) == k,
    decreases s.len(),
{
    if k > 0 {
        assert forall|j: int| 0 <= j < k - 1 implies is_digit(#[trigger] s.drop_first()[j]) by {
            assert(s.drop_first()[j] == s[j + 1]);
        }
        if k < s.len() {
            assert(s.drop_first()[k - 1] == s[k]);
        }
        lemma_digit_run(s.drop_first(), k - 1);
    }
}

/// A piece that `regex_split` can give: a run of word characters, a run of
/// digits, or one other character.
pub open spec fn split_piece(w: Seq<char>) -> bool {
    &&& w.len() > 0
    &&& {
        ||| (forall|i: int| 0 <= i < w.len() ==> is_word_char(#[trigger] w[i]))
        ||| (forall|i: int| 0 <= i < w.len() ==> is_digit(#[trigger] w[i]))
        ||| (w.len() == 1 && !is_word_char(w[0]) && !is_digit(w[0]))
    }
}

proof fn lemma_digit_run_facts(s: Seq<char>)
    ensures
        digit_run(s) <= s.len(),
        forall|j: int| 0 <= j < digit_run(s) ==> is_digit(#[trigger] s[j]),
    decreases s.len(),
{
    if s.len() > 0 && is_digit(s[0]) {
        lemma_digit_run_facts(s.drop_first());
        assert forall|j: int| 0 <= j < digit_run(s) implies is_digit(#[trigger] s[j]) by {
            if j > 0 {
                assert(s[j] == s.drop_first()[j - 1]);
            }
        }
    }
}

proof fn lemma_split_word_run(s: Seq<char>, cur: Seq<char>)
    requires
        forall|i: int| 0 <= i < s.len() ==> is_word_char(#[trigger] s[i]),
    ensures
        split_from(s, cur) == flush(cur + s),
    decreases s.len(),
{
    if s.len() > 0 {
        assert(is_word_char(s[0]));
        assert forall|i: int| 0 <= i < s.drop_first().len() implies is_word_char(#[trigger] s.drop_first()[i]) by {
            assert(s.drop_first()[i] == s[i + 1]);
        }
        lemma_split_word_run(s.drop_first(), cur.push(s[0]));
        assert(cur.push(s[0]) + s.drop_first() =~= cur + s);
    } else {
        assert(cur + s =~= cur);
    }
}

/// Every piece of the pre-tokenization is a word run, a digit run or one
/// other character.
pub proof fn lemma_split_pieces(s: Seq<char>, cur: Seq<char>)
    requires
        forall|i: int| 0 <= i < cur.len() ==> is_word_char(#[trigger] cur[i]),
    ensures
        forall|i: int| 0 <= i < split_from(s, cur).len() ==> split_piece(#[trigger] split_from(s, cur)[i]),
    decreases s.len(),
{
    let e = Seq::<char>::empty();
    if s.len() == 0 {
        if cur.len() > 0 {
            assert(split_from(s, cur) == seq![cur]);
            assert(split_piece(cur));
        }
    } else if is_word_char(s[0]) {
        let c2 = cur.push(s[0]);
        assert forall|i: int| 0 <= i < c2.len() implies is_word_char(#[trigger] c2[i]) by {
            if i < cur.len() {
                assert(c2[i] == cur[i]);
            }
        }
        lemma_split_pieces(s.drop_first(), c2);
        assert(split_from(s, cur) == split_from(s.drop_first(), c2));
    } else if is_digit(s[0]) {
        lemma_digit_run_facts(s);
        let k = digit_run(s);
        assert(k > 0);
        let run = s.subrange(0, k as int);
        let rest = s.subrange(k as int, s.len() as int);
        lemma_split_pieces(rest, e);
        let r = split_from(s, cur);
        assert(r == flush(cur) + seq![run] + split_from(rest, e));
        assert forall|i: int| 0 <= i < r.len() implies split_piece(#[trigger] r[i]) by {
            let f = flush(cur);
            if i < f.len() {
                assert(r[i] == cur);
            } else if i == f.len() {
                assert(r[i] == run);
                assert forall|j: int| 0 <= j < run.len() implies is_digit(#[trigger] run[j]) by {
                    assert(run[j] == s[j]);
                }
            } else {
                assert(r[i] == split_from(rest, e)[i - f.len() - 1]);
            }
        }
    } else {
        let rest = s.drop_first();
        lemma_split_pieces(rest, e);
        let r = split_from(s, cur);
        let one = seq![s[0]];
        assert(r == flush(cur) + seq![one] + split_from(rest, e));
        assert forall|i: int| 0 <= i < r.len() implies split_piece(#[trigger] r[i]) by {
            let f = flush(cur);
            if i < f.len() {
                assert(r[i] == cur);
            } else if i == f.len() {
                assert(r[i] == one);
            } else {
                assert(r[i] == split_from(rest, e)[i - f.len() - 1]);
            }
        }
    }
}

/// Splitting a piece again gives the piece itself.
pub proof fn lemma_split_piece_self(w: Seq<char>)
    requires
        split_piece(w),
    ensures
        regex_split_spec(w) == seq![w],
{
    let e = Seq::<char>::empty();
    if forall|i: int| 0 <= i < w.len() ==> is_word_char(#[trigger] w[i]) {
        lemma_split_word_run(w, e);
        assert(e + w =~= w);
    } else if forall|i: int| 0 <= i < w.len() ==> is_digit(#[trigger] w[i]) {
        assert(!is_word_char(w[0]));
        lemma_digit_run(w, w.len() as int);
        assert(w.subrange(0, w.len() as int) =~= w);
        assert(w.subrange(w.len() as int, w.len() as int) =~= e);
        assert(split_from(e, e) =~= Seq::<Seq<char>>::empty());
        assert(regex_split_spec(w) =~= seq![w]);
    } else {
        assert(w.drop_first() =~= e);
        assert(seq![w[0]] =~= w);
        assert(split_from(e, e) =~= Seq::<Seq<char>>::empty());
        assert(regex_split_spec(w) =~= seq![w]);
    }
}

/// Splits `text` into words, digit runs and single other characters, as the
/// tokenizer's pre-tokenizer does.
pub fn regex_split_chars(text: &[char]) -> (r: Vec<Vec<char>>)
    ensures
        crate::chars::views(r@) == regex_split_spec(text@),
{
    let mut result: Vec<Vec<char>> = Vec::new();
    let mut current: Vec<char> = Vec::new();
    let mut i: usize = 0;
    proof {
        assert(text@.subrange(0, text@.len() as int) =~= text@);
        assert(crate::chars::views(result@) =~= Seq::<Seq<char>>::empty());
        assert(Seq::<Seq<char>>::empty() + regex_split_spec(text@) =~= regex_split_spec(text@));
    }
    while i < text.len()
        invariant
            i <= text@.len(),
            crate::chars::views(result@) + split_from(text@.subrange(i as int, text@.len() as int), current@)
                == regex_split_spec(text@),
        decreases text@.len() - i,
    {
        let ghost rest = text@.subrange(i as int, text@.len() as int);
        let ghost before = crate::chars::views(result@);
        let ghost cur0 = current@;
        let c = text[i];
        if ('a' <= c && c <= 'z') || ('A' <= c && c <= 'Z') || (c as u32) > 127 {
            current.push(c);
            proof {
                assert(rest.drop_first() =~= text@.subrange(i + 1, text@.len() as int));
            }
            i = i + 1;
            continue;
        }
        if current.len() > 0 {
            let w = current;
            current = Vec::new();
            result.push(w);
            proof {
                assert(crate::chars::views(result@) =~= before + flush(cur0));
            }
        } else {
            proof {
                assert(crate::chars::views(result@) =~= before + flush(cur0));
            }
        }
        let ghost mid = crate::chars::views(result@);
        if '0' <= c && c <= '9' {
            let mut j = i + 1;
            while j < text.len() && '0' <= text[j] && text[j] <= '9'
                invariant
                    i < j <= text@.len(),
                    forall|x: int| i <= x < j ==> is_digit(#[trigger] text@[x]),
                decreases text@.len() - j,
            {
                j = j + 1;
            }
            proof {
                assert forall|x: int| 0 <= x < j - i implies is_digit(#[trigger] rest[x]) by {
                    assert(rest[x] == text@[x + i]);
                }
                if j < text@.len() {
                    assert(rest[j - i] == text@[j as int]);
                }
                lemma_digit_run(rest, j - i);
                assert(rest.subrange(0, j - i) =~= text@.subrange(i as int, j as int));
                assert(rest.subrange(j - i, rest.len() as int) =~= text@.subrange(j as int, text@.len() as int));
            }
            let num = crate::chars::slice_chars(text, i, j);
            result.push(num);
            proof {
                assert(crate::chars::views(result@) =~= mid.push(num@));
                assert(current@ =~= Seq::<char>::empty());
            }
            i = j;
        } else {
            let mut single: Vec<char> = Vec::new();
            single.push(c);
            result.push(single);
            proof {
                assert(crate::chars::views(result@) =~= mid.push(seq![c]));
                assert(rest.drop_first() =~= text@.subrange(i + 1, text@.len() as int));
                assert(current@ =~= Seq::<char>::empty());
            }
            i = i + 1;
        }
    }
    if current.len() > 0 {
        let ghost before = crate::chars::views(result@);
        result.push(current);
        proof {
            assert(crate::chars::views(result@) =~= before.push(current@));
        }
    }
    proof {
        assert(text@.subrange(i as int, text@.len() as int) =~= Seq::<char>::empty());
    }
    result
}

/// `regex_split`: the pre-tokenization of a text.
pub fn regex_split(text: &str) -> (r: Vec<String>)
    ensures
        crate::engine::correction::strings_view(r@) == regex_split_spec(text@),
{
    let pieces = regex_split_chars(chars_of(text).as_slice());
    let mut r: Vec<String> = Vec::new();
    let mut i: usize = 0;
    while i < pieces.len()
        invariant
            i <= pieces@.len(),
            r@.len() == i,
            crate::engine::correction::strings_view(r@) == crate::chars::views(pieces@).take(i as int),
        decreases pieces@.len() - i,
    {
        let s = string_from_chars(pieces[i].as_slice());
        let ghost before = r@;
        r.push(s);
        proof {
            assert(r@ == before.push(s));
            assert(s@ == pieces@[i as int]@);
            let sv = crate::engine::correction::strings_view(r@);
            let pv = crate::chars::views(pieces@).take(i + 1);
            let bv = crate::engine::correction::strings_view(before);
            assert forall|j: int| 0 <= j < i + 1 implies sv[j] == pv[j] by {
                if j < i {
                    assert(sv[j] == r@[j]@);
                    assert(r@[j] == before[j]);
                    assert(bv[j] == before[j]@);
                    assert(bv[j] == crate::chars::views(pieces@).take(i as int)[j]);
                }
            }
            assert(crate::engine::correction::strings_view(r@) =~= crate::chars::views(pieces@).take(i + 1));
        }
        i = i + 1;
    }
    proof {
        assert(crate::chars::views(pieces@).take(i as int) =~= crate::chars::views(pieces@));
    }
    r
}

} // verus!
