//! Reading `tokenizer.json`: the vocabulary, the merges, the added tokens and
//! the byte-fallback flag, and the tokenizer built from them.

use vstd::prelude::*;

use crate::engine::bpe::{
    added_ids_of, added_view, ids_of_pairs, map_of_pairs, merge_ranks, specials_of, vocab_pairs, vocab_view,
    BpeTokenizer,
};
use crate::engine::bpe_roundtrip::lossless_vocab;
use crate::json::{
    entries_view, json_member, json_opt_view, json_value_of, member_of, parse_json_value, JsonValue,
    JsonValueView,
};

verus! {

/// Why `tokenizer.json` could not be read.
#[derive(Debug, PartialEq, Eq, Structural)]
pub enum TokenizerJsonError {
    /// The text is not JSON.
    Parse,
    /// `model.vocab` is not an object.
    MissingVocab,
    /// An id of `model.vocab` is not a non-negative integer.
    InvalidVocabId,
    /// `model.merges` is not an array.
    MissingMerges,
    /// An element of `model.merges` is not a string.
    InvalidMerge,
}

impl TokenizerJsonError {
    /// The text of the error, as the caller reports it.
    pub fn message(&self) -> (r: String)
        ensures
            r@ == tokenizer_error_text(*self),
    {
        match self {
            TokenizerJsonError::Parse => crate::chars::string_of("Failed to parse tokenizer.json"),
            TokenizerJsonError::MissingVocab => crate::chars::string_of("Missing vocab in tokenizer.json"),
            TokenizerJsonError::InvalidVocabId => crate::chars::string_of("Invalid vocab id"),
            TokenizerJsonError::MissingMerges => crate::chars::string_of("Missing merges in tokenizer.json"),
            TokenizerJsonError::InvalidMerge => crate::chars::string_of("Invalid merge"),
        }
    }
}

pub open spec fn tokenizer_error_text(e: TokenizerJsonError) -> Seq<char> {
    match e {
        TokenizerJsonError::Parse => "Failed to parse tokenizer.json"@,
        TokenizerJsonError::MissingVocab => "Missing vocab in tokenizer.json"@,
        TokenizerJsonError::InvalidVocabId => "Invalid vocab id"@,
        TokenizerJsonError::MissingMerges => "Missing merges in tokenizer.json"@,
        TokenizerJsonError::InvalidMerge => "Invalid merge"@,
    }
}

/// The parts of `tokenizer.json` that the tokenizer is built from.
pub struct TokenizerParts {
    /// `model.vocab`: each token with its id, in the map's order.
    pub vocab: Vec<(String, u64)>,
    /// `model.merges`, in order.
    pub merges: Vec<String>,
    /// `added_tokens`: the id and content of each entry that has both.
    pub added: Vec<(u64, String)>,
    /// `model.byte_fallback`, false unless it is `true`.
    pub byte_fallback: bool,
}

pub struct TokenizerPartsView {
    pub vocab: Seq<(Seq<char>, u64)>,
    pub merges: Seq<Seq<char>>,
    pub added: Seq<(u64, Seq<char>)>,
    pub byte_fallback: bool,
}

pub open spec fn strings_seq_view(v: Seq<String>) -> Seq<Seq<char>> {
    v.map_values(|m: String| m@)
}

impl View for TokenizerParts {
    type V = TokenizerPartsView;

    open spec fn view(&self) -> TokenizerPartsView {
        TokenizerPartsView {
            vocab: vocab_view(self.vocab@),
            merges: strings_seq_view(self.merges@),
            added: added_view(self.added@),
            byte_fallback: self.byte_fallback,
        }
    }
}

/// The vocabulary entries with their ids; none when some value is not an
/// integer that fits in `u64`.
pub open spec fn vocab_ids(es: Seq<(Seq<char>, Seq<char>)>) -> Option<Seq<(Seq<char>, u64)>>
    decreases es.len(),
{
    if es.len() == 0 {
        Some(Seq::empty())
    } else {
        match vocab_ids(es.drop_last()) {
            None => None,
            Some(prev) => match json_value_of(es.last().1) {
                Some(JsonValueView::U64(n)) => Some(prev.push((es.last().0, n))),
                _ => None,
            },
        }
    }
}

/// The merge lines; none when some element is not a string.
pub open spec fn merge_strs(ts: Seq<Seq<char>>) -> Option<Seq<Seq<char>>>
    decreases ts.len(),
{
    if ts.len() == 0 {
        Some(Seq::empty())
    } else {
        match merge_strs(ts.drop_last()) {
            None => None,
            Some(prev) => match json_value_of(ts.last()) {
                Some(JsonValueView::Str(m)) => Some(prev.push(m)),
                _ => None,
            },
        }
    }
}

/// An added token: its `id` (an integer that fits in `u64`) and its
/// `content` (a string), when it has both.
pub open spec fn added_entry(t: Seq<char>) -> Option<(u64, Seq<char>)> {
    let v = json_value_of(t);
    match (json_member(v, "id"@), json_member(v, "content"@)) {
        (Some(JsonValueView::U64(id)), Some(JsonValueView::Str(c))) => Some((id, c)),
        _ => None,
    }
}

/// The added tokens that have both an id and a content, in order.
pub open spec fn added_list(ts: Seq<Seq<char>>) -> Seq<(u64, Seq<char>)>
    decreases ts.len(),
{
    if ts.len() == 0 {
        Seq::empty()
    } else {
        let prev = added_list(ts.drop_last());
        match added_entry(ts.last()) {
            Some(e) => prev.push(e),
            None => prev,
        }
    }
}

/// What `tokenizer.json` holds for the tokenizer, or why it cannot be read:
/// the text must be JSON, `model.vocab` an object of ids, `model.merges` an
/// array of strings; `added_tokens` (when an array) contributes its entries
/// that have an id and a content; `model.byte_fallback` counts only when it
/// is a boolean.
pub open spec fn tokenizer_parts_spec(text: Seq<char>) -> Result<TokenizerPartsView, TokenizerJsonError> {
    let root = json_value_of(text);
    if root is None {
        Err(TokenizerJsonError::Parse)
    } else {
        let model = json_member(root, "model"@);
        match json_member(model, "vocab"@) {
            Some(JsonValueView::Object(es)) => match vocab_ids(es) {
                None => Err(TokenizerJsonError::InvalidVocabId),
                Some(vocab) => match json_member(model, "merges"@) {
                    Some(JsonValueView::Array(ts)) => match merge_strs(ts) {
                        None => Err(TokenizerJsonError::InvalidMerge),
                        Some(merges) => Ok(
                            TokenizerPartsView {
                                vocab,
                                merges,
                                added: match json_member(root, "added_tokens"@) {
                                    Some(JsonValueView::Array(ts2)) => added_list(ts2),
                                    _ => Seq::empty(),
                                },
                                byte_fallback: match json_member(model, "byte_fallback"@) {
                                    Some(JsonValueView::Bool(b)) => b,
                                    _ => false,
                                },
                            },
                        ),
                    },
                    _ => Err(TokenizerJsonError::MissingMerges),
                },
            },
            _ => Err(TokenizerJsonError::MissingVocab),
        }
    }
}

proof fn lemma_vocab_ids_none(es: Seq<(Seq<char>, Seq<char>)>, n: int)
    requires
        0 <= n <= es.len(),
        vocab_ids(es.take(n)) is None,
    ensures
        vocab_ids(es) is None,
    decreases es.len() - n,
{
    if n < es.len() {
        assert(es.take(n + 1).drop_last() =~= es.take(n));
        lemma_vocab_ids_none(es, n + 1);
    } else {
        assert(es.take(n) =~= es);
    }
}

proof fn lemma_merge_strs_none(ts: Seq<Seq<char>>, n: int)
    requires
        0 <= n <= ts.len(),
        merge_strs(ts.take(n)) is None,
    ensures
        merge_strs(ts) is None,
    decreases ts.len() - n,
{
    if n < ts.len() {
        assert(ts.take(n + 1).drop_last() =~= ts.take(n));
        lemma_merge_strs_none(ts, n + 1);
    } else {
        assert(ts.take(n) =~= ts);
    }
}

/// The vocabulary entries of `model.vocab` with their ids.
fn vocab_entries(es: &Vec<(String, String)>) -> (r: Option<Vec<(String, u64)>>)
    ensures
        match r {
            Some(v) => vocab_ids(entries_view(es@)) == Some(vocab_view(v@)),
            None => vocab_ids(entries_view(es@)) is None,
        },
{
    let ghost ev = entries_view(es@);
    let mut out: Vec<(String, u64)> = Vec::new();
    let mut i: usize = 0;
    proof {
        assert(ev.take(0) =~= Seq::<(Seq<char>, Seq<char>)>::empty());
        assert(vocab_view(out@) =~= Seq::<(Seq<char>, u64)>::empty());
    }
    while i < es.len()
        invariant
            i <= es@.len(),
            ev == entries_view(es@),
            vocab_ids(ev.take(i as int)) == Some(vocab_view(out@)),
        decreases es@.len() - i,
    {
        let ghost before = out@;
        proof {
            assert(ev.take(i + 1).drop_last() =~= ev.take(i as int));
            assert(ev.take(i + 1).last() == ev[i as int]);
            assert(ev[i as int] == (es@[i as int].0@, es@[i as int].1@));
        }
        match parse_json_value(es[i].1.as_str()) {
            Some(JsonValue::U64(n)) => {
                out.push((crate::chars::string_of(es[i].0.as_str()), n));
                proof {
                    assert(vocab_view(out@) =~= vocab_view(before).push((es@[i as int].0@, n)));
                }
            },
            _ => {
                proof {
                    lemma_vocab_ids_none(ev, i + 1);
                }
                return None;
            },
        }
        i = i + 1;
    }
    proof {
        assert(ev.take(i as int) =~= ev);
    }
    Some(out)
}

/// The merge lines of `model.merges`.
fn merge_entries(ts: &Vec<String>) -> (r: Option<Vec<String>>)
    ensures
        match r {
            Some(v) => merge_strs(strings_seq_view(ts@)) == Some(strings_seq_view(v@)),
            None => merge_strs(strings_seq_view(ts@)) is None,
        },
{
    let ghost tv = strings_seq_view(ts@);
    let mut out: Vec<String> = Vec::new();
    let mut i: usize = 0;
    proof {
        assert(tv.take(0) =~= Seq::<Seq<char>>::empty());
        assert(strings_seq_view(out@) =~= Seq::<Seq<char>>::empty());
    }
    while i < ts.len()
        invariant
            i <= ts@.len(),
            tv == strings_seq_view(ts@),
            merge_strs(tv.take(i as int)) == Some(strings_seq_view(out@)),
        decreases ts@.len() - i,
    {
        let ghost before = out@;
        proof {
            assert(tv.take(i + 1).drop_last() =~= tv.take(i as int));
            assert(tv.take(i + 1).last() == ts@[i as int]@);
        }
        match parse_json_value(ts[i].as_str()) {
            Some(JsonValue::Str(m)) => {
                let ghost mv = m@;
                out.push(m);
                proof {
                    assert(strings_seq_view(out@) =~= strings_seq_view(before).push(mv));
                }
            },
            _ => {
                proof {
                    lemma_merge_strs_none(tv, i + 1);
                }
                return None;
            },
        }
        i = i + 1;
    }
    proof {
        assert(tv.take(i as int) =~= tv);
    }
    Some(out)
}

/// One entry of `added_tokens`, when it has an id and a content.
fn added_entry_of(t: &str) -> (r: Option<(u64, String)>)
    ensures
        match r {
            Some((id, c)) => added_entry(t@) == Some((id, c@)),
            None => added_entry(t@) is None,
        },
{
    let v = parse_json_value(t);
    let id = member_of(&v, "id");
    let content = member_of(&v, "content");
    proof {
        reveal_strlit("id");
        reveal_strlit("content");
    }
    match (id, content) {
        (Some(JsonValue::U64(n)), Some(JsonValue::Str(c))) => Some((n, c)),
        _ => None,
    }
}

/// The entries of `added_tokens` that have an id and a content.
fn added_entries(ts: &Vec<String>) -> (r: Vec<(u64, String)>)
    ensures
        added_view(r@) == added_list(strings_seq_view(ts@)),
{
    let ghost tv = strings_seq_view(ts@);
    let mut out: Vec<(u64, String)> = Vec::new();
    let mut i: usize = 0;
    proof {
        assert(tv.take(0) =~= Seq::<Seq<char>>::empty());
        assert(added_view(out@) =~= Seq::<(u64, Seq<char>)>::empty());
    }
    while i < ts.len()
        invariant
            i <= ts@.len(),
            tv == strings_seq_view(ts@),
            added_list(tv.take(i as int)) == added_view(out@),
        decreases ts@.len() - i,
    {
        let ghost before = out@;
        proof {
            assert(tv.take(i + 1).drop_last() =~= tv.take(i as int));
            assert(tv.take(i + 1).last() == ts@[i as int]@);
        }
        match added_entry_of(ts[i].as_str()) {
            Some(e) => {
                out.push(e);
                proof {
                    assert(added_view(out@) =~= added_view(before).push((e.0, e.1@)));
                }
            },
            None => {},
        }
        i = i + 1;
    }
    proof {
        assert(tv.take(i as int) =~= tv);
    }
    out
}

/// Reads the parts of `tokenizer.json` from its text (`tokenizer_parts_spec`).
pub fn tokenizer_parts(text: &str) -> (r: Result<TokenizerParts, TokenizerJsonError>)
    ensures
        match r {
            Ok(p) => tokenizer_parts_spec(text@) == Ok::<TokenizerPartsView, TokenizerJsonError>(p@),
            Err(e) => tokenizer_parts_spec(text@) == Err::<TokenizerPartsView, TokenizerJsonError>(e),
        },
{
    proof {
        reveal_strlit("model");
        reveal_strlit("vocab");
        reveal_strlit("merges");
        reveal_strlit("added_tokens");
        reveal_strlit("byte_fallback");
    }
    let root = parse_json_value(text);
    if root.is_none() {
        return Err(TokenizerJsonError::Parse);
    }
    let model = member_of(&root, "model");
    let vocab = match member_of(&model, "vocab") {
        Some(JsonValue::Object(es)) => match vocab_entries(&es) {
            Some(v) => v,
            None => return Err(TokenizerJsonError::InvalidVocabId),
        },
        _ => return Err(TokenizerJsonError::MissingVocab),
    };
    let merges = match member_of(&model, "merges") {
        Some(JsonValue::Array(ts)) => match merge_entries(&ts) {
            Some(m) => m,
            None => return Err(TokenizerJsonError::InvalidMerge),
        },
        _ => return Err(TokenizerJsonError::MissingMerges),
    };
    let added = match member_of(&root, "added_tokens") {
        Some(JsonValue::Array(ts)) => added_entries(&ts),
        _ => Vec::new(),
    };
    let byte_fallback = match member_of(&model, "byte_fallback") {
        Some(JsonValue::Bool(b)) => b,
        _ => false,
    };
    let p = TokenizerParts { vocab, merges, added, byte_fallback };
    proof {
        assert(added_view(Seq::<(u64, String)>::empty()) =~= Seq::<(u64, Seq<char>)>::empty());
    }
    Ok(p)
}

/// Builds the tokenizer from the text of `tokenizer.json` (`from_tokenizer_json`),
/// and tells whether decoding inverts its vocabulary.
pub fn tokenizer_from_json(text: &str) -> (r: Result<(BpeTokenizer, bool), TokenizerJsonError>)
    ensures
        match tokenizer_parts_spec(text@) {
            Err(e) => r == Err::<(BpeTokenizer, bool), TokenizerJsonError>(e),
            Ok(p) => r matches Ok((t, ok)) && {
                &&& t.wf()
                &&& t.vocab_map() == map_of_pairs(vocab_pairs(p.vocab, p.added))
                &&& t.id_map() == ids_of_pairs(vocab_pairs(p.vocab, p.added))
                &&& t.rank_map() == merge_ranks(p.merges)
                &&& t.specials() == specials_of(p.added)
                &&& t.added_ids() == added_ids_of(p.added)
                &&& t.byte_fallback() == p.byte_fallback
                &&& ok == lossless_vocab(t.vocab_map(), t.id_map(), t.rank_map(), t.added_ids(), t.byte_fallback())
            },
        },
{
    match tokenizer_parts(text) {
        Err(e) => Err(e),
        Ok(p) => {
            let r = BpeTokenizer::from_parts_checked(&p.vocab, &p.merges, &p.added, p.byte_fallback);
            proof {
                assert(p.merges@.map_values(|m: String| m@) == strings_seq_view(p.merges@));
            }
            Ok(r)
        },
    }
}

} // verus!
