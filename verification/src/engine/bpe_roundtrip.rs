//! Encoding followed by decoding gives the text back, for a vocabulary in
//! which every piece that encoding can produce has an id that decodes to it.

use vstd::prelude::*;
use vstd::utf8::encode_utf8;

use crate::engine::bpe::{
    best_in, best_prefix, bpe, byte_level_decode, byte_token, decode_buf, decode_chars, decode_ids,
    earliest_in, encode_special_text, encode_text, encode_word, find_seq, greek_char, greek_keys, greek_text,
    ids_of, initial_pieces, key_lookup, lemma_best_in_bound, lemma_byte_level_roundtrip,
    lemma_decode_greek_text, lemma_earliest_in_bound, lemma_find_seq_bound, lemma_greek_char,
    lemma_key_lookup_char, lemma_key_lookup_long, lemma_non_bs_below_mono, lemma_pieces_flatten, lossy_text,
    merge_at, pair_key, rank_of, token_piece,
};
use crate::engine::llm::{
    byte_cp, digit_run, flush, greek, in_bs, is_digit, is_word_char, non_bs_below, regex_split_spec, split_from,
};
use vstd::utf8::encode_scalar;

verus! {

/// Every piece of `t` has an id.
pub open spec fn all_in(t: Seq<Seq<u8>>, vocab: Map<Seq<u8>, u32>) -> bool {
    forall|i: int| 0 <= i < t.len() ==> vocab.contains_key(#[trigger] t[i])
}

/// A vocabulary that decoding inverts: every character of the byte-level
/// alphabet is a token, every merge yields a token, the id of each token
/// decodes to the token, and under byte fallback no token that spells
/// `<0xNN>` is decoded as a byte (unless it is an added token).
pub open spec fn lossless_vocab(
    vocab: Map<Seq<u8>, u32>,
    ids: Map<u32, Seq<u8>>,
    ranks: Map<Seq<u8>, usize>,
    added: Set<u32>,
    fallback: bool,
) -> bool {
    &&& forall|b: int| 0 <= b < 256 ==> vocab.contains_key(#[trigger] greek(b))
    &&& forall|a: Seq<u8>, c: Seq<u8>| #[trigger] ranks.contains_key(pair_key(a, c)) ==> vocab.contains_key(a + c)
    &&& forall|p: Seq<u8>| #[trigger] vocab.contains_key(p) ==> ids.contains_key(vocab[p]) && ids[vocab[p]] == p
    &&& fallback ==> forall|p: Seq<u8>| #[trigger] vocab.contains_key(p) ==> (byte_token(p) is None || added.contains(vocab[p]))
}

proof fn lemma_best_in_rank(t: Seq<Seq<u8>>, ranks: Map<Seq<u8>, usize>, n: int)
    requires
        n < t.len(),
    ensures
        best_in(t, ranks, n) matches Some((i, r)) ==> rank_of(ranks, t[i], t[i + 1]) == Some(r),
    decreases n,
{
    if n > 0 {
        lemma_best_in_rank(t, ranks, n - 1);
    }
}

proof fn lemma_flatten_one<A>(x: Seq<A>)
    ensures
        seq![x].flatten() == x,
{
    seq![x].lemma_flatten_singleton();
}

proof fn lemma_merge_flatten(t: Seq<Seq<u8>>, i: int)
    requires
        0 <= i < t.len() - 1,
    ensures
        merge_at(t, i).flatten() == t.flatten(),
{
    let a = t.subrange(0, i);
    let b = t.subrange(i + 2, t.len() as int);
    let x = t[i];
    let y = t[i + 1];
    assert(t =~= a + seq![x, y] + b);
    vstd::seq_lib::lemma_flatten_concat(a + seq![x, y], b);
    vstd::seq_lib::lemma_flatten_concat(a, seq![x, y]);
    vstd::seq_lib::lemma_flatten_concat(a + seq![x + y], b);
    vstd::seq_lib::lemma_flatten_concat(a, seq![x + y]);
    assert(seq![x, y].flatten() =~= x + y) by {
        lemma_flatten_one(x);
        assert(seq![x].push(y) =~= seq![x, y]);
        seq![x].lemma_flatten_push(y);
    }
    lemma_flatten_one(x + y);
    assert(a.flatten() + (x + y) + b.flatten() =~= a.flatten() + x + y + b.flatten());
}

/// Merging keeps the bytes of a word, and only makes pieces that are tokens.
proof fn lemma_bpe_keeps(t: Seq<Seq<u8>>, vocab: Map<Seq<u8>, u32>, ranks: Map<Seq<u8>, usize>)
    requires
        all_in(t, vocab),
        forall|a: Seq<u8>, c: Seq<u8>| #[trigger] ranks.contains_key(pair_key(a, c)) ==> vocab.contains_key(a + c),
    ensures
        all_in(bpe(t, ranks), vocab),
        bpe(t, ranks).flatten() == t.flatten(),
    decreases t.len(),
{
    if t.len() >= 2 {
        lemma_best_in_bound(t, ranks, t.len() - 1);
        lemma_best_in_rank(t, ranks, t.len() - 1);
        match best_in(t, ranks, t.len() - 1) {
            Some((i, r)) => {
                if 0 <= i < t.len() - 1 {
                    let m = merge_at(t, i);
                    assert(ranks.contains_key(pair_key(t[i], t[i + 1])));
                    assert(vocab.contains_key(t[i] + t[i + 1]));
                    assert forall|j: int| 0 <= j < m.len() implies vocab.contains_key(#[trigger] m[j]) by {
                        if j < i {
                            assert(m[j] == t[j]);
                        } else if j == i {
                            assert(m[j] == t[i] + t[i + 1]);
                        } else {
                            assert(m[j] == t[j + 1]);
                        }
                    }
                    lemma_merge_flatten(t, i);
                    lemma_bpe_keeps(m, vocab, ranks);
                }
            },
            None => {},
        }
    }
}

proof fn lemma_decode_buf_push(s: Seq<u32>, id: u32, ids: Map<u32, Seq<u8>>, added: Set<u32>, fallback: bool)
    ensures
        decode_buf(s.push(id), ids, added, fallback) == decode_buf(s, ids, added, fallback) + token_piece(id, ids, added, fallback),
{
    let f = |x: u32| token_piece(x, ids, added, fallback);
    assert(s.push(id).map_values(f) =~= s.map_values(f).push(f(id)));
    s.map_values(f).lemma_flatten_push(f(id));
}

proof fn lemma_decode_buf_concat(a: Seq<u32>, b: Seq<u32>, ids: Map<u32, Seq<u8>>, added: Set<u32>, fallback: bool)
    ensures
        decode_buf(a + b, ids, added, fallback) == decode_buf(a, ids, added, fallback) + decode_buf(b, ids, added, fallback),
{
    let f = |x: u32| token_piece(x, ids, added, fallback);
    assert((a + b).map_values(f) =~= a.map_values(f) + b.map_values(f));
    vstd::seq_lib::lemma_flatten_concat(a.map_values(f), b.map_values(f));
}

/// The ids of tokens decode to the tokens.
proof fn lemma_decode_pieces(
    t: Seq<Seq<u8>>,
    vocab: Map<Seq<u8>, u32>,
    ids: Map<u32, Seq<u8>>,
    ranks: Map<Seq<u8>, usize>,
    added: Set<u32>,
    fallback: bool,
)
    requires
        all_in(t, vocab),
        lossless_vocab(vocab, ids, ranks, added, fallback),
    ensures
        decode_buf(ids_of(t, vocab), ids, added, fallback) == t.flatten(),
    decreases t.len(),
{
    if t.len() == 0 {
        assert(decode_buf(ids_of(t, vocab), ids, added, fallback) =~= Seq::<u8>::empty());
    } else {
        let rest = t.drop_last();
        let p = t.last();
        assert(all_in(rest, vocab)) by {
            assert forall|j: int| 0 <= j < rest.len() implies vocab.contains_key(#[trigger] rest[j]) by {
                assert(rest[j] == t[j]);
            }
        }
        assert(vocab.contains_key(p)) by {
            assert(p == t[t.len() - 1]);
        }
        lemma_decode_pieces(rest, vocab, ids, ranks, added, fallback);
        let id = vocab[p];
        assert(ids_of(t, vocab) == ids_of(rest, vocab).push(id)) by {
            assert(ids_of(rest, vocab) + seq![id] =~= ids_of(rest, vocab).push(id));
        }
        lemma_decode_buf_push(ids_of(rest, vocab), id, ids, added, fallback);
        assert(token_piece(id, ids, added, fallback) == p);
        rest.lemma_flatten_push(p);
        assert(rest.push(p) =~= t);
    }
}

/// Bytes written in the byte-level alphabet.
pub open spec fn greek_bytes(b: Seq<u8>) -> Seq<u8> {
    initial_pieces(b).flatten()
}

proof fn lemma_greek_bytes_concat(x: Seq<u8>, y: Seq<u8>)
    ensures
        greek_bytes(x + y) == greek_bytes(x) + greek_bytes(y),
{
    assert(initial_pieces(x + y) =~= initial_pieces(x) + initial_pieces(y));
    vstd::seq_lib::lemma_flatten_concat(initial_pieces(x), initial_pieces(y));
}

proof fn lemma_utf8_concat(a: Seq<char>, b: Seq<char>)
    ensures
        encode_utf8(a + b) == encode_utf8(a) + encode_utf8(b),
    decreases a.len(),
{
    if a.len() == 0 {
        assert(a + b =~= b);
        assert(encode_utf8(a) =~= Seq::<u8>::empty());
    } else {
        assert((a + b).drop_first() =~= a.drop_first() + b);
        assert((a + b)[0] == a[0]);
        lemma_utf8_concat(a.drop_first(), b);
    }
}

/// The ids of one word decode to the word's bytes in the byte-level alphabet.
proof fn lemma_decode_word(
    w: Seq<char>,
    vocab: Map<Seq<u8>, u32>,
    ids: Map<u32, Seq<u8>>,
    ranks: Map<Seq<u8>, usize>,
    added: Set<u32>,
    fallback: bool,
)
    requires
        lossless_vocab(vocab, ids, ranks, added, fallback),
    ensures
        decode_buf(encode_word(w, vocab, ranks), ids, added, fallback) == greek_bytes(encode_utf8(w)),
{
    let p = initial_pieces(encode_utf8(w));
    assert(all_in(p, vocab)) by {
        assert forall|j: int| 0 <= j < p.len() implies vocab.contains_key(#[trigger] p[j]) by {
            assert(p[j] == greek(encode_utf8(w)[j] as int));
        }
    }
    lemma_bpe_keeps(p, vocab, ranks);
    lemma_decode_pieces(bpe(p, ranks), vocab, ids, ranks, added, fallback);
}

proof fn lemma_decode_words(
    ws: Seq<Seq<char>>,
    vocab: Map<Seq<u8>, u32>,
    ids: Map<u32, Seq<u8>>,
    ranks: Map<Seq<u8>, usize>,
    added: Set<u32>,
    fallback: bool,
)
    requires
        lossless_vocab(vocab, ids, ranks, added, fallback),
    ensures
        decode_buf(ws.map_values(|w: Seq<char>| encode_word(w, vocab, ranks)).flatten(), ids, added, fallback)
            == greek_bytes(encode_utf8(ws.flatten())),
    decreases ws.len(),
{
    let f = |w: Seq<char>| encode_word(w, vocab, ranks);
    if ws.len() == 0 {
        assert(ws.map_values(f) =~= Seq::<Seq<u32>>::empty());
        assert(decode_buf(Seq::<u32>::empty(), ids, added, fallback) =~= Seq::<u8>::empty());
        assert(encode_utf8(ws.flatten()) =~= Seq::<u8>::empty());
        assert(greek_bytes(Seq::<u8>::empty()) =~= Seq::<u8>::empty());
    } else {
        let rest = ws.drop_last();
        let w = ws.last();
        lemma_decode_words(rest, vocab, ids, ranks, added, fallback);
        assert(ws.map_values(f) =~= rest.map_values(f).push(f(w)));
        rest.map_values(f).lemma_flatten_push(f(w));
        lemma_decode_buf_concat(rest.map_values(f).flatten(), f(w), ids, added, fallback);
        lemma_decode_word(w, vocab, ids, ranks, added, fallback);
        rest.lemma_flatten_push(w);
        assert(rest.push(w) =~= ws);
        lemma_utf8_concat(rest.flatten(), w);
        lemma_greek_bytes_concat(encode_utf8(rest.flatten()), encode_utf8(w));
    }
}

proof fn lemma_digit_run_bound(s: Seq<char>)
    ensures
        digit_run(s) <= s.len(),
        s.len() > 0 && is_digit(s[0]) ==> digit_run(s) >= 1,
    decreases s.len(),
{
    if s.len() > 0 && is_digit(s[0]) {
        lemma_digit_run_bound(s.drop_first());
    }
}

proof fn lemma_flush_flatten(cur: Seq<char>)
    ensures
        flush(cur).flatten() == cur,
{
    if cur.len() > 0 {
        lemma_flatten_one(cur);
    } else {
        assert(flush(cur).flatten() =~= cur);
    }
}

/// Pre-tokenization loses nothing: the words, joined, are the text.
proof fn lemma_split_from_flatten(s: Seq<char>, cur: Seq<char>)
    ensures
        split_from(s, cur).flatten() == cur + s,
    decreases s.len(),
{
    if s.len() == 0 {
        lemma_flush_flatten(cur);
        assert(cur + s =~= cur);
    } else if is_word_char(s[0]) {
        lemma_split_from_flatten(s.drop_first(), cur.push(s[0]));
        assert(cur.push(s[0]) + s.drop_first() =~= cur + s);
    } else if is_digit(s[0]) {
        lemma_digit_run_bound(s);
        let k = digit_run(s) as int;
        let tail = s.subrange(k, s.len() as int);
        lemma_split_from_flatten(tail, Seq::empty());
        lemma_flush_flatten(cur);
        let head = seq![s.subrange(0, k)];
        lemma_flatten_one(s.subrange(0, k));
        vstd::seq_lib::lemma_flatten_concat(flush(cur) + head, split_from(tail, Seq::empty()));
        vstd::seq_lib::lemma_flatten_concat(flush(cur), head);
        assert(Seq::<char>::empty() + tail =~= tail);
        assert(cur + s.subrange(0, k) + tail =~= cur + s);
    } else {
        let rest = s.drop_first();
        lemma_split_from_flatten(rest, Seq::empty());
        lemma_flush_flatten(cur);
        let one = seq![seq![s[0]]];
        lemma_flatten_one(seq![s[0]]);
        vstd::seq_lib::lemma_flatten_concat(flush(cur) + one, split_from(rest, Seq::empty()));
        vstd::seq_lib::lemma_flatten_concat(flush(cur), one);
        assert(Seq::<char>::empty() + rest =~= rest);
        assert(cur + seq![s[0]] + rest =~= cur + s);
    }
}

/// Pre-tokenization loses nothing: the words of `regex_split`, joined, are the text.
pub proof fn lemma_regex_split_lossless(text: Seq<char>)
    ensures
        regex_split_spec(text).flatten() == text,
{
    lemma_split_from_flatten(text, Seq::empty());
    assert(Seq::<char>::empty() + text =~= text);
}

/// What decoding gives back of encoding: for a vocabulary that decoding
/// inverts (`lossless_vocab`), decoding the ids that `encode` gives for a
/// text yields that text.
pub proof fn lemma_encode_decode_roundtrip(
    text: Seq<char>,
    vocab: Map<Seq<u8>, u32>,
    ids: Map<u32, Seq<u8>>,
    ranks: Map<Seq<u8>, usize>,
    added: Set<u32>,
    fallback: bool,
)
    requires
        lossless_vocab(vocab, ids, ranks, added, fallback),
    ensures
        decode_ids(encode_text(text, vocab, ranks), ids, added, fallback) == text,
        text.len() > 0 ==> encode_text(text, vocab, ranks).len() > 0,
{
    let ws = regex_split_spec(text);
    lemma_split_from_flatten(text, Seq::empty());
    assert(Seq::<char>::empty() + text =~= text);
    lemma_decode_words(ws, vocab, ids, ranks, added, fallback);
    lemma_byte_level_roundtrip(encode_utf8(text));
    vstd::utf8::encode_utf8_valid_utf8(text);
    vstd::utf8::encode_utf8_decode_utf8(text);
    assert(byte_level_decode(greek_bytes(encode_utf8(text))) == encode_utf8(text));
    assert(lossy_text(encode_utf8(text)) == text);
    let enc = encode_text(text, vocab, ranks);
    if text.len() > 0 && enc.len() == 0 {
        let e = Seq::<char>::empty();
        vstd::utf8::encode_utf8_valid_utf8(e);
        vstd::utf8::encode_utf8_decode_utf8(e);
        assert(encode_utf8(e) =~= Seq::<u8>::empty()) by {
            reveal_with_fuel(encode_utf8, 1);
        }
        let pieces = enc.map_values(|id: u32| token_piece(id, ids, added, fallback));
        assert(pieces =~= Seq::<Seq<u8>>::empty());
        assert(decode_buf(enc, ids, added, fallback) =~= Seq::<u8>::empty());
        assert(lossy_text(Seq::<u8>::empty()) =~= e);
        assert(decode_ids(enc, ids, added, fallback) =~= e);
    }
}


// ───────────────────────────── with special tokens ─────────────────────────────

proof fn lemma_nbb_flat(a: int, b: int)
    requires
        0 <= a <= b,
        forall|x: int| a <= x < b ==> #[trigger] in_bs(x),
    ensures
        non_bs_below(b) == non_bs_below(a),
    decreases b - a,
{
    if a < b {
        lemma_nbb_flat(a, b - 1);
    }
}

proof fn lemma_nbb_steep(a: int, b: int)
    requires
        0 <= a <= b,
        forall|x: int| a <= x < b ==> !#[trigger] in_bs(x),
    ensures
        non_bs_below(b) == non_bs_below(a) + (b - a),
    decreases b - a,
{
    if a < b {
        lemma_nbb_steep(a, b - 1);
    }
}

/// The bytes that do not stand for themselves are written as U+0100 to U+0143.
proof fn lemma_shifted_range(b: int)
    requires
        0 <= b < 256,
        !in_bs(b),
    ensures
        256 <= byte_cp(b) <= 323,
{
    lemma_nbb_steep(0, 33);
    lemma_nbb_flat(33, 127);
    lemma_nbb_steep(127, 161);
    lemma_nbb_flat(161, 173);
    lemma_nbb_steep(173, 174);
    lemma_nbb_flat(174, 256);
    assert(non_bs_below(256) == 68);
    lemma_non_bs_below_mono(b + 1, 256);
    crate::engine::bpe::lemma_non_bs_below_range(b);
    assert(non_bs_below(b + 1) == non_bs_below(b) + 1);
    assert(0 <= non_bs_below(b) <= 67);
    assert(byte_cp(b) == (256 + non_bs_below(b)) as u32);
}

/// A character that the byte-level decoding leaves as its UTF-8 bytes:
/// printable ASCII (which stands for itself) or no character of the alphabet.
pub open spec fn passes_through(c: char) -> bool {
    (c as u32) < 161 || (c as u32) == 173 || (c as u32) > 323
}

proof fn lemma_key_lookup_absent(n: int, c: char)
    requires
        0 <= n <= 256,
        forall|b: int| 0 <= b < n ==> #[trigger] greek_char(b) != c,
    ensures
        key_lookup(greek_keys().take(n), seq![c]) is None,
    decreases n,
{
    if n > 0 {
        let ks = greek_keys().take(n);
        crate::engine::bpe::lemma_greek_keys(n - 1);
        assert(ks.last() == greek_keys()[n - 1]);
        assert(ks.drop_last() =~= greek_keys().take(n - 1));
        if ks.last() == seq![c] {
            assert(ks.last()[0] == greek_char(n - 1));
        }
        lemma_key_lookup_absent(n - 1, c);
    }
}

/// The byte (if any) that a character stands for.
pub open spec fn char_bytes(c: char) -> Seq<u8> {
    match key_lookup(greek_keys(), seq![c]) {
        Some(b) => seq![b],
        None => encode_scalar(c as u32),
    }
}

proof fn lemma_pass_through(c: char)
    requires
        passes_through(c),
    ensures
        char_bytes(c) == encode_scalar(c as u32),
{
    assert(greek_keys().take(256) =~= greek_keys());
    let u = c as u32;
    if 33 <= u <= 126 {
        lemma_greek_char(u as int);
        assert(byte_cp(u as int) == u);
        vstd::utf8::char_u32_cast(c, u);
        assert(greek_char(u as int) == c);
        lemma_key_lookup_char(256, u as int);
        assert((u & 0x7F) as u8 == u as u8) by (bit_vector)
            requires
                u <= 126,
        ;
    } else {
        assert forall|b: int| 0 <= b < 256 implies #[trigger] greek_char(b) != c by {
            lemma_greek_char(b);
            if !in_bs(b) {
                lemma_shifted_range(b);
            }
        }
        lemma_key_lookup_absent(256, c);
    }
}

proof fn lemma_best_prefix_one(s: Seq<char>, t: int)
    requires
        1 <= t <= s.len(),
    ensures
        best_prefix(greek_keys(), s, t) == match key_lookup(greek_keys(), seq![s[0]]) {
            Some(b) => Some((b, 1int)),
            None => None,
        },
    decreases t,
{
    assert(greek_keys().take(256) =~= greek_keys());
    if t == 1 {
        assert(s.take(1) =~= seq![s[0]]);
    } else {
        lemma_key_lookup_long(256, s.take(t));
        lemma_best_prefix_one(s, t - 1);
    }
}

/// Decoding the byte-level alphabet works character by character.
proof fn lemma_decode_chars_map(s: Seq<char>)
    ensures
        decode_chars(greek_keys(), s) == s.map_values(|c: char| char_bytes(c)).flatten(),
    decreases s.len(),
{
    let f = |c: char| char_bytes(c);
    if s.len() == 0 {
        assert(s.map_values(f) =~= Seq::<Seq<u8>>::empty());
    } else {
        let t = if s.len() < 4 { s.len() as int } else { 4int };
        lemma_best_prefix_one(s, t);
        lemma_decode_chars_map(s.drop_first());
        assert(s.subrange(1, s.len() as int) =~= s.drop_first());
        assert(s.map_values(f).drop_first() =~= s.drop_first().map_values(f));
        assert(s.map_values(f)[0] == char_bytes(s[0]));
    }
}

proof fn lemma_decode_chars_concat(a: Seq<char>, b: Seq<char>)
    ensures
        decode_chars(greek_keys(), a + b) == decode_chars(greek_keys(), a) + decode_chars(greek_keys(), b),
{
    let f = |c: char| char_bytes(c);
    lemma_decode_chars_map(a + b);
    lemma_decode_chars_map(a);
    lemma_decode_chars_map(b);
    assert((a + b).map_values(f) =~= a.map_values(f) + b.map_values(f));
    vstd::seq_lib::lemma_flatten_concat(a.map_values(f), b.map_values(f));
}

proof fn lemma_decode_passing(name: Seq<char>)
    requires
        forall|i: int| 0 <= i < name.len() ==> passes_through(#[trigger] name[i]),
    ensures
        decode_chars(greek_keys(), name) == encode_utf8(name),
    decreases name.len(),
{
    let f = |c: char| char_bytes(c);
    lemma_decode_chars_map(name);
    if name.len() > 0 {
        lemma_pass_through(name[0]);
        lemma_decode_passing(name.drop_first());
        lemma_decode_chars_map(name.drop_first());
        assert(name.map_values(f).drop_first() =~= name.drop_first().map_values(f));
        assert(name.map_values(f)[0] == char_bytes(name[0]));
    } else {
        assert(name.map_values(f) =~= Seq::<Seq<u8>>::empty());
    }
}

proof fn lemma_find_seq_match(s: Seq<char>, p: Seq<char>)
    ensures
        find_seq(s, p) matches Some(k) ==> s.subrange(k as int, k as int + p.len()) == p,
    decreases s.len(),
{
    lemma_find_seq_bound(s, p);
    if s.len() >= p.len() && !crate::chars::starts_with(s, p) && s.len() > 0 {
        lemma_find_seq_match(s.drop_first(), p);
        if let Some(k) = find_seq(s.drop_first(), p) {
            assert(s.subrange(k as int + 1, k as int + 1 + p.len()) =~= s.drop_first().subrange(k as int, k as int + p.len()));
        }
    } else if s.len() >= p.len() && crate::chars::starts_with(s, p) {
        assert(s.subrange(0, p.len() as int) =~= p);
    }
}

proof fn lemma_earliest_in_which(rem: Seq<char>, sp: Seq<(Seq<char>, u32)>, n: int)
    requires
        n <= sp.len(),
    ensures
        earliest_in(rem, sp, n).0 matches Some(id) ==> exists|i: int|
            0 <= i < n && #[trigger] sp[i].1 == id && find_seq(rem, sp[i].0) == Some(earliest_in(rem, sp, n).1 as nat)
                && earliest_in(rem, sp, n).2 == sp[i].0.len(),
    decreases n,
{
    if n > 0 {
        lemma_earliest_in_which(rem, sp, n - 1);
    }
}

/// The special tokens decode to their text: each is an added token whose
/// bytes are its name, and its name is not empty and made of characters
/// that the byte-level decoding leaves alone.
pub open spec fn specials_decodable(sp: Seq<(Seq<char>, u32)>, ids: Map<u32, Seq<u8>>, added: Set<u32>) -> bool {
    forall|i: int| 0 <= i < sp.len() ==> {
        &&& #[trigger] added.contains(sp[i].1)
        &&& ids.contains_key(sp[i].1)
        &&& ids[sp[i].1] == encode_utf8(sp[i].0)
        &&& sp[i].0.len() > 0
        &&& forall|j: int| 0 <= j < sp[i].0.len() ==> passes_through(#[trigger] sp[i].0[j])
    }
}

/// The characters whose UTF-8 bytes `decode_buf` gathers for `encode_with_special`.
pub open spec fn special_chars(rem: Seq<char>, sp: Seq<(Seq<char>, u32)>) -> Seq<char>
    decreases rem.len(),
{
    if rem.len() == 0 {
        Seq::empty()
    } else {
        let (e, pos, len) = earliest_in(rem, sp, sp.len() as int);
        let before = if pos > 0 && pos <= rem.len() {
            greek_text(encode_utf8(rem.subrange(0, pos)))
        } else {
            Seq::empty()
        };
        match e {
            Some(id) => if 0 < pos + len && pos + len <= rem.len() && 0 <= pos {
                before + rem.subrange(pos, pos + len) + special_chars(rem.subrange(pos + len, rem.len() as int), sp)
            } else {
                before
            },
            None => before,
        }
    }
}

/// The ids of a plain text decode to its bytes in the byte-level alphabet.
proof fn lemma_decode_text(
    text: Seq<char>,
    vocab: Map<Seq<u8>, u32>,
    ids: Map<u32, Seq<u8>>,
    ranks: Map<Seq<u8>, usize>,
    added: Set<u32>,
    fallback: bool,
)
    requires
        lossless_vocab(vocab, ids, ranks, added, fallback),
    ensures
        decode_buf(encode_text(text, vocab, ranks), ids, added, fallback) == encode_utf8(greek_text(encode_utf8(text))),
        decode_chars(greek_keys(), greek_text(encode_utf8(text))) == encode_utf8(text),
{
    lemma_split_from_flatten(text, Seq::empty());
    assert(Seq::<char>::empty() + text =~= text);
    lemma_decode_words(regex_split_spec(text), vocab, ids, ranks, added, fallback);
    lemma_pieces_flatten(encode_utf8(text));
    lemma_decode_greek_text(encode_utf8(text));
}

proof fn lemma_bytes_three(
    x: Seq<u32>,
    id: u32,
    y: Seq<u32>,
    tb: Seq<char>,
    name: Seq<char>,
    tail: Seq<char>,
    ids: Map<u32, Seq<u8>>,
    added: Set<u32>,
    fallback: bool,
)
    requires
        decode_buf(x, ids, added, fallback) == encode_utf8(tb),
        added.contains(id),
        ids.contains_key(id),
        ids[id] == encode_utf8(name),
        decode_buf(y, ids, added, fallback) == encode_utf8(tail),
    ensures
        decode_buf(x + seq![id] + y, ids, added, fallback) == encode_utf8(tb + name + tail),
{
    lemma_decode_buf_concat(x + seq![id], y, ids, added, fallback);
    lemma_decode_buf_concat(x, seq![id], ids, added, fallback);
    lemma_decode_buf_push(Seq::<u32>::empty(), id, ids, added, fallback);
    assert(Seq::<u32>::empty().push(id) =~= seq![id]);
    assert(decode_buf(Seq::<u32>::empty(), ids, added, fallback) =~= Seq::<u8>::empty());
    assert(decode_buf(seq![id], ids, added, fallback) =~= encode_utf8(name));
    lemma_utf8_concat(tb + name, tail);
    lemma_utf8_concat(tb, name);
}

proof fn lemma_chars_three(tb: Seq<char>, name: Seq<char>, tail: Seq<char>, head: Seq<char>, rest: Seq<char>)
    requires
        decode_chars(greek_keys(), tb) == encode_utf8(head),
        forall|j: int| 0 <= j < name.len() ==> passes_through(#[trigger] name[j]),
        decode_chars(greek_keys(), tail) == encode_utf8(rest),
    ensures
        decode_chars(greek_keys(), tb + name + tail) == encode_utf8(head + name + rest),
{
    lemma_decode_chars_concat(tb + name, tail);
    lemma_decode_chars_concat(tb, name);
    lemma_decode_passing(name);
    lemma_utf8_concat(head + name, rest);
    lemma_utf8_concat(head, name);
}

proof fn lemma_empty_text(ids: Map<u32, Seq<u8>>, added: Set<u32>, fallback: bool)
    ensures
        decode_buf(Seq::<u32>::empty(), ids, added, fallback) == encode_utf8(Seq::<char>::empty()),
        decode_chars(greek_keys(), Seq::<char>::empty()) == encode_utf8(Seq::<char>::empty()),
{
    assert(decode_buf(Seq::<u32>::empty(), ids, added, fallback) =~= Seq::<u8>::empty());
    assert(encode_utf8(Seq::<char>::empty()) =~= Seq::<u8>::empty());
}

#[verifier::rlimit(60)]
proof fn lemma_special_step(
    rem: Seq<char>,
    sp: Seq<(Seq<char>, u32)>,
    vocab: Map<Seq<u8>, u32>,
    ids: Map<u32, Seq<u8>>,
    ranks: Map<Seq<u8>, usize>,
    added: Set<u32>,
    fallback: bool,
)
    requires
        lossless_vocab(vocab, ids, ranks, added, fallback),
        specials_decodable(sp, ids, added),
    ensures
        decode_buf(encode_special_text(rem, sp, vocab, ranks), ids, added, fallback) == encode_utf8(special_chars(rem, sp)),
        decode_chars(greek_keys(), special_chars(rem, sp)) == encode_utf8(rem),
    decreases rem.len(),
{
    if rem.len() == 0 {
        lemma_empty_text(ids, added, fallback);
    } else {
        let (e, pos, len) = earliest_in(rem, sp, sp.len() as int);
        assert forall|i: int| 0 <= i < sp.len() implies (#[trigger] sp[i]).0.len() > 0 by {
            assert(added.contains(sp[i].1));
        }
        lemma_earliest_in_bound(rem, sp, sp.len() as int);
        let head = rem.subrange(0, pos);
        let enc_before = if pos > 0 && pos <= rem.len() { encode_text(head, vocab, ranks) } else { Seq::<u32>::empty() };
        let tb = if pos > 0 && pos <= rem.len() { greek_text(encode_utf8(head)) } else { Seq::<char>::empty() };
        if pos == 0 {
            assert(head =~= Seq::<char>::empty());
            lemma_empty_text(ids, added, fallback);
        } else {
            lemma_decode_text(head, vocab, ids, ranks, added, fallback);
        }
        assert(decode_buf(enc_before, ids, added, fallback) == encode_utf8(tb));
        assert(decode_chars(greek_keys(), tb) == encode_utf8(head));
        match e {
            Some(id) => {
                let name = rem.subrange(pos, pos + len);
                let rest = rem.subrange(pos + len, rem.len() as int);
                lemma_earliest_in_which(rem, sp, sp.len() as int);
                let i = choose|i: int|
                    0 <= i < sp.len() && #[trigger] sp[i].1 == id && find_seq(rem, sp[i].0) == Some(pos as nat)
                        && len == sp[i].0.len();
                lemma_find_seq_match(rem, sp[i].0);
                assert(name == sp[i].0);
                assert(added.contains(sp[i].1));
                lemma_special_step(rest, sp, vocab, ids, ranks, added, fallback);
                assert(encode_special_text(rem, sp, vocab, ranks) == enc_before + seq![id] + encode_special_text(rest, sp, vocab, ranks));
                assert(special_chars(rem, sp) == tb + name + special_chars(rest, sp));
                lemma_bytes_three(enc_before, id, encode_special_text(rest, sp, vocab, ranks), tb, name, special_chars(rest, sp), ids, added, fallback);
                lemma_chars_three(tb, name, special_chars(rest, sp), head, rest);
                assert(head + name + rest =~= rem);
            },
            None => {
                assert(pos == rem.len());
                assert(head =~= rem);
            },
        }
    }
}

/// Decoding what `encode_with_special` gives for a text yields that text,
/// for a vocabulary that decoding inverts and special tokens that decode to
/// their own text.
pub proof fn lemma_special_roundtrip(
    text: Seq<char>,
    sp: Seq<(Seq<char>, u32)>,
    vocab: Map<Seq<u8>, u32>,
    ids: Map<u32, Seq<u8>>,
    ranks: Map<Seq<u8>, usize>,
    added: Set<u32>,
    fallback: bool,
)
    requires
        lossless_vocab(vocab, ids, ranks, added, fallback),
        specials_decodable(sp, ids, added),
    ensures
        decode_ids(encode_special_text(text, sp, vocab, ranks), ids, added, fallback) == text,
{
    lemma_special_step(text, sp, vocab, ids, ranks, added, fallback);
    let t = special_chars(text, sp);
    vstd::utf8::encode_utf8_valid_utf8(t);
    vstd::utf8::encode_utf8_decode_utf8(t);
    vstd::utf8::encode_utf8_valid_utf8(text);
    vstd::utf8::encode_utf8_decode_utf8(text);
    assert(byte_level_decode(encode_utf8(t)) == encode_utf8(text));
}

} // verus!
