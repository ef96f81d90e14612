//! The byte-level BPE tokenizer of the local LLM.
//!
//! Its tables come from the parts of `tokenizer.json` (read by
//! `engine::tokenizer_json`); encoding splits the text into words, writes each byte as a
//! character of the byte-level alphabet, and merges adjacent pieces by
//! rank; decoding maps ids back to bytes.

use vstd::prelude::*;
use std::collections::{HashMap, HashSet};

use crate::bytes_map::BytesMap;
use crate::engine::llm::{bytes_to_unicode, greek, regex_split_chars, regex_split_spec};
use vstd::utf8::{decode_utf8, encode_scalar, encode_utf8, valid_utf8};

verus! {

broadcast use vstd::std_specs::hash::group_hash_axioms;

// ───────────────────────────── keys of the merge table ─────────────────────────────

/// The 8 little-endian bytes of `n`.
pub open spec fn u64_le(n: u64) -> Seq<u8> {
    Seq::new(8, |i: int| ((n >> ((8 * i) as u64)) & 0xffu64) as u8)
}

/// The key under which the merge of `a` and `b` is ranked: the length of `a`,
/// then `a`, then `b`.
pub open spec fn pair_key(a: Seq<u8>, b: Seq<u8>) -> Seq<u8> {
    u64_le(a.len() as u64) + a + b
}

fn u64_le_exec(n: u64) -> (r: Vec<u8>)
    ensures
        r@ == u64_le(n),
{
    let mut r: Vec<u8> = Vec::new();
    let mut i: u64 = 0;
    while i < 8
        invariant
            i <= 8,
            r@ == u64_le(n).take(i as int),
        decreases 8 - i,
    {
        r.push(((n >> (8 * i)) & 0xffu64) as u8);
        proof {
            assert(r@ =~= u64_le(n).take(i + 1));
        }
        i = i + 1;
    }
    proof {
        assert(r@ =~= u64_le(n));
    }
    r
}

pub fn pair_key_exec(a: &[u8], b: &[u8]) -> (r: Vec<u8>)
    ensures
        r@ == pair_key(a@, b@),
{
    let mut r = u64_le_exec(a.len() as u64);
    append_bytes(&mut r, a);
    append_bytes(&mut r, b);
    r
}

pub fn append_bytes(r: &mut Vec<u8>, b: &[u8])
    ensures
        final(r)@ == old(r)@ + b@,
{
    let mut i: usize = 0;
    while i < b.len()
        invariant
            i <= b@.len(),
            r@ == old(r)@ + b@.subrange(0, i as int),
        decreases b@.len() - i,
    {
        r.push(b[i]);
        i = i + 1;
    }
}

/// The UTF-8 bytes of `s`.
pub fn bytes_of(s: &str) -> (r: Vec<u8>)
    ensures
        r@ == encode_utf8(s@),
{
    let mut r: Vec<u8> = Vec::new();
    append_bytes(&mut r, s.as_bytes());
    r
}

// ───────────────────────────── the tables ─────────────────────────────

/// Inserts the pairs in order; a later pair replaces an earlier one with the same key.
pub open spec fn map_of_pairs(ps: Seq<(Seq<u8>, u32)>) -> Map<Seq<u8>, u32>
    decreases ps.len(),
{
    if ps.len() == 0 {
        Map::empty()
    } else {
        map_of_pairs(ps.drop_last()).insert(ps.last().0, ps.last().1)
    }
}

/// The id-to-bytes table of the same pairs.
pub open spec fn ids_of_pairs(ps: Seq<(Seq<u8>, u32)>) -> Map<u32, Seq<u8>>
    decreases ps.len(),
{
    if ps.len() == 0 {
        Map::empty()
    } else {
        ids_of_pairs(ps.drop_last()).insert(ps.last().1, ps.last().0)
    }
}

/// `(token bytes, id)` of the vocabulary, then of the added tokens (ids
/// truncated to `u32`, as the loader does).
pub open spec fn vocab_pairs(vocab: Seq<(Seq<char>, u64)>, added: Seq<(u64, Seq<char>)>) -> Seq<
    (Seq<u8>, u32),
> {
    vocab.map_values(|e: (Seq<char>, u64)| (encode_utf8(e.0), e.1 as u32)) + added.map_values(
        |a: (u64, Seq<char>)| (encode_utf8(a.1), a.0 as u32),
    )
}

/// The merge ranks: the merge at position `r` of the list, `"a b"`, ranks
/// the pair `(a, b)` at `r`; a line without a space is skipped.
pub open spec fn merge_ranks(merges: Seq<Seq<char>>) -> Map<Seq<u8>, usize>
    decreases merges.len(),
{
    if merges.len() == 0 {
        Map::empty()
    } else {
        let prev = merge_ranks(merges.drop_last());
        let m = merges.last();
        match crate::chars::index_of(m, ' ') {
            Some(k) => prev.insert(
                pair_key(
                    encode_utf8(m.subrange(0, k as int)),
                    encode_utf8(m.subrange(k + 1int, m.len() as int)),
                ),
                (merges.len() - 1) as usize,
            ),
            None => prev,
        }
    }
}

/// Sets the id of special token `name`, keeping the order of first appearance.
pub open spec fn set_special(sp: Seq<(Seq<char>, u32)>, name: Seq<char>, id: u32) -> Seq<
    (Seq<char>, u32),
> {
    if exists|i: int| 0 <= i < sp.len() && #[trigger] sp[i].0 == name {
        let i = choose|i: int| 0 <= i < sp.len() && #[trigger] sp[i].0 == name;
        sp.update(i, (name, id))
    } else {
        sp.push((name, id))
    }
}

/// The special tokens (the added tokens by content), in order of first appearance.
pub open spec fn specials_of(added: Seq<(u64, Seq<char>)>) -> Seq<(Seq<char>, u32)>
    decreases added.len(),
{
    if added.len() == 0 {
        Seq::empty()
    } else {
        set_special(specials_of(added.drop_last()), added.last().1, added.last().0 as u32)
    }
}

/// The ids of the added tokens.
pub open spec fn added_ids_of(added: Seq<(u64, Seq<char>)>) -> Set<u32> {
    Set::new(|id: u32| exists|i: int| 0 <= i < added.len() && #[trigger] added[i].0 as u32 == id)
}

pub open spec fn vocab_view(v: Seq<(String, u64)>) -> Seq<(Seq<char>, u64)> {
    v.map_values(|e: (String, u64)| (e.0@, e.1))
}

pub open spec fn added_view(v: Seq<(u64, String)>) -> Seq<(u64, Seq<char>)> {
    v.map_values(|e: (u64, String)| (e.0, e.1@))
}

pub open spec fn names_unique(sp: Seq<(Seq<char>, u32)>) -> bool {
    forall|i: int, j: int| 0 <= i < j < sp.len() ==> #[trigger] sp[i].0 != #[trigger] sp[j].0
}

/// The tokenizer.
pub struct BpeTokenizer {
    vocab: BytesMap<u32>,
    id_to_token: HashMap<u32, Vec<u8>>,
    merge_rank: BytesMap<usize>,
    special_tokens: Vec<(String, u32)>,
    added_token_ids: HashSet<u32>,
    byte_fallback: bool,
}

impl BpeTokenizer {
    /// Token bytes to id.
    pub closed spec fn vocab_map(&self) -> Map<Seq<u8>, u32> {
        self.vocab.view()
    }

    /// Id to token bytes.
    pub closed spec fn id_map(&self) -> Map<u32, Seq<u8>> {
        self.id_to_token@.map_values(|v: Vec<u8>| v@)
    }

    /// Merge ranks, under `pair_key`.
    pub closed spec fn rank_map(&self) -> Map<Seq<u8>, usize> {
        self.merge_rank.view()
    }

    /// Special tokens in order of first appearance.
    pub closed spec fn specials(&self) -> Seq<(Seq<char>, u32)> {
        self.special_tokens@.map_values(|e: (String, u32)| (e.0@, e.1))
    }

    pub closed spec fn added_ids(&self) -> Set<u32> {
        self.added_token_ids@
    }

    pub closed spec fn byte_fallback(&self) -> bool {
        self.byte_fallback
    }

    pub closed spec fn wf(&self) -> bool {
        &&& self.vocab.wf()
        &&& self.merge_rank.wf()
        &&& names_unique(self.specials())
    }

    /// Builds the tables from the contents of `tokenizer.json`: the
    /// vocabulary (`model.vocab`, token and id, in the map's order), the
    /// merge lines (`model.merges`), the added tokens (id and content) and
    /// `model.byte_fallback`.
    pub fn from_parts(
        vocab: &Vec<(String, u64)>,
        merges: &Vec<String>,
        added: &Vec<(u64, String)>,
        byte_fallback: bool,
    ) -> (t: Self)
        ensures
            t.wf(),
            t.vocab_map() == map_of_pairs(vocab_pairs(vocab_view(vocab@), added_view(added@))),
            t.id_map() == ids_of_pairs(vocab_pairs(vocab_view(vocab@), added_view(added@))),
            t.rank_map() == merge_ranks(merges@.map_values(|m: String| m@)),
            t.specials() == specials_of(added_view(added@)),
            t.added_ids() == added_ids_of(added_view(added@)),
            t.byte_fallback() == byte_fallback,
    {
        let ghost pairs = vocab_pairs(vocab_view(vocab@), added_view(added@));
        let mut v: BytesMap<u32> = BytesMap::new();
        let mut ids: HashMap<u32, Vec<u8>> = HashMap::new();
        let mut i: usize = 0;
        proof {
            assert(pairs.take(0) =~= Seq::<(Seq<u8>, u32)>::empty());
            assert(ids@.map_values(|x: Vec<u8>| x@) =~= Map::<u32, Seq<u8>>::empty());
        }
        while i < vocab.len()
            invariant
                i <= vocab@.len(),
                pairs == vocab_pairs(vocab_view(vocab@), added_view(added@)),
                v.wf(),
                v.view() == map_of_pairs(pairs.take(i as int)),
                ids@.map_values(|x: Vec<u8>| x@) == ids_of_pairs(pairs.take(i as int)),
            decreases vocab@.len() - i,
        {
            let b = bytes_of(vocab[i].0.as_str());
            let id = vocab[i].1 as u32;
            proof {
                assert(pairs[i as int] == (b@, id));
                assert(pairs.take(i + 1).drop_last() =~= pairs.take(i as int));
            }
            v.insert(bytes_of(vocab[i].0.as_str()), id);
            let ghost before = ids@;
            ids.insert(id, b);
            proof {
                assert(ids@.map_values(|x: Vec<u8>| x@) =~= before.map_values(|x: Vec<u8>| x@).insert(id, b@));
            }
            i = i + 1;
        }
        let mut sp: Vec<(String, u32)> = Vec::new();
        let mut added_ids: HashSet<u32> = HashSet::new();
        let mut j: usize = 0;
        proof {
            assert(added_view(added@).take(0) =~= Seq::<(u64, Seq<char>)>::empty());
            assert(sp@.map_values(|e: (String, u32)| (e.0@, e.1)) =~= Seq::<(Seq<char>, u32)>::empty());
            assert(added_ids@ =~= added_ids_of(added_view(added@).take(0)));
        }
        while j < added.len()
            invariant
                i == vocab@.len(),
                j <= added@.len(),
                pairs == vocab_pairs(vocab_view(vocab@), added_view(added@)),
                v.wf(),
                v.view() == map_of_pairs(pairs.take(i + j)),
                ids@.map_values(|x: Vec<u8>| x@) == ids_of_pairs(pairs.take(i + j)),
                sp@.map_values(|e: (String, u32)| (e.0@, e.1)) == specials_of(added_view(added@).take(j as int)),
                names_unique(sp@.map_values(|e: (String, u32)| (e.0@, e.1))),
                added_ids@ == added_ids_of(added_view(added@).take(j as int)),
            decreases added@.len() - j,
        {
            let id = added[j].0 as u32;
            let content = &added[j].1;
            let ghost av = added_view(added@);
            proof {
                assert(av.take(j + 1).drop_last() =~= av.take(j as int));
                assert(pairs[i + j] == (encode_utf8(content@), id));
                assert(pairs.take(i + j + 1).drop_last() =~= pairs.take(i + j));
            }
            // special token name → id
            let ghost sp_before = sp@.map_values(|e: (String, u32)| (e.0@, e.1));
            let mut k: usize = 0;
            let mut found = false;
            while k < sp.len()
                invariant
                    k <= sp@.len(),
                    forall|x: int| 0 <= x < k ==> sp@[x].0@ != content@,
                    found ==> k < sp@.len() && sp@[k as int].0@ == content@,
                ensures
                    found ==> k < sp@.len() && sp@[k as int].0@ == content@,
                    !found ==> forall|x: int| 0 <= x < sp@.len() ==> sp@[x].0@ != content@,
                decreases sp@.len() - k,
            {
                if sp[k].0 == *content {
                    found = true;
                    break;
                }
                k = k + 1;
            }
            if found {
                sp.set(k, (content.clone(), id));
                proof {
                    let now = sp@.map_values(|e: (String, u32)| (e.0@, e.1));
                    assert(sp_before[k as int].0 == content@);
                    let c = choose|x: int| 0 <= x < sp_before.len() && #[trigger] sp_before[x].0 == content@;
                    assert(c == k) by {
                        if c != k {
                            if c < k {
                                assert(sp_before[c].0 != sp_before[k as int].0);
                            } else {
                                assert(sp_before[k as int].0 != sp_before[c].0);
                            }
                        }
                    }
                    assert(now =~= sp_before.update(k as int, (content@, id)));
                    assert(names_unique(now)) by {
                        assert forall|x: int, y: int| 0 <= x < y < now.len() implies #[trigger] now[x].0 != #[trigger] now[y].0 by {
                            if x != k && y != k {
                                assert(now[x] == sp_before[x]);
                                assert(now[y] == sp_before[y]);
                            } else if x == k {
                                assert(now[y] == sp_before[y]);
                            } else {
                                assert(now[x] == sp_before[x]);
                            }
                        }
                    }
                }
            } else {
                sp.push((content.clone(), id));
                proof {
                    let now = sp@.map_values(|e: (String, u32)| (e.0@, e.1));
                    assert(!(exists|x: int| 0 <= x < sp_before.len() && #[trigger] sp_before[x].0 == content@));
                    assert(now =~= sp_before.push((content@, id)));
                    assert(names_unique(now)) by {
                        assert forall|x: int, y: int| 0 <= x < y < now.len() implies #[trigger] now[x].0 != #[trigger] now[y].0 by {
                            assert(now[x] == sp_before[x]);
                            if y < sp_before.len() {
                                assert(now[y] == sp_before[y]);
                            }
                        }
                    }
                }
            }
            added_ids.insert(id);
            proof {
                assert(added_ids@ =~= added_ids_of(av.take(j + 1))) by {
                    assert forall|x: u32| added_ids_of(av.take(j + 1)).contains(x) implies added_ids@.contains(x) by {
                        let w = choose|w: int| 0 <= w < av.take(j + 1).len() && #[trigger] av.take(j + 1)[w].0 as u32 == x;
                        if w < j {
                            assert(av.take(j as int)[w] == av.take(j + 1)[w]);
                        }
                    }
                    assert forall|x: u32| added_ids@.contains(x) implies added_ids_of(av.take(j + 1)).contains(x) by {
                        if x != id {
                            let w = choose|w: int| 0 <= w < av.take(j as int).len() && #[trigger] av.take(j as int)[w].0 as u32 == x;
                            assert(av.take(j + 1)[w] == av.take(j as int)[w]);
                        } else {
                            assert(av.take(j + 1)[j as int].0 as u32 == x);
                        }
                    }
                }
            }
            let b = bytes_of(content.as_str());
            v.insert(bytes_of(content.as_str()), id);
            let ghost before = ids@;
            ids.insert(id, b);
            proof {
                assert(ids@.map_values(|x: Vec<u8>| x@) =~= before.map_values(|x: Vec<u8>| x@).insert(id, b@));
            }
            j = j + 1;
        }
        proof {
            assert(pairs.take(i + j) =~= pairs);
            assert(added_view(added@).take(j as int) =~= added_view(added@));
        }
        let ghost mv = merges@.map_values(|m: String| m@);
        let mut ranks: BytesMap<usize> = BytesMap::new();
        let mut r: usize = 0;
        proof {
            assert(mv.take(0) =~= Seq::<Seq<char>>::empty());
        }
        while r < merges.len()
            invariant
                r <= merges@.len(),
                mv == merges@.map_values(|m: String| m@),
                ranks.wf(),
                ranks.view() == merge_ranks(mv.take(r as int)),
            decreases merges@.len() - r,
        {
            let m = crate::chars::chars_of(merges[r].as_str());
            proof {
                assert(mv.take(r + 1).drop_last() =~= mv.take(r as int));
                assert(mv.take(r + 1).last() == m@);
            }
            let mut k: usize = 0;
            while k < m.len() && m[k] != ' '
                invariant
                    k <= m@.len(),
                    forall|x: int| 0 <= x < k ==> m@[x] != ' ',
                decreases m@.len() - k,
            {
                k = k + 1;
            }
            proof {
                crate::chars::lemma_index_of(m@, ' ', k as int);
            }
            if k < m.len() {
                let a = crate::chars::string_from_chars(crate::chars::slice_chars(m.as_slice(), 0, k).as_slice());
                let b = crate::chars::string_from_chars(crate::chars::slice_chars(m.as_slice(), k + 1, m.len()).as_slice());
                let key = pair_key_exec(bytes_of(a.as_str()).as_slice(), bytes_of(b.as_str()).as_slice());
                ranks.insert(key, r);
            }
            r = r + 1;
        }
        proof {
            assert(mv.take(r as int) =~= mv);
        }
        BpeTokenizer {
            vocab: v,
            id_to_token: ids,
            merge_rank: ranks,
            special_tokens: sp,
            added_token_ids: added_ids,
            byte_fallback,
        }
    }
}


// ───────────────────────────── checking a vocabulary ─────────────────────────────

/// The merge that line `m` names, as `(a, b)` bytes, when it has a space.
pub open spec fn merge_line_pair(m: Seq<char>) -> Option<(Seq<u8>, Seq<u8>)> {
    match crate::chars::index_of(m, ' ') {
        Some(k) => Some((encode_utf8(m.subrange(0, k as int)), encode_utf8(m.subrange(k + 1int, m.len() as int)))),
        None => None,
    }
}

/// The key under which line `m` ranks its merge (empty when it names none).
pub open spec fn merge_line_key(m: Seq<char>) -> Seq<u8> {
    match merge_line_pair(m) {
        Some((a, b)) => pair_key(a, b),
        None => Seq::empty(),
    }
}

/// The merge of line `m`, if it names one, yields a token of `vocab`.
pub open spec fn merge_line_ok(m: Seq<char>, vocab: Map<Seq<u8>, u32>) -> bool {
    match merge_line_pair(m) {
        Some((a, b)) => vocab.contains_key(a + b),
        None => true,
    }
}

/// The token `p`'s id decodes to `p`, and under byte fallback `p` is not read
/// as a byte unless it is an added token.
pub open spec fn token_ok(
    p: Seq<u8>,
    vocab: Map<Seq<u8>, u32>,
    ids: Map<u32, Seq<u8>>,
    added: Set<u32>,
    fallback: bool,
) -> bool {
    &&& ids.contains_key(vocab[p]) && ids[vocab[p]] == p
    &&& fallback ==> (byte_token(p) is None || added.contains(vocab[p]))
}

proof fn lemma_map_of_pairs_keys(ps: Seq<(Seq<u8>, u32)>, k: Seq<u8>)
    ensures
        map_of_pairs(ps).contains_key(k) <==> exists|i: int| 0 <= i < ps.len() && #[trigger] ps[i].0 == k,
    decreases ps.len(),
{
    if ps.len() > 0 {
        lemma_map_of_pairs_keys(ps.drop_last(), k);
        if exists|i: int| 0 <= i < ps.drop_last().len() && #[trigger] ps.drop_last()[i].0 == k {
            let i = choose|i: int| 0 <= i < ps.drop_last().len() && #[trigger] ps.drop_last()[i].0 == k;
            assert(ps[i].0 == k);
        }
        if exists|i: int| 0 <= i < ps.len() && #[trigger] ps[i].0 == k {
            let i = choose|i: int| 0 <= i < ps.len() && #[trigger] ps[i].0 == k;
            if i < ps.len() - 1 {
                assert(ps.drop_last()[i].0 == k);
            }
        }
    }
}

proof fn lemma_merge_line_in_ranks(ms: Seq<Seq<char>>, j: int)
    requires
        0 <= j < ms.len(),
        merge_line_pair(ms[j]) is Some,
    ensures
        merge_ranks(ms).contains_key(merge_line_key(ms[j])),
    decreases ms.len(),
{
    if j < ms.len() - 1 {
        assert(ms.drop_last()[j] == ms[j]);
        lemma_merge_line_in_ranks(ms.drop_last(), j);
    }
}

proof fn lemma_ranks_from_lines(ms: Seq<Seq<char>>, key: Seq<u8>)
    requires
        merge_ranks(ms).contains_key(key),
    ensures
        exists|j: int| 0 <= j < ms.len() && merge_line_pair(ms[j]) is Some && key == #[trigger] merge_line_key(ms[j]),
    decreases ms.len(),
{
    let last = ms.len() - 1;
    if merge_line_pair(ms[last]) is Some && key == merge_line_key(ms[last]) {
    } else {
        lemma_ranks_from_lines(ms.drop_last(), key);
        let j = choose|j: int|
            0 <= j < ms.drop_last().len() && merge_line_pair(ms.drop_last()[j]) is Some && key
                == #[trigger] merge_line_key(ms.drop_last()[j]);
        assert(ms.drop_last()[j] == ms[j]);
    }
}

/// Two merges under one key join to the same bytes.
proof fn lemma_pair_key_join(a: Seq<u8>, b: Seq<u8>, c: Seq<u8>, d: Seq<u8>)
    requires
        pair_key(a, b) == pair_key(c, d),
    ensures
        a + b == c + d,
{
    let k1 = pair_key(a, b);
    assert(k1.subrange(8, k1.len() as int) =~= a + b);
    let k2 = pair_key(c, d);
    assert(k2.subrange(8, k2.len() as int) =~= c + d);
}

impl BpeTokenizer {
    /// Builds the tokenizer as [`BpeTokenizer::from_parts`] does and tells
    /// whether decoding inverts its vocabulary (`lossless_vocab`): every
    /// character of the byte-level alphabet is a token, every merge line
    /// yields a token, every token's id decodes to it, and under byte
    /// fallback no token is read as a byte unless it is an added token.
    pub fn from_parts_checked(
        vocab: &Vec<(String, u64)>,
        merges: &Vec<String>,
        added: &Vec<(u64, String)>,
        byte_fallback: bool,
    ) -> (r: (Self, bool))
        ensures
            r.0.wf(),
            r.0.vocab_map() == map_of_pairs(vocab_pairs(vocab_view(vocab@), added_view(added@))),
            r.0.id_map() == ids_of_pairs(vocab_pairs(vocab_view(vocab@), added_view(added@))),
            r.0.rank_map() == merge_ranks(merges@.map_values(|m: String| m@)),
            r.0.specials() == specials_of(added_view(added@)),
            r.0.added_ids() == added_ids_of(added_view(added@)),
            r.0.byte_fallback() == byte_fallback,
            r.1 == crate::engine::bpe_roundtrip::lossless_vocab(
                r.0.vocab_map(),
                r.0.id_map(),
                r.0.rank_map(),
                r.0.added_ids(),
                r.0.byte_fallback(),
            ),
    {
        let t = Self::from_parts(vocab, merges, added, byte_fallback);
        let ok = t.vocab_lossless(vocab, merges, added);
        (t, ok)
    }

    fn vocab_lossless(&self, vocab: &Vec<(String, u64)>, merges: &Vec<String>, added: &Vec<(u64, String)>) -> (r: bool)
        requires
            self.wf(),
            self.vocab_map() == map_of_pairs(vocab_pairs(vocab_view(vocab@), added_view(added@))),
            self.id_map() == ids_of_pairs(vocab_pairs(vocab_view(vocab@), added_view(added@))),
            self.rank_map() == merge_ranks(merges@.map_values(|m: String| m@)),
            self.added_ids() == added_ids_of(added_view(added@)),
        ensures
            r == crate::engine::bpe_roundtrip::lossless_vocab(
                self.vocab_map(),
                self.id_map(),
                self.rank_map(),
                self.added_ids(),
                self.byte_fallback(),
            ),
    {
        let ghost vm = self.vocab_map();
        let ghost im = self.id_map();
        let ghost rm = self.rank_map();
        let ghost ad = self.added_ids();
        let ghost fb = self.byte_fallback();
        let ghost ps = vocab_pairs(vocab_view(vocab@), added_view(added@));
        let ghost mv = merges@.map_values(|m: String| m@);
        // The byte-level alphabet.
        let table = bytes_to_unicode();
        let mut b: usize = 0;
        while b < 256
            invariant
                b <= 256,
                self.wf(),
                vm == self.vocab_map(),
                table@.len() == 256,
                forall|x: int| 0 <= x < 256 ==> #[trigger] table@[x]@ == greek(x),
                forall|x: int| 0 <= x < b ==> vm.contains_key(#[trigger] greek(x)),
            decreases 256 - b,
        {
            if self.vocab.get(table[b].as_slice()).is_none() {
                return false;
            }
            b = b + 1;
        }
        // The merges.
        let mut r: usize = 0;
        while r < merges.len()
            invariant
                r <= merges@.len(),
                self.wf(),
                vm == self.vocab_map(),
                mv == merges@.map_values(|m: String| m@),
                rm == merge_ranks(mv),
                rm == self.rank_map(),
                im == self.id_map(),
                ad == self.added_ids(),
                fb == self.byte_fallback(),
                forall|j: int| 0 <= j < r ==> merge_line_ok(#[trigger] mv[j], vm),
            decreases merges@.len() - r,
        {
            let m = crate::chars::chars_of(merges[r].as_str());
            let mut k: usize = 0;
            while k < m.len() && m[k] != ' '
                invariant
                    k <= m@.len(),
                    forall|x: int| 0 <= x < k ==> m@[x] != ' ',
                decreases m@.len() - k,
            {
                k = k + 1;
            }
            proof {
                crate::chars::lemma_index_of(m@, ' ', k as int);
                assert(mv[r as int] == m@);
            }
            if k < m.len() {
                let a = crate::chars::string_from_chars(crate::chars::slice_chars(m.as_slice(), 0, k).as_slice());
                let c = crate::chars::string_from_chars(crate::chars::slice_chars(m.as_slice(), k + 1, m.len()).as_slice());
                let mut ac = bytes_of(a.as_str());
                append_bytes(&mut ac, bytes_of(c.as_str()).as_slice());
                let ghost pa = encode_utf8(m@.subrange(0, k as int));
                let ghost pc = encode_utf8(m@.subrange(k + 1, m@.len() as int));
                proof {
                    assert(merge_line_pair(mv[r as int]) == Some((pa, pc)));
                    assert(ac@ == pa + pc);
                }
                if self.vocab.get(ac.as_slice()).is_none() {
                    proof {
                        lemma_merge_line_in_ranks(mv, r as int);
                        assert(rm.contains_key(pair_key(pa, pc)));
                        assert(!vm.contains_key(pa + pc));
                    }
                    return false;
                }
            }
            r = r + 1;
        }
        // The tokens and their ids.
        let mut i: usize = 0;
        while i < vocab.len()
            invariant
                i <= vocab@.len(),
                self.wf(),
                vm == self.vocab_map(),
                im == self.id_map(),
                ad == self.added_ids(),
                fb == self.byte_fallback(),
                ps == vocab_pairs(vocab_view(vocab@), added_view(added@)),
                vm == map_of_pairs(ps),
                forall|j: int| 0 <= j < i ==> token_ok(#[trigger] ps[j].0, vm, im, ad, fb),
            decreases vocab@.len() - i,
        {
            let p = bytes_of(vocab[i].0.as_str());
            proof {
                assert(ps[i as int].0 == p@);
                lemma_map_of_pairs_keys(ps, p@);
            }
            if !self.token_checks(p.as_slice()) {
                return false;
            }
            i = i + 1;
        }
        let mut j: usize = 0;
        while j < added.len()
            invariant
                i == vocab@.len(),
                j <= added@.len(),
                self.wf(),
                vm == self.vocab_map(),
                im == self.id_map(),
                ad == self.added_ids(),
                fb == self.byte_fallback(),
                ps == vocab_pairs(vocab_view(vocab@), added_view(added@)),
                vm == map_of_pairs(ps),
                forall|x: int| 0 <= x < i + j ==> token_ok(#[trigger] ps[x].0, vm, im, ad, fb),
            decreases added@.len() - j,
        {
            let p = bytes_of(added[j].1.as_str());
            proof {
                assert(ps[i + j].0 == p@);
                lemma_map_of_pairs_keys(ps, p@);
            }
            if !self.token_checks(p.as_slice()) {
                return false;
            }
            j = j + 1;
        }
        proof {
            assert forall|a: Seq<u8>, c: Seq<u8>| #[trigger] rm.contains_key(pair_key(a, c)) implies vm.contains_key(a + c) by {
                lemma_ranks_from_lines(mv, pair_key(a, c));
                let x = choose|x: int|
                    0 <= x < mv.len() && merge_line_pair(mv[x]) is Some && pair_key(a, c) == #[trigger] merge_line_key(mv[x]);
                assert(merge_line_ok(mv[x], vm));
                match merge_line_pair(mv[x]) {
                    Some((a2, c2)) => {
                        lemma_pair_key_join(a, c, a2, c2);
                    },
                    None => {},
                }
            }
            assert forall|p: Seq<u8>| #[trigger] vm.contains_key(p) implies im.contains_key(vm[p]) && im[vm[p]] == p by {
                lemma_map_of_pairs_keys(ps, p);
                let x = choose|x: int| 0 <= x < ps.len() && #[trigger] ps[x].0 == p;
                assert(token_ok(ps[x].0, vm, im, ad, fb));
            }
            if fb {
                assert forall|p: Seq<u8>| #[trigger] vm.contains_key(p) implies (byte_token(p) is None || ad.contains(vm[p])) by {
                    lemma_map_of_pairs_keys(ps, p);
                    let x = choose|x: int| 0 <= x < ps.len() && #[trigger] ps[x].0 == p;
                    assert(token_ok(ps[x].0, vm, im, ad, fb));
                }
            }
        }
        true
    }

    /// Does token `p` (a token of the vocabulary) meet `token_ok`?
    fn token_checks(&self, p: &[u8]) -> (r: bool)
        requires
            self.wf(),
            self.vocab_map().contains_key(p@),
        ensures
            r == token_ok(p@, self.vocab_map(), self.id_map(), self.added_ids(), self.byte_fallback()),
    {
        let v = match self.vocab.get(p) {
            Some(v) => v,
            None => return false,
        };
        match self.id_to_token.get(&v) {
            Some(q) => {
                proof {
                    assert(self.id_map().contains_key(v));
                    assert(self.id_map()[v] == q@);
                }
                if !crate::bytes_map::eq_bytes(q.as_slice(), p) {
                    return false;
                }
            },
            None => {
                proof {
                    assert(!self.id_map().contains_key(v));
                }
                return false;
            },
        }
        if self.byte_fallback && byte_token_exec(p).is_some() && !self.added_token_ids.contains(&v) {
            return false;
        }
        true
    }
}

// ───────────────────────────── encoding ─────────────────────────────

/// The rank of merging `a` with `b`, if they merge.
pub open spec fn rank_of(ranks: Map<Seq<u8>, usize>, a: Seq<u8>, b: Seq<u8>) -> Option<usize> {
    if ranks.contains_key(pair_key(a, b)) {
        Some(ranks[pair_key(a, b)])
    } else {
        None
    }
}

/// The lowest-ranked merge among the first `n` adjacent pairs of `t` (the
/// first one among equal ranks), with its rank.
pub open spec fn best_in(t: Seq<Seq<u8>>, ranks: Map<Seq<u8>, usize>, n: int) -> Option<(int, usize)>
    decreases n,
{
    if n <= 0 {
        None
    } else {
        let prev = best_in(t, ranks, n - 1);
        match rank_of(ranks, t[n - 1], t[n]) {
            Some(r) => if r < usize::MAX && (prev is None || r < prev.unwrap().1) {
                Some((n - 1, r))
            } else {
                prev
            },
            None => prev,
        }
    }
}

/// The merge that a BPE step picks among the first `n` adjacent pairs is one
/// whose rank is the lowest of all ranked pairs there, and the leftmost of
/// those with that rank (a rank of `usize::MAX` is never picked); when none is
/// picked, no pair there has a lower rank than `usize::MAX`.
pub proof fn lemma_best_in_lowest(t: Seq<Seq<u8>>, ranks: Map<Seq<u8>, usize>, n: int)
    requires
        0 <= n < t.len(),
    ensures
        best_in(t, ranks, n) matches Some((i, r)) ==> {
            &&& 0 <= i < n
            &&& rank_of(ranks, t[i], t[i + 1]) == Some(r)
            &&& r < usize::MAX
            &&& forall|j: int| 0 <= j < n && (#[trigger] rank_of(ranks, t[j], t[j + 1])) is Some ==> {
                &&& r <= rank_of(ranks, t[j], t[j + 1]).unwrap()
                &&& j < i ==> r < rank_of(ranks, t[j], t[j + 1]).unwrap()
            }
        },
        best_in(t, ranks, n) is None ==> forall|j: int| 0 <= j < n ==> (#[trigger] rank_of(ranks, t[j], t[j + 1]))
            is None || rank_of(ranks, t[j], t[j + 1]) == Some(usize::MAX),
    decreases n,
{
    if n > 0 {
        lemma_best_in_lowest(t, ranks, n - 1);
    }
}

/// `t` with pieces `i` and `i + 1` joined.
pub open spec fn merge_at(t: Seq<Seq<u8>>, i: int) -> Seq<Seq<u8>> {
    t.subrange(0, i) + seq![t[i] + t[i + 1]] + t.subrange(i + 2, t.len() as int)
}

/// Merges the best pair until no pair merges.
pub open spec fn bpe(t: Seq<Seq<u8>>, ranks: Map<Seq<u8>, usize>) -> Seq<Seq<u8>>
    decreases t.len(),
{
    if t.len() < 2 {
        t
    } else {
        match best_in(t, ranks, t.len() - 1) {
            Some((i, _)) => if 0 <= i < t.len() - 1 {
                bpe(merge_at(t, i), ranks)
            } else {
                t
            },
            None => t,
        }
    }
}

/// The ids of the pieces that are in the vocabulary, in order.
pub open spec fn ids_of(t: Seq<Seq<u8>>, vocab: Map<Seq<u8>, u32>) -> Seq<u32>
    decreases t.len(),
{
    if t.len() == 0 {
        Seq::empty()
    } else {
        ids_of(t.drop_last(), vocab) + if vocab.contains_key(t.last()) {
            seq![vocab[t.last()]]
        } else {
            Seq::empty()
        }
    }
}

/// Each byte of a word as its character of the byte-level alphabet.
pub open spec fn initial_pieces(bytes: Seq<u8>) -> Seq<Seq<u8>> {
    bytes.map_values(|b: u8| greek(b as int))
}

/// The ids of one pre-tokenized word.
pub open spec fn encode_word(word: Seq<char>, vocab: Map<Seq<u8>, u32>, ranks: Map<Seq<u8>, usize>) -> Seq<u32> {
    ids_of(bpe(initial_pieces(encode_utf8(word)), ranks), vocab)
}

/// `BpeTokenizer::encode`: the ids of the words of the text, concatenated.
pub open spec fn encode_text(text: Seq<char>, vocab: Map<Seq<u8>, u32>, ranks: Map<Seq<u8>, usize>) -> Seq<u32> {
    regex_split_spec(text).map_values(|w: Seq<char>| encode_word(w, vocab, ranks)).flatten()
}

proof fn lemma_ids_of_in_vocab(t: Seq<Seq<u8>>, vocab: Map<Seq<u8>, u32>)
    ensures
        forall|i: int| 0 <= i < ids_of(t, vocab).len() ==> vocab.values().contains(#[trigger] ids_of(t, vocab)[i]),
    decreases t.len(),
{
    if t.len() > 0 {
        lemma_ids_of_in_vocab(t.drop_last(), vocab);
        let a = ids_of(t.drop_last(), vocab);
        let r = ids_of(t, vocab);
        assert forall|i: int| 0 <= i < r.len() implies vocab.values().contains(#[trigger] r[i]) by {
            if i < a.len() {
                assert(r[i] == a[i]);
            } else {
                assert(r[i] == vocab[t.last()]);
                assert(vocab.contains_key(t.last()));
            }
        }
    }
}

proof fn lemma_flatten_in_vocab(ss: Seq<Seq<u32>>, vocab: Map<Seq<u8>, u32>)
    requires
        forall|i: int, j: int| 0 <= i < ss.len() && 0 <= j < ss[i].len() ==> vocab.values().contains(#[trigger] ss[i][j]),
    ensures
        forall|k: int| 0 <= k < ss.flatten().len() ==> vocab.values().contains(#[trigger] ss.flatten()[k]),
    decreases ss.len(),
{
    if ss.len() > 0 {
        let rest = ss.drop_first();
        assert forall|i: int, j: int| 0 <= i < rest.len() && 0 <= j < rest[i].len() implies vocab.values().contains(#[trigger] rest[i][j]) by {
            assert(rest[i] == ss[i + 1]);
        }
        lemma_flatten_in_vocab(rest, vocab);
        let f = ss.flatten();
        assert(f == ss[0] + rest.flatten());
        assert forall|k: int| 0 <= k < f.len() implies vocab.values().contains(#[trigger] f[k]) by {
            if k < ss[0].len() {
                assert(f[k] == ss[0][k]);
            } else {
                assert(f[k] == rest.flatten()[k - ss[0].len()]);
            }
        }
    }
}

/// Encoding a text is encoding each of its pre-tokenized pieces on its own and
/// concatenating the results; every id comes from the vocabulary; the empty
/// text has no ids.
pub proof fn lemma_encode_pieces(text: Seq<char>, vocab: Map<Seq<u8>, u32>, ranks: Map<Seq<u8>, usize>)
    ensures
        encode_text(text, vocab, ranks) == regex_split_spec(text).map_values(
            |w: Seq<char>| encode_text(w, vocab, ranks),
        ).flatten(),
        forall|i: int| 0 <= i < encode_text(text, vocab, ranks).len()
            ==> vocab.values().contains(#[trigger] encode_text(text, vocab, ranks)[i]),
        encode_text(Seq::empty(), vocab, ranks).len() == 0,
{
    let ps = regex_split_spec(text);
    crate::engine::llm::lemma_split_pieces(text, Seq::empty());
    let by_word = ps.map_values(|w: Seq<char>| encode_word(w, vocab, ranks));
    let by_text = ps.map_values(|w: Seq<char>| encode_text(w, vocab, ranks));
    assert forall|i: int| 0 <= i < ps.len() implies by_text[i] == by_word[i] by {
        crate::engine::llm::lemma_split_piece_self(ps[i]);
        let one = seq![ps[i]].map_values(|w: Seq<char>| encode_word(w, vocab, ranks));
        assert(one =~= seq![encode_word(ps[i], vocab, ranks)]);
        assert(one.drop_first() =~= Seq::<Seq<u32>>::empty());
        assert(one.drop_first().flatten() =~= Seq::<u32>::empty());
        assert(one.flatten() == one.first() + one.drop_first().flatten());
        assert(one.flatten() =~= encode_word(ps[i], vocab, ranks));
    }
    assert(by_text =~= by_word);
    assert forall|i: int, j: int| 0 <= i < by_word.len() && 0 <= j < by_word[i].len() implies vocab.values().contains(#[trigger] by_word[i][j]) by {
        lemma_ids_of_in_vocab(bpe(initial_pieces(encode_utf8(ps[i])), ranks), vocab);
    }
    lemma_flatten_in_vocab(by_word, vocab);
    let e = Seq::<char>::empty();
    assert(regex_split_spec(e) =~= Seq::<Seq<char>>::empty());
    assert(regex_split_spec(e).map_values(|w: Seq<char>| encode_word(w, vocab, ranks)) =~= Seq::<Seq<u32>>::empty());
}

/// Undoing the byte-level alphabet gives back the bytes it wrote, over the
/// table of `bytes_to_unicode` as `decode_byte_tokens` takes it: for every
/// byte string `b`, decoding the concatenated table entries of its bytes
/// gives `b`.
pub proof fn lemma_decode_byte_tokens_roundtrip(table: Seq<Seq<u8>>, b: Seq<u8>)
    requires
        table.len() == 256,
        forall|i: int| 0 <= i < 256 ==> #[trigger] table[i] == greek(i),
    ensures
        decode_chars(table_keys(table), lossy_text(b.map_values(|x: u8| table[x as int]).flatten())) == b,
{
    assert(table =~= Seq::new(256, |i: int| greek(i)));
    assert(b.map_values(|x: u8| table[x as int]) =~= initial_pieces(b));
    lemma_byte_level_roundtrip(b);
}

pub open spec fn bviews(t: Seq<Vec<u8>>) -> Seq<Seq<u8>> {
    t.map_values(|v: Vec<u8>| v@)
}

pub proof fn lemma_bviews_push(s: Seq<Vec<u8>>, v: Vec<u8>)
    ensures
        bviews(s.push(v)) == bviews(s).push(v@),
{
    assert(bviews(s.push(v)) =~= bviews(s).push(v@)) by {
        assert forall|j: int| 0 <= j < s.len() + 1 implies bviews(s.push(v))[j] == bviews(s).push(v@)[j] by {
            if j < s.len() {
                assert(s.push(v)[j] == s[j]);
            }
        }
    }
}

/// The chosen pair is one of the first `n`.
pub proof fn lemma_best_in_bound(t: Seq<Seq<u8>>, ranks: Map<Seq<u8>, usize>, n: int)
    ensures
        best_in(t, ranks, n) matches Some((i, _)) ==> 0 <= i < n,
    decreases n,
{
    if n > 0 {
        lemma_best_in_bound(t, ranks, n - 1);
    }
}

pub fn copy_bytes(b: &[u8]) -> (r: Vec<u8>)
    ensures
        r@ == b@,
{
    let mut r: Vec<u8> = Vec::new();
    append_bytes(&mut r, b);
    r
}

/// `t` with pieces `i` and `i + 1` joined.
fn merge_pieces(t: &Vec<Vec<u8>>, i: usize) -> (r: Vec<Vec<u8>>)
    requires
        i + 1 < t@.len(),
    ensures
        bviews(r@) == merge_at(bviews(t@), i as int),
{
    let mut r: Vec<Vec<u8>> = Vec::new();
    let mut k: usize = 0;
    while k < i
        invariant
            k <= i,
            i + 1 < t@.len(),
            bviews(r@) == bviews(t@).subrange(0, k as int),
        decreases i - k,
    {
        let c = copy_bytes(t[k].as_slice());
        let ghost before = r@;
        r.push(c);
        proof {
            lemma_bviews_push(before, c);
            assert(bviews(t@).subrange(0, k + 1) =~= bviews(t@).subrange(0, k as int).push(t@[k as int]@));
        }
        k = k + 1;
    }
    let n = t.len();
    assert(i + 1 < n);
    let mut merged = copy_bytes(t[i].as_slice());
    append_bytes(&mut merged, t[i + 1].as_slice());
    let ghost before = r@;
    r.push(merged);
    proof {
        lemma_bviews_push(before, merged);
        assert(bviews(r@) =~= bviews(t@).subrange(0, i as int) + seq![bviews(t@)[i as int] + bviews(t@)[i + 1]]);
    }
    let mut k = i + 2;
    while k < t.len()
        invariant
            i + 2 <= k <= t@.len(),
            bviews(r@) == bviews(t@).subrange(0, i as int) + seq![bviews(t@)[i as int] + bviews(t@)[i + 1]]
                + bviews(t@).subrange(i + 2, k as int),
        decreases t@.len() - k,
    {
        let c = copy_bytes(t[k].as_slice());
        let ghost before = r@;
        r.push(c);
        proof {
            lemma_bviews_push(before, c);
            assert(bviews(t@).subrange(i + 2, k + 1) =~= bviews(t@).subrange(i + 2, k as int).push(t@[k as int]@));
            assert(bviews(r@) =~= bviews(t@).subrange(0, i as int) + seq![bviews(t@)[i as int] + bviews(t@)[i + 1]]
                + bviews(t@).subrange(i + 2, k + 1));
        }
        k = k + 1;
    }
    r
}

impl BpeTokenizer {
    /// The lowest-ranked adjacent pair of `t`, as `best_in`.
    fn best_pair(&self, t: &Vec<Vec<u8>>) -> (r: Option<usize>)
        requires
            self.wf(),
            t@.len() >= 2,
        ensures
            match r {
                Some(i) => best_in(bviews(t@), self.rank_map(), t@.len() - 1) matches Some((j, _)) && j == i,
                None => best_in(bviews(t@), self.rank_map(), t@.len() - 1) is None,
            },
    {
        let ghost tv = bviews(t@);
        let mut best_rank: usize = usize::MAX;
        let mut best_idx: usize = 0;
        let mut i: usize = 0;
        while i < t.len() - 1
            invariant
                self.wf(),
                t@.len() >= 2,
                tv == bviews(t@),
                i <= t@.len() - 1,
                best_rank == usize::MAX ==> best_in(tv, self.rank_map(), i as int) is None,
                best_rank < usize::MAX ==> best_in(tv, self.rank_map(), i as int) == Some((best_idx as int, best_rank)),
            decreases t@.len() - 1 - i,
        {
            let key = pair_key_exec(t[i].as_slice(), t[i + 1].as_slice());
            proof {
                assert(tv[i as int] == t@[i as int]@);
                assert(tv[i + 1] == t@[i + 1]@);
            }
            match self.merge_rank.get(key.as_slice()) {
                Some(rank) => {
                    if rank < best_rank {
                        best_rank = rank;
                        best_idx = i;
                    }
                },
                None => {},
            }
            i = i + 1;
        }
        if best_rank == usize::MAX {
            None
        } else {
            Some(best_idx)
        }
    }

    /// The ids of one word, given the byte-level alphabet.
    fn encode_word_exec(&self, word: &[char], table: &Vec<Vec<u8>>) -> (r: Vec<u32>)
        requires
            self.wf(),
            table@.len() == 256,
            forall|b: int| 0 <= b < 256 ==> #[trigger] table@[b]@ == greek(b),
        ensures
            r@ == encode_word(word@, self.vocab_map(), self.rank_map()),
    {
        let ws = crate::chars::string_from_chars(word);
        let bytes = bytes_of(ws.as_str());
        let mut tokens: Vec<Vec<u8>> = Vec::new();
        let mut i: usize = 0;
        while i < bytes.len()
            invariant
                i <= bytes@.len(),
                table@.len() == 256,
                forall|b: int| 0 <= b < 256 ==> #[trigger] table@[b]@ == greek(b),
                bviews(tokens@) == initial_pieces(bytes@).take(i as int),
            decreases bytes@.len() - i,
        {
            let g = copy_bytes(table[bytes[i] as usize].as_slice());
            let ghost before = tokens@;
            tokens.push(g);
            proof {
                assert(table@[bytes@[i as int] as int]@ == greek(bytes@[i as int] as int));
                lemma_bviews_push(before, g);
                assert(initial_pieces(bytes@).take(i + 1) =~= initial_pieces(bytes@).take(i as int).push(greek(bytes@[i as int] as int)));
            }
            i = i + 1;
        }
        let ghost init = initial_pieces(encode_utf8(word@));
        proof {
            assert(initial_pieces(bytes@).take(i as int) =~= init);
        }
        loop
            invariant
                self.wf(),
                bpe(bviews(tokens@), self.rank_map()) == bpe(init, self.rank_map()),
            ensures
                bviews(tokens@) == bpe(init, self.rank_map()),
            decreases tokens@.len(),
        {
            if tokens.len() < 2 {
                break;
            }
            match self.best_pair(&tokens) {
                None => break,
                Some(b) => {
                    proof {
                        lemma_best_in_bound(bviews(tokens@), self.rank_map(), tokens@.len() - 1);
                    }
                    let ghost before = bviews(tokens@);
                    tokens = merge_pieces(&tokens, b);
                    proof {
                        assert(bpe(before, self.rank_map()) == bpe(merge_at(before, b as int), self.rank_map()));
                    }
                },
            }
        }
        let mut ids: Vec<u32> = Vec::new();
        let mut k: usize = 0;
        let ghost fin = bviews(tokens@);
        proof {
            assert(fin.take(0) =~= Seq::<Seq<u8>>::empty());
        }
        while k < tokens.len()
            invariant
                self.wf(),
                k <= tokens@.len(),
                fin == bviews(tokens@),
                ids@ == ids_of(fin.take(k as int), self.vocab_map()),
            decreases tokens@.len() - k,
        {
            proof {
                assert(fin.take(k + 1).drop_last() =~= fin.take(k as int));
                assert(fin.take(k + 1).last() == tokens@[k as int]@);
            }
            match self.vocab.get(tokens[k].as_slice()) {
                Some(id) => {
                    ids.push(id);
                },
                None => {},
            }
            proof {
                assert(ids@ =~= ids_of(fin.take(k + 1), self.vocab_map()));
            }
            k = k + 1;
        }
        proof {
            assert(fin.take(k as int) =~= fin);
        }
        ids
    }

    /// `encode`: the token ids of a text (without special-token handling).
    pub fn encode(&self, text: &str) -> (r: Vec<u32>)
        requires
            self.wf(),
        ensures
            r@ == encode_text(text@, self.vocab_map(), self.rank_map()),
    {
        let table = bytes_to_unicode();
        let words = regex_split_chars(crate::chars::chars_of(text).as_slice());
        let ghost wv = crate::chars::views(words@);
        let ghost enc = wv.map_values(|w: Seq<char>| encode_word(w, self.vocab_map(), self.rank_map()));
        let mut result: Vec<u32> = Vec::new();
        let mut i: usize = 0;
        proof {
            assert(enc.take(0) =~= Seq::<Seq<u32>>::empty());
        }
        while i < words.len()
            invariant
                self.wf(),
                table@.len() == 256,
                forall|b: int| 0 <= b < 256 ==> #[trigger] table@[b]@ == greek(b),
                i <= words@.len(),
                wv == crate::chars::views(words@),
                enc == wv.map_values(|w: Seq<char>| encode_word(w, self.vocab_map(), self.rank_map())),
                result@ == enc.take(i as int).flatten(),
            decreases words@.len() - i,
        {
            let ids = self.encode_word_exec(words[i].as_slice(), &table);
            proof {
                assert(enc.take(i + 1) =~= enc.take(i as int).push(enc[i as int]));
                enc.take(i as int).lemma_flatten_push(enc[i as int]);
                assert(ids@ == enc[i as int]);
            }
            let mut k: usize = 0;
            let ghost before = result@;
            while k < ids.len()
                invariant
                    k <= ids@.len(),
                    result@ == before + ids@.subrange(0, k as int),
                decreases ids@.len() - k,
            {
                result.push(ids[k]);
                k = k + 1;
            }
            proof {
                assert(ids@.subrange(0, k as int) =~= ids@);
            }
            i = i + 1;
        }
        proof {
            assert(enc.take(i as int) =~= enc);
        }
        result
    }
}


// ───────────────────────────── special tokens ─────────────────────────────

/// `str::find` with a string pattern: the first position where `p` occurs in `s`.
pub open spec fn find_seq(s: Seq<char>, p: Seq<char>) -> Option<nat>
    decreases s.len(),
{
    if s.len() < p.len() {
        None
    } else if crate::chars::starts_with(s, p) {
        Some(0)
    } else if s.len() == 0 {
        None
    } else {
        match find_seq(s.drop_first(), p) {
            Some(k) => Some(k + 1),
            None => None,
        }
    }
}

pub proof fn lemma_find_seq_bound(s: Seq<char>, p: Seq<char>)
    ensures
        find_seq(s, p) matches Some(k) ==> k + p.len() <= s.len(),
    decreases s.len(),
{
    if s.len() >= p.len() && !crate::chars::starts_with(s, p) && s.len() > 0 {
        lemma_find_seq_bound(s.drop_first(), p);
    }
}

pub fn find_chars(s: &[char], p: &[char]) -> (r: Option<usize>)
    ensures
        match r {
            Some(k) => find_seq(s@, p@) == Some(k as nat),
            None => find_seq(s@, p@) is None,
        },
{
    let n = s.len();
    let mut i: usize = 0;
    proof {
        assert(s@.subrange(0, n as int) =~= s@);
    }
    loop
        invariant
            n == s@.len(),
            i <= n,
            match find_seq(s@.subrange(i as int, n as int), p@) {
                Some(k) => find_seq(s@, p@) == Some((k + i) as nat),
                None => find_seq(s@, p@) is None,
            },
        decreases n - i,
    {
        let rest = crate::chars::slice_chars(s, i, n);
        if rest.len() < p.len() {
            return None;
        }
        if crate::chars::starts_with_chars(rest.as_slice(), p) {
            return Some(i);
        }
        if i == n {
            return None;
        }
        proof {
            assert(rest@.drop_first() =~= s@.subrange(i + 1, n as int));
        }
        i = i + 1;
    }
}

/// The special token that occurs first in `rem` among the first `n` ones
/// (the earlier one in the list when two start at the same place), with its
/// position and length; position `rem.len()` when none occurs.
pub open spec fn earliest_in(rem: Seq<char>, sp: Seq<(Seq<char>, u32)>, n: int) -> (Option<u32>, int, int)
    decreases n,
{
    if n <= 0 {
        (None, rem.len() as int, 0)
    } else {
        let prev = earliest_in(rem, sp, n - 1);
        match find_seq(rem, sp[n - 1].0) {
            Some(pos) => if pos < prev.1 {
                (Some(sp[n - 1].1), pos as int, sp[n - 1].0.len() as int)
            } else {
                prev
            },
            None => prev,
        }
    }
}

pub proof fn lemma_earliest_in_bound(rem: Seq<char>, sp: Seq<(Seq<char>, u32)>, n: int)
    requires
        n <= sp.len(),
        forall|i: int| 0 <= i < sp.len() ==> (#[trigger] sp[i]).0.len() > 0,
    ensures
        ({
            let (e, pos, len) = earliest_in(rem, sp, n);
            &&& 0 <= pos <= rem.len()
            &&& e is Some ==> 0 < len && pos + len <= rem.len()
            &&& e is None ==> pos == rem.len()
        }),
    decreases n,
{
    if n > 0 {
        lemma_earliest_in_bound(rem, sp, n - 1);
        lemma_find_seq_bound(rem, sp[n - 1].0);
        assert(sp[n - 1].0.len() > 0);
    }
}

/// `encode_with_special`: the text up to the first special token is encoded
/// as usual, the special token becomes its id, and the rest follows.
pub open spec fn encode_special_text(
    rem: Seq<char>,
    sp: Seq<(Seq<char>, u32)>,
    vocab: Map<Seq<u8>, u32>,
    ranks: Map<Seq<u8>, usize>,
) -> Seq<u32>
    decreases rem.len(),
{
    if rem.len() == 0 {
        Seq::empty()
    } else {
        let (e, pos, len) = earliest_in(rem, sp, sp.len() as int);
        let before = if pos > 0 && pos <= rem.len() {
            encode_text(rem.subrange(0, pos), vocab, ranks)
        } else {
            Seq::empty()
        };
        match e {
            Some(id) => if 0 < pos + len && pos + len <= rem.len() {
                before + seq![id] + encode_special_text(rem.subrange(pos + len, rem.len() as int), sp, vocab, ranks)
            } else {
                before + seq![id]
            },
            None => before,
        }
    }
}

proof fn lemma_earliest_none(rem: Seq<char>, sp: Seq<(Seq<char>, u32)>, n: int)
    requires
        n <= sp.len(),
        forall|i: int| 0 <= i < sp.len() ==> (#[trigger] find_seq(rem, sp[i].0)) is None,
    ensures
        earliest_in(rem, sp, n) == (None::<u32>, rem.len() as int, 0int),
    decreases n,
{
    if n > 0 {
        lemma_earliest_none(rem, sp, n - 1);
        assert(find_seq(rem, sp[n - 1].0) is None);
    }
}

/// A text in which no special token occurs is encoded by
/// `encode_with_special` exactly as by `encode`.
pub proof fn lemma_no_specials_plain(
    text: Seq<char>,
    sp: Seq<(Seq<char>, u32)>,
    vocab: Map<Seq<u8>, u32>,
    ranks: Map<Seq<u8>, usize>,
)
    requires
        forall|i: int| 0 <= i < sp.len() ==> (#[trigger] find_seq(text, sp[i].0)) is None,
    ensures
        encode_special_text(text, sp, vocab, ranks) == encode_text(text, vocab, ranks),
{
    if text.len() == 0 {
        assert(crate::engine::llm::regex_split_spec(text) =~= Seq::<Seq<char>>::empty());
        assert(encode_text(text, vocab, ranks) =~= Seq::<u32>::empty());
    } else {
        lemma_earliest_none(text, sp, sp.len() as int);
        assert(text.subrange(0, text.len() as int) =~= text);
    }
}

proof fn lemma_earliest_some(rem: Seq<char>, sp: Seq<(Seq<char>, u32)>, n: int)
    requires
        0 <= n <= sp.len(),
        forall|i: int| 0 <= i < sp.len() ==> (#[trigger] sp[i]).0.len() > 0,
    ensures
        ({
            let (e, pos, len) = earliest_in(rem, sp, n);
            &&& e matches Some(id) ==> exists|i: int|
                0 <= i < n && #[trigger] find_seq(rem, sp[i].0) == Some(pos as nat) && sp[i].1 == id && len
                    == sp[i].0.len()
            &&& forall|j: int| 0 <= j < n && (#[trigger] find_seq(rem, sp[j].0)) is Some ==> pos <= find_seq(rem, sp[j].0).unwrap()
            &&& (exists|j: int| 0 <= j < n && (#[trigger] find_seq(rem, sp[j].0)) is Some) ==> e is Some
        }),
    decreases n,
{
    if n > 0 {
        lemma_earliest_some(rem, sp, n - 1);
        lemma_earliest_in_bound(rem, sp, n - 1);
        lemma_find_seq_bound(rem, sp[n - 1].0);
        assert(sp[n - 1].0.len() > 0);
        let prev = earliest_in(rem, sp, n - 1);
        let cur = earliest_in(rem, sp, n);
        match find_seq(rem, sp[n - 1].0) {
            Some(q) => {
                if q < prev.1 {
                    assert(find_seq(rem, sp[n - 1].0) == Some(cur.1 as nat));
                } else {
                    assert(cur == prev);
                    if prev.0 is None {
                        assert(prev.1 == rem.len());
                    }
                }
            },
            None => {
                assert(cur == prev);
            },
        }
        if exists|j: int| 0 <= j < n && (#[trigger] find_seq(rem, sp[j].0)) is Some {
            let j = choose|j: int| 0 <= j < n && (#[trigger] find_seq(rem, sp[j].0)) is Some;
            if j < n - 1 {
                assert(prev.0 is Some);
            }
        }
    }
}

/// `encode_with_special` on a text in which some special token occurs: the
/// encoding of the text before the first occurrence of any special token,
/// then the id of a special token that starts there (the one listed first
/// when several do), then the ids of what follows that token.
pub proof fn lemma_encode_special_first(
    text: Seq<char>,
    sp: Seq<(Seq<char>, u32)>,
    vocab: Map<Seq<u8>, u32>,
    ranks: Map<Seq<u8>, usize>,
)
    requires
        forall|i: int| 0 <= i < sp.len() ==> (#[trigger] sp[i]).0.len() > 0,
        exists|i: int| 0 <= i < sp.len() && (#[trigger] find_seq(text, sp[i].0)) is Some,
    ensures
        exists|i: int|
            0 <= i < sp.len() && (#[trigger] find_seq(text, sp[i].0)) is Some && {
                let p = find_seq(text, sp[i].0).unwrap() as int;
                &&& (forall|j: int| 0 <= j < sp.len() && (#[trigger] find_seq(text, sp[j].0)) is Some ==> p <= find_seq(text, sp[j].0).unwrap())
                &&& 0 <= p && p + sp[i].0.len() <= text.len()
                &&& encode_special_text(text, sp, vocab, ranks) == encode_text(text.subrange(0, p), vocab, ranks) + seq![sp[i].1]
                    + encode_special_text(text.subrange(p + sp[i].0.len(), text.len() as int), sp, vocab, ranks)
            },
{
    let n = sp.len() as int;
    lemma_earliest_some(text, sp, n);
    lemma_earliest_in_bound(text, sp, n);
    let (e, pos, len) = earliest_in(text, sp, n);
    let i = choose|i: int|
        0 <= i < n && #[trigger] find_seq(text, sp[i].0) == Some(pos as nat) && sp[i].1 == e.unwrap() && len == sp[i].0.len();
    lemma_find_seq_bound(text, sp[i].0);
    assert(text.len() > 0);
    if pos == 0 {
        assert(crate::engine::llm::regex_split_spec(text.subrange(0, 0)) =~= Seq::<Seq<char>>::empty());
        assert(encode_text(text.subrange(0, 0), vocab, ranks) =~= Seq::<u32>::empty());
    }
    assert(encode_special_text(text, sp, vocab, ranks) == encode_text(text.subrange(0, pos), vocab, ranks) + seq![sp[i].1]
        + encode_special_text(text.subrange(pos + sp[i].0.len(), text.len() as int), sp, vocab, ranks));
}

impl BpeTokenizer {
    /// No special token is empty (an empty one would match everywhere).
    pub closed spec fn specials_nonempty(&self) -> bool {
        forall|i: int| 0 <= i < self.specials().len() ==> (#[trigger] self.specials()[i]).0.len() > 0
    }

    /// Whether every special token is non-empty, so that `encode_with_special` applies.
    pub fn has_only_nonempty_specials(&self) -> (r: bool)
        ensures
            r == self.specials_nonempty(),
    {
        let mut i: usize = 0;
        while i < self.special_tokens.len()
            invariant
                i <= self.special_tokens@.len(),
                forall|j: int| 0 <= j < i ==> (#[trigger] self.specials()[j]).0.len() > 0,
            decreases self.special_tokens@.len() - i,
        {
            if self.special_tokens[i].0.as_str().is_empty() {
                assert(self.specials()[i as int].0.len() == 0);
                return false;
            }
            assert(self.specials()[i as int].0 == self.special_tokens@[i as int].0@);
            i = i + 1;
        }
        true
    }

    /// The first special token in `rem`.
    fn earliest_special(&self, rem: &[char]) -> (r: (Option<u32>, usize, usize))
        requires
            self.wf(),
        ensures
            (r.0, r.1 as int, r.2 as int) == earliest_in(rem@, self.specials(), self.specials().len() as int),
    {
        let mut earliest: Option<u32> = None;
        let mut earliest_pos: usize = rem.len();
        let mut earliest_len: usize = 0;
        let mut i: usize = 0;
        while i < self.special_tokens.len()
            invariant
                i <= self.special_tokens@.len(),
                self.specials().len() == self.special_tokens@.len(),
                (earliest, earliest_pos as int, earliest_len as int) == earliest_in(rem@, self.specials(), i as int),
            decreases self.special_tokens@.len() - i,
        {
            let name = crate::chars::chars_of(self.special_tokens[i].0.as_str());
            proof {
                assert(self.specials()[i as int] == (self.special_tokens@[i as int].0@, self.special_tokens@[i as int].1));
            }
            match find_chars(rem, name.as_slice()) {
                Some(pos) => {
                    if pos < earliest_pos {
                        earliest_pos = pos;
                        earliest_len = name.len();
                        earliest = Some(self.special_tokens[i].1);
                    }
                },
                None => {},
            }
            i = i + 1;
        }
        (earliest, earliest_pos, earliest_len)
    }

    /// `encode_with_special`: like `encode`, with special tokens (the added
    /// tokens, such as `<|im_start|>`) turned into their ids.
    pub fn encode_with_special(&self, text: &str) -> (r: Vec<u32>)
        requires
            self.wf(),
            self.specials_nonempty(),
        ensures
            r@ == encode_special_text(text@, self.specials(), self.vocab_map(), self.rank_map()),
    {
        let t = crate::chars::chars_of(text);
        let n = t.len();
        let mut result: Vec<u32> = Vec::new();
        let mut start: usize = 0;
        proof {
            assert(t@.subrange(0, n as int) =~= t@);
        }
        while start < n
            invariant
                self.wf(),
                self.specials_nonempty(),
                n == t@.len(),
                t@ == text@,
                start <= n,
                result@ + encode_special_text(t@.subrange(start as int, n as int), self.specials(), self.vocab_map(), self.rank_map())
                    == encode_special_text(text@, self.specials(), self.vocab_map(), self.rank_map()),
            decreases n - start,
        {
            let rem = crate::chars::slice_chars(t.as_slice(), start, n);
            let (e, pos, len) = self.earliest_special(rem.as_slice());
            proof {
                lemma_earliest_in_bound(rem@, self.specials(), self.specials().len() as int);
            }
            let ghost before = result@;
            let ghost bpart = if pos > 0 && pos <= rem@.len() {
                encode_text(rem@.subrange(0, pos as int), self.vocab_map(), self.rank_map())
            } else {
                Seq::<u32>::empty()
            };
            if pos > 0 {
                let head = crate::chars::slice_chars(rem.as_slice(), 0, pos);
                let hs = crate::chars::string_from_chars(head.as_slice());
                let ids = self.encode(hs.as_str());
                let mut k: usize = 0;
                while k < ids.len()
                    invariant
                        k <= ids@.len(),
                        result@ == before + ids@.subrange(0, k as int),
                    decreases ids@.len() - k,
                {
                    result.push(ids[k]);
                    k = k + 1;
                }
                proof {
                    assert(ids@.subrange(0, k as int) =~= ids@);
                }
            } else {
                proof {
                    assert(result@ =~= before + bpart);
                }
            }
            match e {
                Some(id) => {
                    result.push(id);
                    proof {
                        assert(rem@.subrange(pos + len, rem@.len() as int) =~= t@.subrange(start + pos + len, n as int));
                        assert(result@ + encode_special_text(t@.subrange(start + pos + len, n as int), self.specials(), self.vocab_map(), self.rank_map())
                            =~= before + encode_special_text(rem@, self.specials(), self.vocab_map(), self.rank_map()));
                    }
                    start = start + pos + len;
                },
                None => {
                    proof {
                        assert(t@.subrange(n as int, n as int) =~= Seq::<char>::empty());
                        assert(result@ + Seq::<u32>::empty() =~= before + encode_special_text(rem@, self.specials(), self.vocab_map(), self.rank_map()));
                    }
                    start = n;
                },
            }
        }
        proof {
            assert(t@.subrange(start as int, n as int) =~= Seq::<char>::empty());
            assert(result@ + Seq::<u32>::empty() =~= result@);
        }
        result
    }
}


// ───────────────────────────── decoding ─────────────────────────────

/// What `String::from_utf8_lossy` makes of a byte string: the text, with each
/// ill-formed part replaced by U+FFFD.
pub uninterp spec fn utf8_lossy_of(b: Seq<u8>) -> Seq<char>;

/// The text of a byte string as `from_utf8_lossy` gives it: the decoded
/// characters when the bytes are valid UTF-8.
pub open spec fn lossy_text(b: Seq<u8>) -> Seq<char> {
    if valid_utf8(b) {
        decode_utf8(b)
    } else {
        utf8_lossy_of(b)
    }
}

/// `String::from_utf8_lossy(b).into_owned()`: on valid UTF-8 the decoded
/// characters; otherwise the text with U+FFFD in place of each ill-formed
/// part, which is left unstated here (named `utf8_lossy_of`).
#[verifier::external_body]
fn utf8_lossy(b: &[u8]) -> (r: String)
    ensures
        r@ == utf8_lossy_of(b@),
        valid_utf8(b@) ==> r@ == decode_utf8(b@),
{
    String::from_utf8_lossy(b).into_owned()
}

fn lossy_string(b: &[u8]) -> (r: String)
    ensures
        r@ == lossy_text(b@),
{
    utf8_lossy(b)
}

/// A `<0xNN>` token of a byte-fallback vocabulary: the byte `NN` (parsed as
/// `u8::from_str_radix(.., 16)` does).
pub open spec fn byte_token(tb: Seq<u8>) -> Option<u8> {
    if tb.len() == 6 && tb[0] == 60 && tb[1] == 48 && tb[2] == 120 && tb[5] == 62 {
        crate::secret::hex_pair(tb[3], tb[4])
    } else {
        None
    }
}

fn byte_token_exec(tb: &[u8]) -> (r: Option<u8>)
    ensures
        r == byte_token(tb@),
{
    if tb.len() == 6 && tb[0] == 60 && tb[1] == 48 && tb[2] == 120 && tb[5] == 62 {
        crate::secret::hex_pair_exec(tb[3], tb[4])
    } else {
        None
    }
}

/// The bytes that one id contributes to the decoded text: nothing for an
/// unknown id, the token's bytes for an added token, the byte of a `<0xNN>`
/// token under byte fallback, and the token's bytes otherwise.
pub open spec fn token_piece(id: u32, ids: Map<u32, Seq<u8>>, added: Set<u32>, fallback: bool) -> Seq<u8> {
    if !ids.contains_key(id) {
        Seq::empty()
    } else if added.contains(id) {
        ids[id]
    } else if fallback && byte_token(ids[id]) is Some {
        seq![byte_token(ids[id]).unwrap()]
    } else {
        ids[id]
    }
}

/// The byte string gathered from the ids before the byte-level alphabet is undone.
pub open spec fn decode_buf(ids: Seq<u32>, idm: Map<u32, Seq<u8>>, added: Set<u32>, fallback: bool) -> Seq<u8> {
    ids.map_values(|id: u32| token_piece(id, idm, added, fallback)).flatten()
}

/// The byte of the last key equal to `cand` (a later key replaces an earlier one).
pub open spec fn key_lookup(keys: Seq<Seq<char>>, cand: Seq<char>) -> Option<u8>
    decreases keys.len(),
{
    if keys.len() == 0 {
        None
    } else if keys.last() == cand {
        Some((keys.len() - 1) as u8)
    } else {
        key_lookup(keys.drop_last(), cand)
    }
}

/// The longest prefix of `s` of at most `t` characters that is a key, with its byte.
pub open spec fn best_prefix(keys: Seq<Seq<char>>, s: Seq<char>, t: int) -> Option<(u8, int)>
    decreases t,
{
    if t <= 0 {
        None
    } else {
        match key_lookup(keys, s.take(t)) {
            Some(b) => Some((b, t)),
            None => best_prefix(keys, s, t - 1),
        }
    }
}

proof fn lemma_best_prefix_bound(keys: Seq<Seq<char>>, s: Seq<char>, t: int)
    ensures
        best_prefix(keys, s, t) matches Some((b, l)) ==> 1 <= l <= t,
    decreases t,
{
    if t > 0 {
        lemma_best_prefix_bound(keys, s, t - 1);
    }
}

/// Undoes the byte-level alphabet: the longest run of up to four characters
/// that is the character of a byte becomes that byte; any other character
/// stays as its UTF-8 bytes.
pub open spec fn decode_chars(keys: Seq<Seq<char>>, s: Seq<char>) -> Seq<u8>
    decreases s.len(),
{
    if s.len() == 0 {
        Seq::empty()
    } else {
        let t = if s.len() < 4 { s.len() as int } else { 4int };
        match best_prefix(keys, s, t) {
            Some((b, l)) => if 1 <= l <= s.len() {
                seq![b] + decode_chars(keys, s.subrange(l, s.len() as int))
            } else {
                Seq::empty()
            },
            None => encode_scalar(s[0] as u32) + decode_chars(keys, s.drop_first()),
        }
    }
}

/// The keys of the inverse of a byte-level alphabet table.
pub open spec fn table_keys(table: Seq<Seq<u8>>) -> Seq<Seq<char>> {
    table.map_values(|e: Seq<u8>| lossy_text(e))
}

/// `decode_byte_tokens` with the alphabet of `bytes_to_unicode`.
pub open spec fn byte_level_decode(b: Seq<u8>) -> Seq<u8> {
    decode_chars(table_keys(Seq::new(256, |i: int| greek(i))), lossy_text(b))
}

/// `BpeTokenizer::decode`.
pub open spec fn decode_ids(ids: Seq<u32>, idm: Map<u32, Seq<u8>>, added: Set<u32>, fallback: bool) -> Seq<char> {
    lossy_text(byte_level_decode(decode_buf(ids, idm, added, fallback)))
}

fn key_lookup_exec(keys: &Vec<Vec<char>>, cand: &[char]) -> (r: Option<u8>)
    requires
        keys@.len() <= 256,
    ensures
        r == key_lookup(crate::chars::views(keys@), cand@),
{
    let ghost kv = crate::chars::views(keys@);
    let mut i: usize = keys.len();
    proof {
        assert(kv.take(i as int) =~= kv);
    }
    while i > 0
        invariant
            i <= keys@.len() <= 256,
            kv == crate::chars::views(keys@),
            key_lookup(kv, cand@) == key_lookup(kv.take(i as int), cand@),
        decreases i,
    {
        let ghost pre = kv.take(i as int);
        proof {
            assert(pre.drop_last() =~= kv.take(i - 1));
            assert(pre.last() == keys@[i - 1]@);
        }
        if crate::engine::coze_refine::eq_chars(keys[i - 1].as_slice(), cand) {
            return Some((i - 1) as u8);
        }
        i = i - 1;
    }
    None
}

/// `decode_byte_tokens`: undoes a byte-level alphabet `table` (byte `i` is
/// written as the text of `table[i]`) on the text of `token_bytes`.
fn decode_byte_tokens(token_bytes: &[u8], greek_tokens: &Vec<Vec<u8>>) -> (r: Vec<u8>)
    requires
        greek_tokens@.len() <= 256,
    ensures
        r@ == decode_chars(table_keys(bviews(greek_tokens@)), lossy_text(token_bytes@)),
{
    let ghost keys_spec = table_keys(bviews(greek_tokens@));
    let mut keys: Vec<Vec<char>> = Vec::new();
    let mut j: usize = 0;
    while j < greek_tokens.len()
        invariant
            j <= greek_tokens@.len() <= 256,
            keys_spec == table_keys(bviews(greek_tokens@)),
            crate::chars::views(keys@) == keys_spec.take(j as int),
        decreases greek_tokens@.len() - j,
    {
        let s = lossy_string(greek_tokens[j].as_slice());
        let k = crate::chars::chars_of(s.as_str());
        proof {
            crate::chars::lemma_views_push(keys@, k);
            assert(keys_spec.take(j + 1) =~= keys_spec.take(j as int).push(k@));
        }
        keys.push(k);
        j = j + 1;
    }
    proof {
        assert(keys_spec.take(j as int) =~= keys_spec);
    }
    let input = lossy_string(token_bytes);
    let chars = crate::chars::chars_of(input.as_str());
    let n = chars.len();
    let mut result: Vec<u8> = Vec::new();
    let mut pos: usize = 0;
    proof {
        assert(chars@.subrange(0, n as int) =~= chars@);
    }
    while pos < n
        invariant
            n == chars@.len(),
            pos <= n,
            keys@.len() <= 256,
            crate::chars::views(keys@) == keys_spec,
            result@ + decode_chars(keys_spec, chars@.subrange(pos as int, n as int))
                == decode_chars(keys_spec, lossy_text(token_bytes@)),
            chars@ == lossy_text(token_bytes@),
        decreases n - pos,
    {
        let ghost rest = chars@.subrange(pos as int, n as int);
        let remaining = n - pos;
        let max_len: usize = if remaining < 4 { remaining } else { 4 };
        let mut best_match: Option<u8> = None;
        let mut best_len: usize = 0;
        let mut try_len: usize = 1;
        while try_len <= max_len
            invariant
                1 <= try_len <= max_len + 1,
                best_len < try_len,
                max_len <= 4,
                pos + max_len <= n,
                n == chars@.len(),
                rest == chars@.subrange(pos as int, n as int),
                keys@.len() <= 256,
                crate::chars::views(keys@) == keys_spec,
                match best_prefix(keys_spec, rest, try_len - 1) {
                    Some((b, l)) => best_match == Some(b) && best_len == l,
                    None => best_match is None && best_len == 0,
                },
            decreases max_len + 1 - try_len,
        {
            proof {
                lemma_best_prefix_bound(keys_spec, rest, try_len - 1);
            }
            let candidate = crate::chars::slice_chars(chars.as_slice(), pos, pos + try_len);
            proof {
                assert(candidate@ =~= rest.take(try_len as int));
            }
            match key_lookup_exec(&keys, candidate.as_slice()) {
                Some(byte_val) => {
                    if try_len > best_len {
                        best_len = try_len;
                        best_match = Some(byte_val);
                    }
                },
                None => {},
            }
            try_len = try_len + 1;
        }
        let ghost before = result@;
        proof {
            lemma_best_prefix_bound(keys_spec, rest, max_len as int);
        }
        match best_match {
            Some(byte_val) => {
                result.push(byte_val);
                proof {
                    assert(rest.subrange(best_len as int, rest.len() as int)
                        =~= chars@.subrange(pos + best_len, n as int));
                    assert(result@ + decode_chars(keys_spec, chars@.subrange(pos + best_len, n as int))
                        =~= before + decode_chars(keys_spec, rest));
                }
                pos = pos + best_len;
            },
            None => {
                let c = chars[pos];
                proof {
                    vstd::utf8::char_is_scalar(c);
                }
                let enc = crate::engine::llm::encode_scalar_exec(c as u32);
                append_bytes(&mut result, enc.as_slice());
                proof {
                    assert(rest.drop_first() =~= chars@.subrange(pos + 1, n as int));
                    assert(result@ + decode_chars(keys_spec, chars@.subrange(pos + 1, n as int))
                        =~= before + decode_chars(keys_spec, rest));
                }
                pos = pos + 1;
            },
        }
    }
    proof {
        assert(chars@.subrange(n as int, n as int) =~= Seq::<char>::empty());
        assert(result@ + Seq::<u8>::empty() =~= result@);
    }
    result
}

impl BpeTokenizer {
    /// `decode`: the text of a sequence of ids.
    pub fn decode(&self, ids: &[u32]) -> (r: String)
        ensures
            r@ == decode_ids(ids@, self.id_map(), self.added_ids(), self.byte_fallback()),
    {
        let greek_tokens = bytes_to_unicode();
        let ghost pieces = ids@.map_values(|id: u32| token_piece(id, self.id_map(), self.added_ids(), self.byte_fallback()));
        let mut byte_buf: Vec<u8> = Vec::new();
        let mut k: usize = 0;
        proof {
            assert(pieces.take(0) =~= Seq::<Seq<u8>>::empty());
        }
        while k < ids.len()
            invariant
                k <= ids@.len(),
                pieces == ids@.map_values(|id: u32| token_piece(id, self.id_map(), self.added_ids(), self.byte_fallback())),
                byte_buf@ == pieces.take(k as int).flatten(),
            decreases ids@.len() - k,
        {
            let id = ids[k];
            let ghost before = byte_buf@;
            proof {
                assert(pieces.take(k + 1) =~= pieces.take(k as int).push(pieces[k as int]));
                pieces.take(k as int).lemma_flatten_push(pieces[k as int]);
            }
            match self.id_to_token.get(&id) {
                Some(token_bytes) => {
                    proof {
                        assert(self.id_map().contains_key(id));
                        assert(self.id_map()[id] == token_bytes@);
                    }
                    if self.added_token_ids.contains(&id) {
                        append_bytes(&mut byte_buf, token_bytes.as_slice());
                    } else {
                        let fb = if self.byte_fallback {
                            byte_token_exec(token_bytes.as_slice())
                        } else {
                            None
                        };
                        match fb {
                            Some(byte_val) => {
                                byte_buf.push(byte_val);
                                proof {
                                    assert(byte_buf@ =~= before + seq![byte_val]);
                                }
                            },
                            None => {
                                append_bytes(&mut byte_buf, token_bytes.as_slice());
                            },
                        }
                    }
                },
                None => {
                    proof {
                        assert(!self.id_map().contains_key(id));
                        assert(byte_buf@ =~= before + Seq::<u8>::empty());
                    }
                },
            }
            k = k + 1;
        }
        proof {
            assert(pieces.take(k as int) =~= pieces);
            assert(bviews(greek_tokens@) =~= Seq::new(256, |i: int| greek(i)));
        }
        let decoded = decode_byte_tokens(byte_buf.as_slice(), &greek_tokens);
        match crate::secret::string_from_utf8(copy_bytes(decoded.as_slice())) {
            Some(s) => s,
            None => lossy_string(decoded.as_slice()),
        }
    }
}


// ───────────────────────────── the byte-level alphabet undone ─────────────────────────────

/// The character that byte `x` is written as.
pub open spec fn greek_char(x: int) -> char {
    crate::engine::llm::byte_cp(x) as char
}

pub(crate) proof fn lemma_non_bs_below_mono(a: int, b: int)
    requires
        0 <= a <= b,
    ensures
        crate::engine::llm::non_bs_below(a) <= crate::engine::llm::non_bs_below(b),
    decreases b - a,
{
    if a < b {
        lemma_non_bs_below_mono(a, b - 1);
    }
}

pub(crate) proof fn lemma_non_bs_below_range(b: int)
    requires
        0 <= b,
    ensures
        0 <= crate::engine::llm::non_bs_below(b) <= b,
    decreases b,
{
    if b > 0 {
        lemma_non_bs_below_range(b - 1);
    }
}

pub(crate) proof fn lemma_greek_char(x: int)
    requires
        0 <= x < 256,
    ensures
        greek_char(x) as u32 == crate::engine::llm::byte_cp(x),
        greek(x) == encode_utf8(seq![greek_char(x)]),
        lossy_text(greek(x)) == seq![greek_char(x)],
{
    lemma_non_bs_below_range(x);
    let cp = crate::engine::llm::byte_cp(x);
    assert(cp < 0xD800);
    assert(greek_char(x) as u32 == cp);
    let cs = seq![greek_char(x)];
    assert(cs.drop_first() =~= Seq::<char>::empty());
    assert(cs[0] as u32 == cp);
    assert(encode_utf8(cs.drop_first()) =~= Seq::<u8>::empty());
    assert(encode_utf8(cs) =~= encode_scalar(cp));
    vstd::utf8::encode_utf8_valid_utf8(cs);
    vstd::utf8::encode_utf8_decode_utf8(cs);
}

proof fn lemma_greek_char_injective(x: int, y: int)
    requires
        0 <= x < 256,
        0 <= y < 256,
        greek_char(x) == greek_char(y),
    ensures
        x == y,
{
    lemma_greek_char(x);
    lemma_greek_char(y);
    lemma_non_bs_below_range(x);
    lemma_non_bs_below_range(y);
    if x != y && !crate::engine::llm::in_bs(x) && !crate::engine::llm::in_bs(y) {
        if x < y {
            lemma_non_bs_below_mono(x + 1, y);
        } else {
            lemma_non_bs_below_mono(y + 1, x);
        }
    }
}

/// The keys of the inverse of `bytes_to_unicode`.
pub open spec fn greek_keys() -> Seq<Seq<char>> {
    table_keys(Seq::new(256, |i: int| greek(i)))
}

pub(crate) proof fn lemma_greek_keys(i: int)
    requires
        0 <= i < 256,
    ensures
        greek_keys()[i] == seq![greek_char(i)],
{
    lemma_greek_char(i);
}

pub(crate) proof fn lemma_key_lookup_char(n: int, y: int)
    requires
        0 <= y < n <= 256,
    ensures
        key_lookup(greek_keys().take(n), seq![greek_char(y)]) == Some(y as u8),
    decreases n,
{
    let ks = greek_keys().take(n);
    lemma_greek_keys(n - 1);
    assert(ks.last() == greek_keys()[n - 1]);
    assert(ks.drop_last() =~= greek_keys().take(n - 1));
    if n - 1 != y {
        if ks.last() == seq![greek_char(y)] {
            assert(ks.last()[0] == greek_char(y));
            lemma_greek_char_injective(n - 1, y);
        }
        lemma_key_lookup_char(n - 1, y);
    }
}

pub(crate) proof fn lemma_key_lookup_long(n: int, cand: Seq<char>)
    requires
        0 <= n <= 256,
        cand.len() != 1,
    ensures
        key_lookup(greek_keys().take(n), cand) is None,
    decreases n,
{
    if n > 0 {
        let ks = greek_keys().take(n);
        lemma_greek_keys(n - 1);
        assert(ks.last() == greek_keys()[n - 1]);
        assert(ks.drop_last() =~= greek_keys().take(n - 1));
        lemma_key_lookup_long(n - 1, cand);
    }
}

proof fn lemma_best_prefix_greek(s: Seq<char>, y: int, t: int)
    requires
        0 <= y < 256,
        1 <= t <= s.len(),
        s[0] == greek_char(y),
    ensures
        best_prefix(greek_keys(), s, t) == Some((y as u8, 1int)),
    decreases t,
{
    assert(greek_keys().take(256) =~= greek_keys());
    if t == 1 {
        assert(s.take(1) =~= seq![greek_char(y)]);
        lemma_key_lookup_char(256, y);
    } else {
        lemma_key_lookup_long(256, s.take(t));
        lemma_best_prefix_greek(s, y, t - 1);
    }
}

/// The characters that a byte string is written as.
pub open spec fn greek_text(b: Seq<u8>) -> Seq<char> {
    b.map_values(|x: u8| greek_char(x as int))
}

pub(crate) proof fn lemma_pieces_flatten(b: Seq<u8>)
    ensures
        initial_pieces(b).flatten() == encode_utf8(greek_text(b)),
    decreases b.len(),
{
    if b.len() > 0 {
        lemma_pieces_flatten(b.drop_first());
        lemma_greek_char(b[0] as int);
        assert(initial_pieces(b).drop_first() =~= initial_pieces(b.drop_first()));
        assert(greek_text(b).drop_first() =~= greek_text(b.drop_first()));
        assert(initial_pieces(b).first() == greek(b[0] as int));
    } else {
        assert(initial_pieces(b) =~= Seq::<Seq<u8>>::empty());
        assert(greek_text(b) =~= Seq::<char>::empty());
    }
}

pub(crate) proof fn lemma_decode_greek_text(b: Seq<u8>)
    ensures
        decode_chars(greek_keys(), greek_text(b)) == b,
    decreases b.len(),
{
    let s = greek_text(b);
    if b.len() > 0 {
        let t = if s.len() < 4 { s.len() as int } else { 4int };
        lemma_best_prefix_greek(s, b[0] as int, t);
        assert(s.subrange(1, s.len() as int) =~= greek_text(b.drop_first()));
        lemma_decode_greek_text(b.drop_first());
        assert(b =~= seq![b[0]] + b.drop_first());
    } else {
        assert(b =~= Seq::<u8>::empty());
    }
}

/// Undoing the byte-level alphabet gives back the bytes it wrote: for every
/// byte string, the byte-level decoding of its pieces (each byte written as
/// its character of `bytes_to_unicode`) is the byte string itself.
pub proof fn lemma_byte_level_roundtrip(b: Seq<u8>)
    ensures
        byte_level_decode(initial_pieces(b).flatten()) == b,
{
    lemma_pieces_flatten(b);
    vstd::utf8::encode_utf8_valid_utf8(greek_text(b));
    vstd::utf8::encode_utf8_decode_utf8(greek_text(b));
    lemma_decode_greek_text(b);
}

} // verus!
