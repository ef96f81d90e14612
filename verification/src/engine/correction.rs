//! Finding what the user changed in recognized text, and where in the audio it was.
//!
//! Both texts are split into grapheme clusters; the common prefix and the
//! common suffix are removed, and what is left on each side is the
//! correction. The character timings of the recognition give the audio span
//! of the replaced part.

use vstd::prelude::*;

use crate::chars::{chars_of, string_from_chars, string_of};
use crate::{CharTiming, Correction, CorrectionView};
use unicode_segmentation::UnicodeSegmentation;

verus! {

/// The grapheme clusters (extended) of a text, as `unicode_segmentation` splits it.
pub uninterp spec fn graphemes_of(s: Seq<char>) -> Seq<Seq<char>>;

/// The texts held by a list of strings.
pub open spec fn strings_view(v: Seq<String>) -> Seq<Seq<char>> {
    v.map_values(|g: String| g@)
}

pub proof fn lemma_strings_view_push(v: Seq<String>, x: String)
    ensures
        strings_view(v.push(x)) == strings_view(v).push(x@),
{
    assert(strings_view(v.push(x)) =~= strings_view(v).push(x@)) by {
        assert forall|j: int| 0 <= j < v.len() + 1 implies strings_view(v.push(x))[j] == strings_view(v).push(x@)[j] by {
            if j < v.len() {
                assert(v.push(x)[j] == v[j]);
            }
        }
    }
}

/// Calls `UnicodeSegmentation::graphemes(s, true)` and collects the clusters.
/// Beside the name of the result it states one fact of the crate's source:
/// the clusters are consecutive slices of `s` that together make up `s`.
#[verifier::external_body]
fn graphemes(s: &str) -> (r: Vec<String>)
    ensures
        strings_view(r@) == graphemes_of(s@),
        strings_view(r@).flatten() == s@,
{
    s.graphemes(true).map(|g| g.to_string()).collect()
}

/// Length of the longest common prefix of `a` and `b`.
pub open spec fn prefix_len(a: Seq<Seq<char>>, b: Seq<Seq<char>>) -> nat
    decreases a.len(),
{
    if a.len() > 0 && b.len() > 0 && a[0] == b[0] {
        1 + prefix_len(a.drop_first(), b.drop_first())
    } else {
        0
    }
}

/// Length of the longest common suffix of `a` and `b`.
pub open spec fn suffix_len(a: Seq<Seq<char>>, b: Seq<Seq<char>>) -> nat
    decreases a.len(),
{
    if a.len() > 0 && b.len() > 0 && a.last() == b.last() {
        1 + suffix_len(a.drop_last(), b.drop_last())
    } else {
        0
    }
}

/// The `i`-th element of `a` counted from its end.
pub open spec fn rev_at(a: Seq<Seq<char>>, i: int) -> Seq<char> {
    a[a.len() - 1 - i]
}

proof fn lemma_prefix_len(a: Seq<Seq<char>>, b: Seq<Seq<char>>, k: int)
    requires
        0 <= k <= a.len(),
        k <= b.len(),
        forall|i: int| 0 <= i < k ==> a[i] == b[i],
        k == a.len() || k == b.len() || a[k] != b[k],
    ensures
        prefix_len(a, b) == k,
    decreases a.len(),
{
    if k > 0 {
        assert forall|i: int| 0 <= i < k - 1 implies a.drop_first()[i] == b.drop_first()[i] by {
            assert(a.drop_first()[i] == a[i + 1]);
            assert(b.drop_first()[i] == b[i + 1]);
        }
        if k < a.len() && k < b.len() {
            assert(a.drop_first()[k - 1] == a[k]);
            assert(b.drop_first()[k - 1] == b[k]);
        }
        lemma_prefix_len(a.drop_first(), b.drop_first(), k - 1);
    }
}

proof fn lemma_suffix_len(a: Seq<Seq<char>>, b: Seq<Seq<char>>, k: int)
    requires
        0 <= k <= a.len(),
        k <= b.len(),
        forall|i: int| 0 <= i < k ==> #[trigger] rev_at(a, i) == rev_at(b, i),
        k == a.len() || k == b.len() || a[a.len() - 1 - k] != b[b.len() - 1 - k],
    ensures
        suffix_len(a, b) == k,
    decreases a.len(),
{
    if k > 0 {
        let a2 = a.drop_last();
        let b2 = b.drop_last();
        assert(rev_at(a, 0) == rev_at(b, 0));
        assert forall|i: int| 0 <= i < k - 1 implies #[trigger] rev_at(a2, i) == rev_at(b2, i) by {
            assert(rev_at(a2, i) == rev_at(a, i + 1));
            assert(rev_at(b2, i) == rev_at(b, i + 1));
        }
        if k < a.len() && k < b.len() {
            assert(a2[a2.len() - 1 - (k - 1)] == a[a.len() - 1 - k]);
            assert(b2[b2.len() - 1 - (k - 1)] == b[b.len() - 1 - k]);
        }
        lemma_suffix_len(a2, b2, k - 1);
    }
}

pub open spec fn min_int(a: int, b: int) -> int {
    if a <= b {
        a
    } else {
        b
    }
}

/// The corrections between `original` and `modified`: none when the texts are
/// equal or no timing is known; otherwise at most one, for the grapheme span
/// between the common prefix and the common suffix.
#[verifier::opaque]
pub open spec fn diff_spec(
    original: Seq<char>,
    modified: Seq<char>,
    timings: Seq<CharTiming>,
    timestamp_iso: Seq<char>,
) -> Seq<CorrectionView> {
    if original == modified || timings.len() == 0 {
        Seq::empty()
    } else {
        let go = graphemes_of(original);
        let gm = graphemes_of(modified);
        let p = prefix_len(go, gm) as int;
        let s = suffix_len(go.subrange(p, go.len() as int), gm.subrange(p, gm.len() as int)) as int;
        let eo = go.len() - s;
        let em = gm.len() - s;
        let old_part = go.subrange(p, eo).flatten();
        let new_part = gm.subrange(p, em).flatten();
        if (p >= eo && p >= em) || old_part == new_part {
            Seq::empty()
        } else {
            let last = timings.len() - 1;
            let start_ms = timings[min_int(p, last)].start_ms;
            let end_ms = timings[min_int(if eo >= 1 { eo - 1 } else { 0 }, last)].end_ms;
            let before_start = if p >= 5 { p - 5 } else { 0 };
            seq![
                CorrectionView {
                    original: old_part,
                    corrected: new_part,
                    timestamp_iso,
                    context_before: go.subrange(before_start, p).flatten(),
                    context_after: go.subrange(eo, eo + min_int(5, go.len() - eo)).flatten(),
                    audio_start_ms: start_ms,
                    audio_end_ms: end_ms,
                    audio_path: None,
                },
            ]
        }
    }
}

proof fn lemma_prefix_len_facts(a: Seq<Seq<char>>, b: Seq<Seq<char>>)
    ensures
        prefix_len(a, b) <= a.len(),
        prefix_len(a, b) <= b.len(),
        forall|i: int| 0 <= i < prefix_len(a, b) ==> a[i] == b[i],
    decreases a.len(),
{
    if a.len() > 0 && b.len() > 0 && a[0] == b[0] {
        lemma_prefix_len_facts(a.drop_first(), b.drop_first());
        assert forall|i: int| 0 <= i < prefix_len(a, b) implies a[i] == b[i] by {
            if i > 0 {
                assert(a[i] == a.drop_first()[i - 1]);
                assert(b[i] == b.drop_first()[i - 1]);
            }
        }
    }
}

proof fn lemma_suffix_len_facts(a: Seq<Seq<char>>, b: Seq<Seq<char>>)
    ensures
        suffix_len(a, b) <= a.len(),
        suffix_len(a, b) <= b.len(),
        forall|i: int| 0 <= i < suffix_len(a, b) ==> #[trigger] rev_at(a, i) == rev_at(b, i),
    decreases a.len(),
{
    if a.len() > 0 && b.len() > 0 && a.last() == b.last() {
        lemma_suffix_len_facts(a.drop_last(), b.drop_last());
        assert forall|i: int| 0 <= i < suffix_len(a, b) implies #[trigger] rev_at(a, i) == rev_at(b, i) by {
            if i > 0 {
                assert(rev_at(a, i) == rev_at(a.drop_last(), i - 1));
                assert(rev_at(b, i) == rev_at(b.drop_last(), i - 1));
            }
        }
    }
}

/// A correction is the part between a common head and a common tail of the
/// two texts' clusters, and its audio span is that of the replaced part of
/// the original: it starts at the start of the first replaced cluster and
/// ends at the end of the last one (each cluster index clamped to the last
/// timing), whatever the corrected text is.
pub proof fn lemma_correction_audio_span(
    original: Seq<char>,
    modified: Seq<char>,
    timings: Seq<CharTiming>,
    timestamp_iso: Seq<char>,
)
    requires
        diff_spec(original, modified, timings, timestamp_iso).len() == 1,
    ensures
        ({
            let c = diff_spec(original, modified, timings, timestamp_iso)[0];
            let go = graphemes_of(original);
            let gm = graphemes_of(modified);
            let last = timings.len() - 1;
            exists|p: int, e: int, e2: int|
                {
                    &&& 0 <= p <= e <= go.len()
                    &&& p <= e2 <= gm.len()
                    &&& go.len() - e == gm.len() - e2
                    &&& go.subrange(0, p) == gm.subrange(0, p)
                    &&& go.subrange(e, go.len() as int) == gm.subrange(e2, gm.len() as int)
                    &&& c.original == go.subrange(p, e).flatten()
                    &&& c.corrected == gm.subrange(p, e2).flatten()
                    &&& c.audio_start_ms == timings[min_int(p, last)].start_ms
                    &&& #[trigger] c.audio_end_ms == timings[min_int(if e >= 1 { e - 1 } else { 0 }, last)].end_ms
                }
        }),
{
    reveal(diff_spec);
    let go = graphemes_of(original);
    let gm = graphemes_of(modified);
    lemma_prefix_len_facts(go, gm);
    let p = prefix_len(go, gm) as int;
    let ta = go.subrange(p, go.len() as int);
    let tb = gm.subrange(p, gm.len() as int);
    lemma_suffix_len_facts(ta, tb);
    let s = suffix_len(ta, tb) as int;
    let eo = go.len() - s;
    let em = gm.len() - s;
    assert(go.subrange(0, p) =~= gm.subrange(0, p));
    assert(go.subrange(eo, go.len() as int) =~= gm.subrange(em, gm.len() as int)) by {
        assert forall|i: int| 0 <= i < s implies go.subrange(eo, go.len() as int)[i] == gm.subrange(em, gm.len() as int)[i] by {
            let k = s - 1 - i;
            assert(rev_at(ta, k) == rev_at(tb, k));
        }
    }
    let c = diff_spec(original, modified, timings, timestamp_iso)[0];
    assert(c.audio_end_ms == timings[min_int(if eo >= 1 { eo - 1 } else { 0 }, timings.len() - 1)].end_ms);
}

/// Concatenation of the clusters `g[a..b]`.
fn concat_range(g: &Vec<String>, a: usize, b: usize) -> (r: String)
    requires
        a <= b <= g@.len(),
    ensures
        r@ == strings_view(g@).subrange(a as int, b as int).flatten(),
{
    let mut v: Vec<char> = Vec::new();
    let mut i = a;
    while i < b
        invariant
            a <= i <= b <= g@.len(),
            v@ == strings_view(g@).subrange(a as int, i as int).flatten(),
        decreases b - i,
    {
        let c = chars_of(g[i].as_str());
        proof {
            let sv = strings_view(g@);
            assert(sv.subrange(a as int, i + 1) =~= sv.subrange(a as int, i as int).push(
                sv[i as int],
            ));
            sv.subrange(a as int, i as int).lemma_flatten_push(sv[i as int]);
        }
        crate::chars::append_chars(&mut v, c.as_slice());
        i = i + 1;
    }
    string_from_chars(v.as_slice())
}

/// `flatten` distributes over three consecutive parts.
proof fn lemma_flatten_split3(g: Seq<Seq<char>>, i: int, j: int)
    requires
        0 <= i <= j <= g.len(),
    ensures
        g.flatten() == g.subrange(0, i).flatten() + g.subrange(i, j).flatten() + g.subrange(
            j,
            g.len() as int,
        ).flatten(),
{
    assert(g == g.subrange(0, i) + g.subrange(i, j) + g.subrange(j, g.len() as int));
    vstd::seq_lib::lemma_flatten_concat(g.subrange(0, i) + g.subrange(i, j), g.subrange(j, g.len() as int));
    vstd::seq_lib::lemma_flatten_concat(g.subrange(0, i), g.subrange(i, j));
}

/// Length of the common prefix of two cluster lists.
fn common_prefix(go: &Vec<String>, gm: &Vec<String>) -> (p: usize)
    ensures
        p == prefix_len(strings_view(go@), strings_view(gm@)),
        p <= go@.len(),
        p <= gm@.len(),
        forall|i: int| 0 <= i < p ==> strings_view(go@)[i] == strings_view(gm@)[i],
{
    let ghost sgo = strings_view(go@);
    let ghost sgm = strings_view(gm@);
    let mut p: usize = 0;
    while p < go.len() && p < gm.len() && go[p] == gm[p]
        invariant
            p <= go@.len(),
            p <= gm@.len(),
            forall|i: int| 0 <= i < p ==> sgo[i] == sgm[i],
            sgo == strings_view(go@),
            sgm == strings_view(gm@),
        decreases go@.len() - p,
    {
        p = p + 1;
    }
    proof {
        lemma_prefix_len(sgo, sgm, p as int);
    }
    p
}

/// Length of the common suffix of what follows the first `p` clusters.
fn common_suffix(go: &Vec<String>, gm: &Vec<String>, p: usize) -> (s: usize)
    requires
        p <= go@.len(),
        p <= gm@.len(),
    ensures
        s == suffix_len(
            strings_view(go@).subrange(p as int, go@.len() as int),
            strings_view(gm@).subrange(p as int, gm@.len() as int),
        ),
        s <= go@.len() - p,
        s <= gm@.len() - p,
        forall|i: int|
            0 <= i < s ==> #[trigger] rev_at(strings_view(go@), i) == rev_at(strings_view(gm@), i),
{
    let ghost sgo = strings_view(go@);
    let ghost sgm = strings_view(gm@);
    let mut s: usize = 0;
    while s < go.len() - p && s < gm.len() - p && go[go.len() - 1 - s] == gm[gm.len() - 1 - s]
        invariant
            p <= go@.len(),
            p <= gm@.len(),
            s <= go@.len() - p,
            s <= gm@.len() - p,
            forall|i: int| 0 <= i < s ==> #[trigger] rev_at(sgo, i) == rev_at(sgm, i),
            sgo == strings_view(go@),
            sgm == strings_view(gm@),
        decreases go@.len() - p - s,
    {
        s = s + 1;
    }
    let ghost ta = sgo.subrange(p as int, sgo.len() as int);
    let ghost tb = sgm.subrange(p as int, sgm.len() as int);
    proof {
        assert forall|i: int| 0 <= i < s implies #[trigger] rev_at(ta, i) == rev_at(tb, i) by {
            assert(rev_at(ta, i) == rev_at(sgo, i));
            assert(rev_at(tb, i) == rev_at(sgm, i));
        }
        if s < ta.len() && s < tb.len() {
            assert(rev_at(ta, s as int) == rev_at(sgo, s as int));
            assert(rev_at(tb, s as int) == rev_at(sgm, s as int));
        }
        lemma_suffix_len(ta, tb, s as int);
    }
    s
}

/// Putting the changed span of `gm` in place of that of `go` turns one text into the other.
proof fn lemma_diff_law(
    sgo: Seq<Seq<char>>,
    sgm: Seq<Seq<char>>,
    original: Seq<char>,
    modified: Seq<char>,
    p: int,
    s: int,
    before_start: int,
    after_len: int,
)
    requires
        sgo.flatten() == original,
        sgm.flatten() == modified,
        0 <= p <= sgo.len() - s,
        p <= sgm.len() - s,
        0 <= s,
        forall|i: int| 0 <= i < p ==> sgo[i] == sgm[i],
        forall|i: int| 0 <= i < s ==> #[trigger] rev_at(sgo, i) == rev_at(sgm, i),
        before_start == if p >= 5 { p - 5 } else { 0 },
        after_len == min_int(5, s),
    ensures
        ({
            let eo = sgo.len() - s;
            let em = sgm.len() - s;
            let pre = sgo.subrange(0, p).flatten();
            let post = sgo.subrange(eo, sgo.len() as int).flatten();
            &&& original == pre + sgo.subrange(p, eo).flatten() + post
            &&& modified == pre + sgm.subrange(p, em).flatten() + post
            &&& sgo.subrange(before_start, p).flatten().is_suffix_of(pre)
            &&& sgo.subrange(eo, eo + after_len).flatten().is_prefix_of(post)
        }),
{
    let eo = sgo.len() - s;
    let em = sgm.len() - s;
    let pre = sgo.subrange(0, p).flatten();
    let post = sgo.subrange(eo, sgo.len() as int).flatten();
    lemma_flatten_split3(sgo, p, eo);
    lemma_flatten_split3(sgm, p, em);
    assert(sgm.subrange(0, p) =~= sgo.subrange(0, p));
    assert(sgm.subrange(em, sgm.len() as int) =~= sgo.subrange(eo, sgo.len() as int)) by {
        assert forall|i: int| 0 <= i < s implies sgm.subrange(em, sgm.len() as int)[i]
            == sgo.subrange(eo, sgo.len() as int)[i] by {
            let k = s - 1 - i;
            assert(rev_at(sgo, k) == rev_at(sgm, k));
        }
    }
    let head = sgo.subrange(0, p);
    lemma_flatten_split3(head, before_start, p);
    assert(head.subrange(0, before_start) =~= sgo.subrange(0, before_start));
    assert(head.subrange(before_start, p) =~= sgo.subrange(before_start, p));
    assert(head.subrange(p, p) =~= Seq::<Seq<char>>::empty());
    assert(head.subrange(0, p) =~= head);
    let tail = sgo.subrange(eo, sgo.len() as int);
    lemma_flatten_split3(tail, 0, after_len);
    assert(tail.subrange(0, 0) =~= Seq::<Seq<char>>::empty());
    assert(tail.subrange(0, after_len) =~= sgo.subrange(eo, eo + after_len));
    assert(tail.subrange(0, tail.len() as int) =~= tail);
    let cb = sgo.subrange(before_start, p).flatten();
    assert(pre == sgo.subrange(0, before_start).flatten() + cb);
    assert(cb =~= pre.subrange(pre.len() - cb.len(), pre.len() as int));
    let ca = sgo.subrange(eo, eo + after_len).flatten();
    assert(post == ca + tail.subrange(after_len, tail.len() as int).flatten());
    assert(ca =~= post.subrange(0, ca.len() as int));
}

/// Compares `original` with the text the user left (`modified`) and records
/// the change with its audio span (`diff_corrections`). When a correction is
/// produced, putting its corrected text in place of its original text in
/// `original` gives `modified`.
pub fn diff_corrections(
    original: &str,
    modified: &str,
    timings: &[CharTiming],
    timestamp_iso: &str,
) -> (r: Vec<Correction>)
    ensures
        r@.map_values(|c: Correction| c@) == diff_spec(
            original@,
            modified@,
            timings@,
            timestamp_iso@,
        ),
        original@ == modified@ ==> r@.len() == 0,
        timings@.len() == 0 ==> r@.len() == 0,
        original@ != modified@ && timings@.len() > 0 ==> r@.len() == 1,
        r@.len() <= 1,
        r@.len() == 1 ==> exists|pre: Seq<char>, post: Seq<char>|
            {
                &&& original@ == pre + r@[0].original@ + post
                &&& modified@ == pre + r@[0].corrected@ + post
                &&& r@[0].context_before@.is_suffix_of(pre)
                &&& r@[0].context_after@.is_prefix_of(post)
            },
{
    let mut corrections: Vec<Correction> = Vec::new();
    let o = chars_of(original);
    let m = chars_of(modified);
    if crate::engine::coze_refine::eq_chars(o.as_slice(), m.as_slice()) || timings.len() == 0 {
        proof {
            reveal(diff_spec);
            assert(corrections@.map_values(|c: Correction| c@) =~= Seq::<CorrectionView>::empty());
        }
        return corrections;
    }
    let go = graphemes(original);
    let gm = graphemes(modified);
    let ghost sgo = strings_view(go@);
    let ghost sgm = strings_view(gm@);
    let p = common_prefix(&go, &gm);
    let s = common_suffix(&go, &gm, p);
    let eo = go.len() - s;
    let em = gm.len() - s;
    proof {
        let bs: int = if p >= 5 { p - 5 } else { 0 };
        lemma_diff_law(sgo, sgm, original@, modified@, p as int, s as int, bs, min_int(5, s as int));
    }
    if p >= eo && p >= em {
        proof {
            assert(sgo.subrange(p as int, eo as int) =~= Seq::<Seq<char>>::empty());
            assert(sgm.subrange(p as int, em as int) =~= Seq::<Seq<char>>::empty());
            assert(original@ == modified@);
            reveal(diff_spec);
            assert(corrections@.map_values(|c: Correction| c@) =~= Seq::<CorrectionView>::empty());
        }
        return corrections;
    }
    let old_part = concat_range(&go, p, eo);
    let new_part = concat_range(&gm, p, em);
    if old_part == new_part {
        proof {
            assert(original@ == modified@);
            reveal(diff_spec);
            assert(corrections@.map_values(|c: Correction| c@) =~= Seq::<CorrectionView>::empty());
        }
        return corrections;
    }
    let last = timings.len() - 1;
    let si = if p < last {
        p
    } else {
        last
    };
    let audio_start = timings[si].start_ms;
    let e1 = if eo >= 1 {
        eo - 1
    } else {
        0
    };
    let ei = if e1 < last {
        e1
    } else {
        last
    };
    let audio_end = timings[ei].end_ms;
    let before_start = if p >= 5 {
        p - 5
    } else {
        0
    };
    let context_before = concat_range(&go, before_start, p);
    let after_len = if 5 < go.len() - eo {
        5
    } else {
        go.len() - eo
    };
    let context_after = concat_range(&go, eo, eo + after_len);
    let c = Correction {
        original: old_part,
        corrected: new_part,
        timestamp_iso: string_of(timestamp_iso),
        context_before,
        context_after,
        audio_start_ms: audio_start,
        audio_end_ms: audio_end,
        audio_path: None,
    };
    corrections.push(c);
    proof {
        reveal(diff_spec);
        assert(corrections@.map_values(|c: Correction| c@) =~= seq![c@]);
        lemma_diff_law(
            sgo,
            sgm,
            original@,
            modified@,
            p as int,
            s as int,
            before_start as int,
            after_len as int,
        );
        let pre = sgo.subrange(0, p as int).flatten();
        let post = sgo.subrange(eo as int, sgo.len() as int).flatten();
        assert(original@ == pre + corrections@[0].original@ + post);
        assert(modified@ == pre + corrections@[0].corrected@ + post);
    }
    corrections
}

} // verus!
