//! What the dictation loop decides between its outside steps: the text of a
//! recording, which observed edits become corrections, and which stored
//! corrections are shown.

use vstd::prelude::*;

use crate::engine::correction::strings_view;
use crate::{Correction, TextChangeEvent, TextSnapshot};

verus! {

/// The recognized text of a recording: the texts of its segments, in order.
pub fn joined_text(parts: &Vec<String>) -> (r: String)
    ensures
        r@ == strings_view(parts@).flatten(),
{
    let mut r = String::new();
    let mut i: usize = 0;
    proof {
        assert(strings_view(parts@).take(0) =~= Seq::<Seq<char>>::empty());
    }
    while i < parts.len()
        invariant
            i <= parts@.len(),
            r@ == strings_view(parts@).take(i as int).flatten(),
        decreases parts@.len() - i,
    {
        proof {
            let sv = strings_view(parts@);
            assert(sv.take(i + 1) =~= sv.take(i as int).push(sv[i as int]));
            sv.take(i as int).lemma_flatten_push(sv[i as int]);
        }
        r.append(parts[i].as_str());
        i = i + 1;
    }
    proof {
        assert(strings_view(parts@).take(i as int) =~= strings_view(parts@));
    }
    r
}

/// When no edit was observed, the field's current text stands for one: a
/// replacement of the whole recognized text, if the field holds something
/// else (and neither is empty).
pub fn snapshot_change(full_text: &str, snapshot: &TextSnapshot) -> (r: Option<TextChangeEvent>)
    ensures
        match r {
            Some(TextChangeEvent::FullReplace { old, new }) => old@ == full_text@ && new@ == snapshot.full_text@
                && full_text@.len() > 0 && snapshot.full_text@.len() > 0 && snapshot.full_text@ != full_text@,
            Some(_) => false,
            None => full_text@.len() == 0 || snapshot.full_text@.len() == 0 || snapshot.full_text@ == full_text@,
        },
{
    let full = String::from_str(full_text);
    if full_text.is_empty() || snapshot.full_text.as_str().is_empty() || snapshot.full_text == full {
        None
    } else {
        Some(TextChangeEvent::FullReplace { old: full, new: snapshot.full_text.clone() })
    }
}

/// The correction an observed edit makes, if any: a replacement of the
/// whole recognized text, or a replacement of a non-empty part by something
/// different.
pub open spec fn correction_of(e: TextChangeEvent, full_text: Seq<char>) -> Option<(Seq<char>, Seq<char>)> {
    match e {
        TextChangeEvent::FullReplace { old, new } => if old@ == full_text {
            Some((old@, new@))
        } else {
            None
        },
        TextChangeEvent::Replaced { old, new, .. } => if old@ != new@ && old@.len() > 0 {
            Some((old@, new@))
        } else {
            None
        },
        _ => None,
    }
}

/// The corrections that a list of observed edits makes, in order.
pub open spec fn corrections_of(es: Seq<TextChangeEvent>, full_text: Seq<char>) -> Seq<(Seq<char>, Seq<char>)>
    decreases es.len(),
{
    if es.len() == 0 {
        Seq::empty()
    } else {
        corrections_of(es.drop_last(), full_text) + match correction_of(es.last(), full_text) {
            Some(p) => seq![p],
            None => Seq::empty(),
        }
    }
}

pub open spec fn pairs_view(v: Seq<(String, String)>) -> Seq<(Seq<char>, Seq<char>)> {
    v.map_values(|p: (String, String)| (p.0@, p.1@))
}

/// The (before, after) texts that `check_corrections` hands to the
/// correction detector.
pub fn correction_pairs(changes: &Vec<TextChangeEvent>, full_text: &str) -> (r: Vec<(String, String)>)
    ensures
        pairs_view(r@) == corrections_of(changes@, full_text@),
{
    let full = String::from_str(full_text);
    let mut r: Vec<(String, String)> = Vec::new();
    let mut i: usize = 0;
    proof {
        assert(pairs_view(r@) =~= corrections_of(changes@.take(0), full_text@));
    }
    while i < changes.len()
        invariant
            i <= changes@.len(),
            full@ == full_text@,
            pairs_view(r@) == corrections_of(changes@.take(i as int), full_text@),
        decreases changes@.len() - i,
    {
        proof {
            assert(changes@.take(i + 1).drop_last() =~= changes@.take(i as int));
            assert(changes@.take(i + 1).last() == changes@[i as int]);
        }
        let ghost before = r@;
        match &changes[i] {
            TextChangeEvent::FullReplace { old, new } => {
                if *old == full {
                    r.push((old.clone(), new.clone()));
                    proof {
                        assert(pairs_view(r@) =~= pairs_view(before).push((old@, new@)));
                    }
                } else {
                    proof {
                        assert(corrections_of(changes@.take(i + 1), full_text@) =~= corrections_of(changes@.take(i as int), full_text@));
                    }
                }
            },
            TextChangeEvent::Replaced { old, new, .. } => {
                if !(*old == *new) && !old.as_str().is_empty() {
                    r.push((old.clone(), new.clone()));
                    proof {
                        assert(pairs_view(r@) =~= pairs_view(before).push((old@, new@)));
                    }
                } else {
                    proof {
                        assert(corrections_of(changes@.take(i + 1), full_text@) =~= corrections_of(changes@.take(i as int), full_text@));
                    }
                }
            },
            _ => {
                proof {
                    assert(corrections_of(changes@.take(i + 1), full_text@) =~= corrections_of(changes@.take(i as int), full_text@));
                }
            },
        }
        i = i + 1;
    }
    proof {
        assert(changes@.take(i as int) =~= changes@);
    }
    r
}

/// A copy of a correction.
pub fn copy_correction(c: &Correction) -> (r: Correction)
    ensures
        r@ == c@,
{
    Correction {
        original: c.original.clone(),
        corrected: c.corrected.clone(),
        timestamp_iso: c.timestamp_iso.clone(),
        context_before: c.context_before.clone(),
        context_after: c.context_after.clone(),
        audio_start_ms: c.audio_start_ms,
        audio_end_ms: c.audio_end_ms,
        audio_path: match &c.audio_path {
            Some(p) => Some(p.clone()),
            None => None,
        },
    }
}

/// `recent`: the last `limit` corrections, newest first.
pub fn recent_corrections(items: &Vec<Correction>, limit: usize) -> (r: Vec<Correction>)
    ensures
        r@.len() == (if limit < items@.len() { limit as int } else { items@.len() as int }),
        forall|k: int| 0 <= k < r@.len() ==> #[trigger] r@[k]@ == items@[items@.len() - 1 - k]@,
{
    let n = items.len();
    let mut r: Vec<Correction> = Vec::new();
    let mut k: usize = 0;
    while k < n && k < limit
        invariant
            n == items@.len(),
            k <= n,
            k <= limit,
            r@.len() == k,
            forall|j: int| 0 <= j < k ==> #[trigger] r@[j]@ == items@[n - 1 - j]@,
        decreases n - k,
    {
        r.push(copy_correction(&items[n - 1 - k]));
        k = k + 1;
    }
    r
}

/// Whether a refinement goes into the refine log: only when logging is on
/// and the original has more than ten characters.
pub fn should_log_refine(save_log_enabled: bool, original: &str) -> (r: bool)
    ensures
        r == (save_log_enabled && original@.len() > 10),
{
    if !save_log_enabled {
        return false;
    }
    let n = crate::chars::chars_of(original).len();
    n > 10
}

} // verus!
