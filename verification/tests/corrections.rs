use vi::engine::correction::diff_corrections;
use vi::CharTiming;

fn timings(n: u64) -> Vec<CharTiming> {
    (0..n).map(|i| CharTiming { text: String::new(), start_ms: i * 100, end_ms: i * 100 + 90 }).collect()
}

#[test]
fn single_changed_character() {
    let r = diff_corrections("今天天气很好", "今天天气真好", &timings(6), "2024-01-01T00:00:00Z");
    assert_eq!(r.len(), 1);
    let c = &r[0];
    assert_eq!(c.original, "很");
    assert_eq!(c.corrected, "真");
    assert_eq!(c.context_before, "今天天气");
    assert_eq!(c.context_after, "好");
    assert_eq!(c.audio_start_ms, 400);
    assert_eq!(c.audio_end_ms, 490);
    assert_eq!(c.timestamp_iso, "2024-01-01T00:00:00Z");
    assert!(c.audio_path.is_none());
}

#[test]
fn no_correction_when_unchanged_or_untimed() {
    assert!(diff_corrections("一样", "一样", &timings(2), "t").is_empty());
    assert!(diff_corrections("甲", "乙", &Vec::new(), "t").is_empty());
}

#[test]
fn insertion_and_deletion() {
    let r = diff_corrections("abc", "abXc", &timings(3), "t");
    assert_eq!(r.len(), 1);
    assert_eq!((r[0].original.as_str(), r[0].corrected.as_str()), ("", "X"));
    assert_eq!(r[0].audio_start_ms, 200);
    let d = diff_corrections("abcdef", "af", &timings(6), "t");
    assert_eq!((d[0].original.as_str(), d[0].corrected.as_str()), ("bcde", ""));
    assert_eq!(d[0].context_before, "a");
    assert_eq!(d[0].context_after, "f");
    assert_eq!((d[0].audio_start_ms, d[0].audio_end_ms), (100, 490));
}

#[test]
fn graphemes_are_compared_whole() {
    // "é" written as e + combining accent is one grapheme
    let r = diff_corrections("cafe\u{301}!", "cafe!", &timings(6), "t");
    assert_eq!(r[0].original, "e\u{301}");
    assert_eq!(r[0].corrected, "e");
}
