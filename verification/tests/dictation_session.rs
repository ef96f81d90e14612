use vi::session::{correction_pairs, joined_text, recent_corrections, snapshot_change};
use vi::text::{create_platform_session, NopTextObserver, PlatformTextSession};
use vi::{Correction, Failure, TextChangeEvent, TextObserver, TextOutput, TextSnapshot};

#[test]
fn recording_text_is_the_segments_joined() {
    assert_eq!(joined_text(&vec!["今天".to_string(), "".to_string(), "天气好".to_string()]), "今天天气好");
    assert_eq!(joined_text(&Vec::new()), "");
}

#[test]
fn snapshot_stands_for_an_edit() {
    let snap = |t: &str| TextSnapshot { full_text: t.to_string(), cursor_position: 0, selection_start: 0, selection_end: 0 };
    match snapshot_change("今天天气很好", &snap("今天天气真好")) {
        Some(TextChangeEvent::FullReplace { old, new }) => {
            assert_eq!(old, "今天天气很好");
            assert_eq!(new, "今天天气真好");
        }
        _ => panic!("expected a full replacement"),
    }
    assert!(snapshot_change("今天", &snap("今天")).is_none());
    assert!(snapshot_change("今天", &snap("")).is_none());
    assert!(snapshot_change("", &snap("x")).is_none());
}

#[test]
fn edits_that_become_corrections() {
    let changes = vec![
        TextChangeEvent::FullReplace { old: "原文".to_string(), new: "新文".to_string() },
        TextChangeEvent::FullReplace { old: "别的".to_string(), new: "x".to_string() },
        TextChangeEvent::Replaced { range_start: 0, range_end: 1, old: "a".to_string(), new: "b".to_string() },
        TextChangeEvent::Replaced { range_start: 0, range_end: 1, old: "a".to_string(), new: "a".to_string() },
        TextChangeEvent::Replaced { range_start: 0, range_end: 0, old: "".to_string(), new: "c".to_string() },
        TextChangeEvent::Inserted { position: 0, inserted: "z".to_string() },
        TextChangeEvent::Deleted { range_start: 0, range_end: 1, deleted: "y".to_string() },
    ];
    let pairs = correction_pairs(&changes, "原文");
    assert_eq!(pairs, vec![("原文".to_string(), "新文".to_string()), ("a".to_string(), "b".to_string())]);
}

fn correction(n: u64) -> Correction {
    Correction {
        original: format!("o{}", n),
        corrected: format!("c{}", n),
        timestamp_iso: String::new(),
        context_before: String::new(),
        context_after: String::new(),
        audio_start_ms: n,
        audio_end_ms: n + 1,
        audio_path: None,
    }
}

#[test]
fn recent_corrections_newest_first() {
    let items: Vec<Correction> = (0..5).map(correction).collect();
    let r = recent_corrections(&items, 2);
    assert_eq!(r.len(), 2);
    assert_eq!(r[0].original, "o4");
    assert_eq!(r[1].original, "o3");
    assert_eq!(recent_corrections(&items, 10).len(), 5);
    assert_eq!(recent_corrections(&items, 0).len(), 0);
}

struct Recorder;

impl TextOutput for Recorder {
    fn commit_text(&self, text: &str) -> Result<(), Failure> {
        if text.is_empty() {
            Err(Failure { message: "empty".to_string() })
        } else {
            Ok(())
        }
    }

    fn method_name(&self) -> String {
        "recorder".to_string()
    }
}

#[test]
fn platform_session_forwards() {
    let mut s: PlatformTextSession<Recorder, NopTextObserver> = create_platform_session(Recorder).ok().unwrap();
    assert_eq!(s.method_name(), "recorder");
    assert!(s.commit_text("hi").is_ok());
    assert!(s.commit_text("").is_err());
    assert!(s.start_monitoring().is_ok());
    assert!(s.poll_changes().is_empty());
    let snap = s.snapshot().ok().unwrap();
    assert_eq!(snap.full_text, "");
    assert_eq!(snap.cursor_position, 0);
    assert!(s.stop_monitoring().is_ok());
    let direct = PlatformTextSession::new(Recorder, NopTextObserver::new().ok().unwrap());
    assert_eq!(direct.method_name(), "recorder");
}

#[test]
fn refine_log_threshold() {
    assert!(!vi::session::should_log_refine(false, "这是一个超过十个字的句子啊啊"));
    assert!(!vi::session::should_log_refine(true, "十个字以内的句子啊"));
    assert!(vi::session::should_log_refine(true, "这是一个超过十个字的句子啊啊"));
}
