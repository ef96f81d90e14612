use vi::ui::log_capture::{push_line, CaptureLogger, LogLevel};
use vi::ui::refine_api::MockRefineApi;
use vi::ui::refine_editor::{display_entries, get_level, level_progress, RefineEntry};
use vi::ui::tray::coze_refine_item;
use vi::ui::{save_as_name, Scheme, SchemeSet};

fn scheme(name: &str, sp: &str, pt: &str) -> Scheme {
    Scheme { name: name.to_string(), system_prompt: sp.to_string(), prefill_template: pt.to_string() }
}

#[test]
fn scheme_set_selects_saved_scheme() {
    let mut set = SchemeSet::with_default("sp0", "pt0");
    set.insert(scheme("会议", "sp1", "pt1"));
    assert_eq!(set.names(), vec!["会议".to_string(), "默认".to_string()]);
    set.insert(scheme("Zoom", "a", "b"));
    set.insert(scheme("Alpha", "a", "b"));
    assert_eq!(set.names(), vec!["Alpha".to_string(), "Zoom".to_string(), "会议".to_string(), "默认".to_string()]);
    let (n, sp, pt, rebuild) = set.select_initial(Some("会议"), "sp0", "pt0");
    assert_eq!((n.as_str(), sp.as_str(), pt.as_str(), rebuild), ("会议", "sp1", "pt1", true));
    let (n, sp, pt, rebuild) = set.select_initial(Some("不存在"), "sp0", "pt0");
    assert_eq!((n.as_str(), sp.as_str(), pt.as_str(), rebuild), ("默认", "sp0", "pt0", false));
    let (n, _, _, rebuild) = set.select_initial(Some("默认"), "x", "y");
    assert_eq!((n.as_str(), rebuild), ("默认", false));
    let (n, _, _, rebuild) = set.select_initial(None, "x", "y");
    assert_eq!((n.as_str(), rebuild), ("默认", false));
}

#[test]
fn scheme_insert_replaces_same_name() {
    let mut set = SchemeSet::with_default("a", "b");
    set.insert(scheme("x", "1", "2"));
    set.insert(scheme("x", "3", "4"));
    assert_eq!(set.names().len(), 2);
    let s = set.get("x").unwrap();
    assert_eq!((s.system_prompt.as_str(), s.prefill_template.as_str()), ("3", "4"));
    assert!(set.get("y").is_none());
}

#[test]
fn save_as_names() {
    assert_eq!(save_as_name("  新方案 ").as_deref(), Some("新方案"));
    assert_eq!(save_as_name("   "), None);
}

#[test]
fn tray_menu_item() {
    assert_eq!(coze_refine_item(true, true), ("✓ 网络大模型润色".to_string(), true));
    assert_eq!(coze_refine_item(false, true), ("网络大模型润色".to_string(), true));
    assert_eq!(coze_refine_item(true, false), ("网络大模型润色（需设置 API Key）".to_string(), false));
}

#[test]
fn log_capture_lines() {
    let l = CaptureLogger;
    assert!(l.enabled(&LogLevel::Info));
    assert!(l.enabled(&LogLevel::Error));
    assert!(!l.enabled(&LogLevel::Debug));
    assert_eq!(l.format_line(3661, 7, &LogLevel::Warn, "disk full"), "01:01:01.007 [WARN] disk full");
    let mut buf: Vec<String> = (0..5000).map(|i| i.to_string()).collect();
    push_line(&mut buf, "x".to_string());
    assert_eq!(buf.len(), 4001);
    assert_eq!(buf[0], "1000");
    assert_eq!(buf[4000], "x");
    let mut small = vec!["a".to_string()];
    push_line(&mut small, "b".to_string());
    assert_eq!(small, vec!["a".to_string(), "b".to_string()]);
}

#[test]
fn mock_api_hands_out_examples_in_turn() {
    let mut api = MockRefineApi::new();
    let first = api.get_pending_audit("u").unwrap();
    assert_eq!(first.record_id, "mock_1");
    assert_eq!(first.original, "这个产品的质量非常好值得推荐");
    assert_eq!(first.refined, "这款产品质量上乘，值得推荐。");
    for _ in 0..5 {
        api.get_pending_audit("u").unwrap();
    }
    let seventh = api.get_pending_audit("u").unwrap();
    assert_eq!(seventh.record_id, "mock_7");
    assert_eq!(seventh.original, "我今天去了一个很好玩的地方");
}

#[test]
fn contribution_levels() {
    assert_eq!(get_level(0), (0, "新手体验官", "🌱"));
    assert_eq!(get_level(4), (0, "新手体验官", "🌱"));
    assert_eq!(get_level(5), (1, "初级体验官", "🌿"));
    assert_eq!(get_level(120), (4, "资深体验官", "🌟"));
    assert_eq!(get_level(10_000), (6, "传奇体验官", "🏆"));
    assert_eq!(get_level(-3), (0, "新手体验官", "🌱"));
    assert_eq!(level_progress(10), (5, 15, 10));
    assert_eq!(level_progress(600), (100, 0, 0));
}

#[test]
fn listed_records() {
    let e = |id: i64, submitted: bool| RefineEntry {
        id,
        original: String::new(),
        refined: String::new(),
        submitted,
    };
    let entries = vec![e(1, true), e(2, false), e(3, true), e(4, false), e(5, true), e(6, true)];
    assert_eq!(display_entries(&entries), vec![1, 3, 0, 2, 4]);
    let many: Vec<RefineEntry> = (0..7).map(|i| e(i, false)).collect();
    assert_eq!(display_entries(&many), vec![0, 1, 2, 3, 4]);
    assert_eq!(display_entries(&Vec::new()), Vec::<usize>::new());
}

use vi::ui::refine_api::AuditItem;
use vi::ui::refine_editor::{audit_after_load, audit_after_submit, submit_thank_you, AuditState, RefineEditor};
use vi::ui::SchemeEditor;

fn entry(id: i64, original: &str, refined: &str, submitted: bool) -> RefineEntry {
    RefineEntry { id, original: original.to_string(), refined: refined.to_string(), submitted }
}

#[test]
fn editor_selection_and_submission() {
    let mut ed = RefineEditor::new(vec![entry(7, "原文", "", false), entry(8, "甲", "乙", true), entry(9, "丙", "丁", false)], 3);
    ed.select(8);
    assert_eq!(ed.selected_id, None);
    ed.select(9);
    assert_eq!(ed.selected_id, Some(9));
    assert_eq!(ed.original_display, "丁");
    assert_eq!(ed.edit_text, "丁");
    ed.edit_text = "   ".to_string();
    assert!(ed.submission().is_none());
    ed.edit_text = " 戊 ".to_string();
    assert_eq!(ed.submission(), Some((9, "丙".to_string(), "戊".to_string())));
    ed.submission_saved(9, "戊");
    assert_eq!(ed.selected_id, None);
    assert!(ed.entries[2].submitted);
    assert_eq!(ed.entries[2].refined, "戊");
    ed.submission_answered(true);
    ed.submission_answered(false);
    assert_eq!(ed.contribution, 4);
    ed.select(7);
    assert_eq!(ed.original_display, "原文");
    ed.entry_deleted(7);
    assert_eq!(ed.entries.len(), 2);
    assert_eq!(ed.selected_id, None);
    ed.cancel();
    assert_eq!(ed.edit_text, "");
}

#[test]
fn review_page_states() {
    let item = AuditItem { record_id: "r".to_string(), original: "a".to_string(), refined: "b".to_string() };
    assert!(matches!(audit_after_load(Ok(Some(item))), AuditState::Loaded(ref i) if i.record_id == "r"));
    assert!(matches!(audit_after_load(Ok(None)), AuditState::Idle));
    assert!(matches!(audit_after_load(Err("timeout".to_string())), AuditState::Error(ref m) if m == "获取待审核内容失败: timeout"));
    assert!(matches!(audit_after_submit(Ok((true, None)), 13), AuditState::ThankYou(ref m) if m == "感谢你的专业眼光！你的每一次审阅都在推动技术向前！"));
    assert!(matches!(audit_after_submit(Ok((false, None)), 0), AuditState::Error(ref m) if m == "提交失败: 未知错误"));
    assert!(matches!(audit_after_submit(Ok((false, Some("满了".to_string()))), 0), AuditState::Error(ref m) if m == "提交失败: 满了"));
    assert!(matches!(audit_after_submit(Err("断网".to_string()), 0), AuditState::Error(ref m) if m == "提交失败: 断网"));
    assert_eq!(submit_thank_you(7), "太好了！你刚刚为提升语音识别准确率做出了贡献！");
}

#[test]
fn scheme_editor_actions() {
    let mut ed = SchemeEditor {
        schemes: SchemeSet::with_default("sp", "pt"),
        current_scheme: "默认".to_string(),
        system_prompt_edit: "新sp".to_string(),
        prefill_template_edit: "新pt".to_string(),
        new_scheme_name: "x".to_string(),
        show_save_as_popup: false,
    };
    assert_eq!(ed.save_pressed(), None);
    assert!(ed.show_save_as_popup);
    assert_eq!(ed.new_scheme_name, "");
    ed.new_scheme_name = "  会议 ".to_string();
    assert_eq!(ed.confirm_save_as().as_deref(), Some("会议"));
    assert_eq!(ed.current_scheme, "会议");
    assert!(!ed.show_save_as_popup);
    ed.system_prompt_edit = "改".to_string();
    assert_eq!(ed.save_pressed().as_deref(), Some("会议"));
    assert_eq!(ed.schemes.get("会议").unwrap().system_prompt, "改");
    assert!(ed.choose_scheme("默认"));
    assert_eq!(ed.system_prompt_edit, "sp");
    assert!(!ed.choose_scheme("无"));
    let ps = ed.prompt_state();
    assert_eq!((ps.system_prompt.as_str(), ps.prefill_template.as_str()), ("sp", "pt"));
    ed.save_as_pressed();
    ed.new_scheme_name = "   ".to_string();
    assert_eq!(ed.confirm_save_as(), None);
    ed.cancel_save_as();
    assert!(!ed.show_save_as_popup);
}
