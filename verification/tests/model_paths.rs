use vi::models::{
    asr_model_dir, base_dir, default_base_dir, ensure_model_dir, expand_home, llm_model_dir,
    modelscope_cache_candidates, punc_model_dir, refine_db_path, required_model_subdirs, vad_model_dir,
};

fn sep() -> &'static str {
    std::path::MAIN_SEPARATOR_STR
}

#[test]
fn model_directories() {
    assert_eq!(vad_model_dir("/m"), format!("/m{}iic/speech_fsmn_vad_zh-cn-16k-common-onnx", sep()));
    assert_eq!(
        asr_model_dir("/m"),
        format!("/m{}iic/speech_paraformer-large_asr_nat-zh-cn-16k-common-vocab8404-onnx", sep())
    );
    assert_eq!(punc_model_dir("/m/"), "/m/iic/punc_ct-transformer_zh-cn-common-vocab272727-onnx");
    assert_eq!(llm_model_dir(""), "onnx-community/Qwen2___5-0___5B-Instruct");
    assert_eq!(refine_db_path("/opt/evi"), format!("/opt/evi{}refine_log.db", sep()));
    assert_eq!(required_model_subdirs().len(), 3);
}

#[test]
fn base_directory_choice() {
    assert_eq!(base_dir(None, "/home/u", "/default"), "/default");
    assert_eq!(base_dir(Some("/models"), "/home/u", "/default"), "/models");
    assert_eq!(base_dir(Some("~models"), "/home/u", "/default"), format!("/home/u{}models", sep()));
    assert_eq!(expand_home("plain", "/h"), "plain");
    assert_eq!(expand_home("", "/h"), "");
}

#[test]
fn home_expansion_with_separator() {
    let s = sep();
    // the part after `~` is joined as it stands: a rooted part keeps at most
    // the prefix of home (nothing on Unix)
    let r = expand_home("~/models", "/home/u");
    assert!(r.ends_with("/models"));
    assert!("/home/u".starts_with(&r[..r.len() - "/models".len()]));
    if s == "/" {
        assert_eq!(r, "/models");
        assert_eq!(base_dir(Some("~/m"), "/home/u", "/default"), "/m");
    }
    assert_eq!(expand_home("~", "/home/u"), format!("/home/u{}", s));
}

#[test]
fn cache_candidates() {
    let c = modelscope_cache_candidates(Some("/cache"), "/h", None);
    let s = sep();
    assert_eq!(c.len(), 3);
    assert_eq!(c[0], format!("/cache{}models", s));
    assert_eq!(c[1], format!("/h{s}.modelscope{s}hub{s}models"));
    assert_eq!(c[2], format!("/h{s}.cache{s}modelscope{s}hub{s}models"));
    let d = modelscope_cache_candidates(None, "/h", Some("/lad"));
    assert_eq!(d.len(), 3);
    assert_eq!(d[2], format!("/lad{s}modelscope{s}hub{s}models"));
    assert_eq!(modelscope_cache_candidates(None, "/h", Some("")).len(), 2);
}

#[test]
fn default_and_ensured_base() {
    let cands = vec!["/a".to_string(), "/b".to_string()];
    assert_eq!(default_base_dir(Some("/env"), true, &cands, &vec![true, true], "/exe"), "/env");
    assert_eq!(default_base_dir(Some("/env"), false, &cands, &vec![false, true], "/exe"), "/b");
    assert_eq!(default_base_dir(None, false, &cands, &vec![false, false], "/exe"), "/exe");

    let mut cfg: Option<String> = None;
    assert!(!ensure_model_dir(&mut cfg, true, &cands, &vec![true, true]));
    assert_eq!(cfg, None);
    assert!(ensure_model_dir(&mut cfg, false, &cands, &vec![false, true]));
    assert_eq!(cfg.as_deref(), Some("/b"));
    let mut cfg2 = Some("/old".to_string());
    assert!(!ensure_model_dir(&mut cfg2, false, &cands, &vec![false, false]));
    assert_eq!(cfg2.as_deref(), Some("/old"));
}
