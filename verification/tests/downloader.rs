use vi::download::{
    content_range_total, download_url, file_list_url, keep_blobs, keep_existing, missing_models, parse_u64,
    progress_step, range_header, response_span, resume_from, FileEntry, ResumeFrom,
};

#[test]
fn repository_addresses() {
    assert_eq!(
        file_list_url("iic/vad"),
        "https://modelscope.cn/api/v1/models/iic/vad/repo/files?Recursive=true"
    );
    assert_eq!(
        download_url("iic/vad", "model.onnx"),
        "https://modelscope.cn/models/iic/vad/resolve/master/model.onnx"
    );
    assert_eq!(range_header(1024), "bytes=1024-");
}

#[test]
fn only_blobs_are_downloaded() {
    let f = |name: &str, t: &str| FileEntry { name: name.to_string(), path: name.to_string(), size: 1, file_type: t.to_string() };
    let kept = keep_blobs(vec![f("a", "blob"), f("d", "tree"), f("b", "blob")]);
    let names: Vec<&str> = kept.iter().map(|e| e.name.as_str()).collect();
    assert_eq!(names, vec!["a", "b"]);
}

#[test]
fn missing_model_list() {
    let ids = vec!["a".to_string(), "b".to_string(), "c".to_string()];
    assert_eq!(missing_models(&ids, &vec![true, false, false]), vec!["b".to_string(), "c".to_string()]);
    assert!(missing_models(&ids, &vec![true, true, true]).is_empty());
}

#[test]
fn resuming_downloads() {
    assert!(keep_existing(Some(10), 10));
    assert!(!keep_existing(Some(9), 10));
    assert!(!keep_existing(None, 10));
    assert!(matches!(resume_from(false, None, 10), ResumeFrom::Start));
    assert!(matches!(resume_from(true, Some(4), 10), ResumeFrom::Offset(4)));
    assert!(matches!(resume_from(true, Some(10), 10), ResumeFrom::Offset(10)));
    assert!(matches!(resume_from(true, Some(11), 10), ResumeFrom::RemoveAndStart));
    assert!(matches!(resume_from(true, None, 10), ResumeFrom::RemoveAndStart));
}

#[test]
fn header_numbers() {
    assert_eq!(parse_u64("123"), Some(123));
    assert_eq!(parse_u64("+7"), Some(7));
    assert_eq!(parse_u64("18446744073709551615"), Some(u64::MAX));
    assert_eq!(parse_u64("18446744073709551616"), None);
    assert_eq!(parse_u64(""), None);
    assert_eq!(parse_u64("+"), None);
    assert_eq!(parse_u64("-1"), None);
    assert_eq!(parse_u64("12a"), None);
    assert_eq!(content_range_total("bytes 100-199/2000", 5), 2000);
    assert_eq!(content_range_total("bytes 100-199/*", 5), 5);
    assert_eq!(content_range_total("", 5), 5);
    assert_eq!(response_span(206, "bytes 10-19/20", 10, 99), (10, 20));
    assert_eq!(response_span(200, "bytes 10-19/20", 10, 99), (0, 99));
}

#[test]
fn progress_lines() {
    assert_eq!(progress_step(50, 100, 40), Some(50));
    assert_eq!(progress_step(45, 100, 40), None);
    assert_eq!(progress_step(5, 0, 0), None);
}
