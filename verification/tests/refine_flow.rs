use vi::refine_mgr::{ensure_trailing_punct, refine_route, RefineRoute};

#[test]
fn trailing_punct_added_to_long_texts() {
    assert_eq!(ensure_trailing_punct("今天天气很好", 2, "。"), "今天天气很好。");
    assert_eq!(ensure_trailing_punct("今天天气很好！", 2, "。"), "今天天气很好！");
    assert_eq!(ensure_trailing_punct("好的", 2, "。"), "好的");
    assert_eq!(ensure_trailing_punct("ok?", 2, "."), "ok?");
}

#[test]
fn refine_routes() {
    assert_eq!(refine_route("好的", 2, true, true, true), RefineRoute::FallbackPunc);
    assert_eq!(refine_route("今天天气", 2, true, true, true), RefineRoute::Remote);
    assert_eq!(refine_route("今天天气", 2, true, false, true), RefineRoute::Local);
    assert_eq!(refine_route("今天天气", 2, false, true, false), RefineRoute::FallbackPunc);
}
