//! What the tray shows.

use vstd::prelude::*;

verus! {

/// The state the tray icon reflects.
pub enum TrayDisplayState {
    Idle,
    Recording,
    Processing,
}

/// The text of the menu item that switches network refinement, and whether
/// it can be chosen: it needs an API key; with one, a check mark tells that
/// the refinement is on.
pub fn coze_refine_item(enabled: bool, has_api_key: bool) -> (r: (String, bool))
    ensures
        has_api_key && enabled ==> r.0@ == "✓ 网络大模型润色"@ && r.1,
        has_api_key && !enabled ==> r.0@ == "网络大模型润色"@ && r.1,
        !has_api_key ==> r.0@ == "网络大模型润色（需设置 API Key）"@ && !r.1,
{
    if has_api_key {
        let text = if enabled {
            String::from_str("✓ 网络大模型润色")
        } else {
            String::from_str("网络大模型润色")
        };
        (text, true)
    } else {
        (String::from_str("网络大模型润色（需设置 API Key）"), false)
    }
}

} // verus!
