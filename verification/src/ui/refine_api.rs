//! The data exchanged with the refinement service, and a stand-in service
//! that serves a fixed round of examples for review.

use vstd::prelude::*;

verus! {

/// A corrected refinement sent by a user.
pub struct RefineSubmit {
    pub uuid: String,
    pub original: String,
    pub refined: String,
}

/// A refinement waiting for review.
pub struct AuditItem {
    pub record_id: String,
    pub original: String,
    pub refined: String,
}

/// A user's verdict on a refinement.
pub struct AuditSubmit {
    pub uuid: String,
    pub record_id: String,
    pub approved: bool,
}

/// The examples that the stand-in service hands out, in turn: the
/// recognized text and its refinement.
pub open spec fn mock_example(i: int) -> (Seq<char>, Seq<char>) {
    if i == 0 {
        ("我今天去了一个很好玩的地方"@, "今天我去了一个非常有趣的地方。"@)
    } else if i == 1 {
        ("这个产品的质量非常好值得推荐"@, "这款产品质量上乘，值得推荐。"@)
    } else if i == 2 {
        ("昨天晚上看了一部特别精彩的动作电影"@, "昨晚看了一部非常精彩的动作电影。"@)
    } else if i == 3 {
        ("北京的天气最近变化很大忽冷忽热"@, "最近北京天气变化很大，忽冷忽热。"@)
    } else if i == 4 {
        ("我们公司正在开发一款新的语音识别软件"@, "我们公司正在开发一款全新的语音识别软件。"@)
    } else if i == 5 {
        ("人工智能技术的发展速度超出了很多人的预期"@, "人工智能技术的发展速度远超许多人的预期。"@)
    } else {
        ("春节是中国最重要的传统节日之一"@, "春节是中国最重要的传统节日之一。"@)
    }
}

fn mock_example_exec(i: usize) -> (r: (String, String))
    requires
        i < 7,
    ensures
        (r.0@, r.1@) == mock_example(i as int),
{
    if i == 0 {
        (String::from_str("我今天去了一个很好玩的地方"), String::from_str("今天我去了一个非常有趣的地方。"))
    } else if i == 1 {
        (String::from_str("这个产品的质量非常好值得推荐"), String::from_str("这款产品质量上乘，值得推荐。"))
    } else if i == 2 {
        (String::from_str("昨天晚上看了一部特别精彩的动作电影"), String::from_str("昨晚看了一部非常精彩的动作电影。"))
    } else if i == 3 {
        (String::from_str("北京的天气最近变化很大忽冷忽热"), String::from_str("最近北京天气变化很大，忽冷忽热。"))
    } else if i == 4 {
        (String::from_str("我们公司正在开发一款新的语音识别软件"), String::from_str("我们公司正在开发一款全新的语音识别软件。"))
    } else if i == 5 {
        (String::from_str("人工智能技术的发展速度超出了很多人的预期"), String::from_str("人工智能技术的发展速度远超许多人的预期。"))
    } else {
        (String::from_str("春节是中国最重要的传统节日之一"), String::from_str("春节是中国最重要的传统节日之一。"))
    }
}

/// A stand-in for the refinement service: each request for review gets the
/// next of the examples, numbered from 1.
pub struct MockRefineApi {
    counter: usize,
}

impl MockRefineApi {
    /// The number the next item for review gets.
    pub closed spec fn counter(&self) -> usize {
        self.counter
    }

    pub fn new() -> (r: Self)
        ensures
            r.counter() == 1,
    {
        MockRefineApi { counter: 1 }
    }

    /// The next item for review (for any user): number `n` (the counter,
    /// which then moves on, wrapping at the top of `usize`) is `mock_n`, with
    /// the example `n mod 7`.
    pub fn get_pending_audit(&mut self, _uuid: &str) -> (r: Option<AuditItem>)
        ensures
            final(self).counter() == (if old(self).counter() == usize::MAX { 0 } else { old(self).counter() + 1 }),
            r matches Some(item) && item.record_id@ == "mock_"@ + crate::chars::decimal(old(self).counter() as nat)
                && (item.original@, item.refined@) == mock_example((old(self).counter() % 7) as int),
    {
        let n = self.counter;
        self.counter = n.wrapping_add(1);
        let (original, refined) = mock_example_exec(n % 7);
        let digits = crate::chars::u64_decimal(n as u64);
        let mut record_id = String::from_str("mock_");
        record_id.append(crate::chars::string_from_chars(digits.as_slice()).as_str());
        Some(AuditItem { record_id, original, refined })
    }
}

} // verus!
