//! The logic of the refinement editor: contribution levels and the records
//! it lists.

use vstd::prelude::*;

verus! {

// ───────────────────────────── contribution levels ─────────────────────────────

/// The contribution at which each level starts.
pub open spec fn level_threshold(i: int) -> int {
    if i <= 0 {
        0
    } else if i == 1 {
        5
    } else if i == 2 {
        20
    } else if i == 3 {
        50
    } else if i == 4 {
        100
    } else if i == 5 {
        200
    } else {
        500
    }
}

/// The number of levels.
pub open spec fn level_count() -> int {
    7
}

/// The level reached with a contribution: the last one whose threshold it meets.
pub open spec fn level_index(c: int) -> int {
    if c >= 500 {
        6
    } else if c >= 200 {
        5
    } else if c >= 100 {
        4
    } else if c >= 50 {
        3
    } else if c >= 20 {
        2
    } else if c >= 5 {
        1
    } else {
        0
    }
}

/// The title and badge of each level.
pub open spec fn level_title(i: int) -> (Seq<char>, Seq<char>) {
    if i <= 0 {
        ("新手体验官"@, "🌱"@)
    } else if i == 1 {
        ("初级体验官"@, "🌿"@)
    } else if i == 2 {
        ("中级体验官"@, "🌳"@)
    } else if i == 3 {
        ("高级体验官"@, "⭐"@)
    } else if i == 4 {
        ("资深体验官"@, "🌟"@)
    } else if i == 5 {
        ("首席体验官"@, "💎"@)
    } else {
        ("传奇体验官"@, "🏆"@)
    }
}

/// The thresholds of the levels, in order.
pub fn level_thresholds() -> (r: Vec<i32>)
    ensures
        r@.len() == level_count(),
        forall|i: int| 0 <= i < level_count() ==> r@[i] == level_threshold(i),
{
    let mut r: Vec<i32> = Vec::new();
    r.push(0);
    r.push(5);
    r.push(20);
    r.push(50);
    r.push(100);
    r.push(200);
    r.push(500);
    r
}

/// `get_level`: the level of a contribution, with its title and badge.
pub fn get_level(contribution: i32) -> (r: (usize, &'static str, &'static str))
    ensures
        r.0 == level_index(contribution as int),
        (r.1@, r.2@) == level_title(r.0 as int),
{
    let thresholds = level_thresholds();
    let mut idx: usize = 0;
    let mut i: usize = 0;
    while i < thresholds.len()
        invariant
            i <= 7,
            thresholds@.len() == 7,
            forall|k: int| 0 <= k < 7 ==> thresholds@[k] == level_threshold(k),
            idx == (if i == 0 { 0 } else { level_index_below(contribution as int, i as int) }),
        decreases 7 - i,
    {
        proof {
            assert(thresholds@[i as int] == level_threshold(i as int));
            assert(level_index_below(contribution as int, i + 1) == if contribution >= level_threshold(i as int) {
                i as int
            } else {
                level_index_below(contribution as int, i as int)
            });
        }
        if contribution >= thresholds[i] {
            idx = i;
        }
        i = i + 1;
    }
    proof {
        reveal_with_fuel(level_index_below, 8);
    }
    if idx == 0 {
        (0, "新手体验官", "🌱")
    } else if idx == 1 {
        (1, "初级体验官", "🌿")
    } else if idx == 2 {
        (2, "中级体验官", "🌳")
    } else if idx == 3 {
        (3, "高级体验官", "⭐")
    } else if idx == 4 {
        (4, "资深体验官", "🌟")
    } else if idx == 5 {
        (5, "首席体验官", "💎")
    } else {
        (6, "传奇体验官", "🏆")
    }
}

/// The last of the first `n` levels whose threshold `c` meets (0 if none).
pub open spec fn level_index_below(c: int, n: int) -> int
    decreases n,
{
    if n <= 0 {
        0
    } else if c >= level_threshold(n - 1) {
        n - 1
    } else {
        level_index_below(c, n - 1)
    }
}

/// How far a contribution is into its level: the contribution beyond the
/// level's threshold, the width of the level (0 at the top level), and what
/// is still missing to the next level (0 at the top level). The progress
/// shown is the first over the second, at most 1, and 1 at the top.
pub fn level_progress(contribution: i32) -> (r: (i32, i32, i32))
    requires
        contribution >= i32::MIN + 6,
    ensures
        ({
            let idx = level_index(contribution as int);
            let cur = level_threshold(idx);
            let next = if idx + 1 < level_count() { level_threshold(idx + 1) } else { cur };
            &&& r.0 == contribution - cur
            &&& r.1 == next - cur
            &&& r.2 == (if next == cur { 0 } else { next - contribution })
        }),
{
    let (idx, _, _) = get_level(contribution);
    let thresholds = level_thresholds();
    let current_threshold = thresholds[idx];
    let next_threshold = if idx + 1 < thresholds.len() {
        thresholds[idx + 1]
    } else {
        thresholds[idx]
    };
    proof {
        assert(current_threshold == level_threshold(idx as int));
        assert(idx + 1 < 7 ==> next_threshold == level_threshold(idx + 1));
        assert(contribution >= current_threshold || current_threshold == 0);
        assert(next_threshold <= 500);
    }
    if next_threshold == current_threshold {
        return (contribution - current_threshold, 0, 0);
    }
    (contribution - current_threshold, next_threshold - current_threshold, next_threshold - contribution)
}

// ───────────────────────────── records ─────────────────────────────

/// A refinement recorded on this machine.
pub struct RefineEntry {
    pub id: i64,
    pub original: String,
    pub refined: String,
    pub submitted: bool,
}

/// How many records the editor lists.
pub open spec fn max_display() -> int {
    5
}

/// The positions of the records whose `submitted` flag is `want`, in order.
pub open spec fn positions_where(flags: Seq<bool>, want: bool) -> Seq<int>
    decreases flags.len(),
{
    if flags.len() == 0 {
        Seq::empty()
    } else {
        positions_where(flags.drop_last(), want) + if flags.last() == want {
            seq![flags.len() - 1]
        } else {
            Seq::<int>::empty()
        }
    }
}

/// The records listed: the first five not yet submitted, filled up to five
/// with the first submitted ones.
pub open spec fn display_positions(flags: Seq<bool>) -> Seq<int> {
    let pending = positions_where(flags, false);
    let submitted = positions_where(flags, true);
    if pending.len() >= max_display() {
        pending.take(max_display())
    } else {
        pending + submitted.take(
            if submitted.len() < max_display() - pending.len() { submitted.len() as int } else { max_display() - pending.len() },
        )
    }
}

pub open spec fn submitted_flags(entries: Seq<RefineEntry>) -> Seq<bool> {
    entries.map_values(|e: RefineEntry| e.submitted)
}

/// Positions as integers.
pub open spec fn idx_view(v: Seq<usize>) -> Seq<int> {
    v.map_values(|i: usize| i as int)
}

proof fn lemma_idx_view_push(v: Seq<usize>, x: usize)
    ensures
        idx_view(v.push(x)) == idx_view(v).push(x as int),
{
    assert(idx_view(v.push(x)) =~= idx_view(v).push(x as int)) by {
        assert forall|j: int| 0 <= j < v.len() + 1 implies idx_view(v.push(x))[j] == idx_view(v).push(x as int)[j] by {
            if j < v.len() {
                assert(v.push(x)[j] == v[j]);
            }
        }
    }
}

fn positions_exec(entries: &Vec<RefineEntry>, want: bool) -> (r: Vec<usize>)
    ensures
        idx_view(r@) == positions_where(submitted_flags(entries@), want),
        forall|k: int| 0 <= k < r@.len() ==> r@[k] < entries@.len(),
{
    let ghost flags = submitted_flags(entries@);
    let mut r: Vec<usize> = Vec::new();
    let mut i: usize = 0;
    while i < entries.len()
        invariant
            i <= entries@.len(),
            flags == submitted_flags(entries@),
            idx_view(r@) == positions_where(flags.take(i as int), want),
            forall|k: int| 0 <= k < r@.len() ==> r@[k] < i,
        decreases entries@.len() - i,
    {
        proof {
            assert(flags.take(i + 1).drop_last() =~= flags.take(i as int));
            assert(flags.take(i + 1).last() == entries@[i as int].submitted);
        }
        if entries[i].submitted == want {
            proof {
                lemma_idx_view_push(r@, i);
            }
            r.push(i);
            proof {
                assert(idx_view(r@) =~= positions_where(flags.take(i as int), want).push(i as int));
            }
        } else {
            proof {
                assert(positions_where(flags.take(i + 1), want) =~= positions_where(flags.take(i as int), want));
            }
        }
        i = i + 1;
    }
    proof {
        assert(flags.take(i as int) =~= flags);
    }
    r
}

/// `display_entries`: the positions in `entries` of the records listed.
pub fn display_entries(entries: &Vec<RefineEntry>) -> (r: Vec<usize>)
    ensures
        idx_view(r@) == display_positions(submitted_flags(entries@)),
{
    let pending = positions_exec(entries, false);
    let submitted = positions_exec(entries, true);
    let ghost pv = idx_view(pending@);
    let ghost sv = idx_view(submitted@);
    let mut r: Vec<usize> = Vec::new();
    let mut k: usize = 0;
    while k < pending.len() && k < 5
        invariant
            k <= pending@.len(),
            k <= 5,
            pv == idx_view(pending@),
            idx_view(r@) == pv.take(k as int),
        decreases pending@.len() - k,
    {
        proof {
            lemma_idx_view_push(r@, pending@[k as int]);
            assert(pv.take(k + 1) =~= pv.take(k as int).push(pv[k as int]));
        }
        r.push(pending[k]);
        proof {
            assert(idx_view(r@) =~= pv.take(k + 1));
        }
        k = k + 1;
    }
    if r.len() < 5 {
        let need = 5 - r.len();
        let ghost base = idx_view(r@);
        let mut j: usize = 0;
        while j < submitted.len() && j < need
            invariant
                j <= submitted@.len(),
                j <= need,
                sv == idx_view(submitted@),
                idx_view(r@) == base + sv.take(j as int),
            decreases submitted@.len() - j,
        {
            proof {
                lemma_idx_view_push(r@, submitted@[j as int]);
                assert(sv.take(j + 1) =~= sv.take(j as int).push(sv[j as int]));
            }
            r.push(submitted[j]);
            proof {
                assert(idx_view(r@) =~= base + sv.take(j + 1));
            }
            j = j + 1;
        }
        proof {
            assert(pv.take(k as int) =~= pv);
        }
    }
    proof {
        assert(idx_view(r@) =~= display_positions(submitted_flags(entries@)));
    }
    r
}


// ───────────────────────────── the editor's state ─────────────────────────────

/// The first record with this id.
pub open spec fn find_entry(v: Seq<RefineEntry>, id: i64) -> Option<int>
    decreases v.len(),
{
    if v.len() == 0 {
        None
    } else if v[0].id == id {
        Some(0)
    } else {
        match find_entry(v.drop_first(), id) {
            Some(k) => Some(k + 1),
            None => None,
        }
    }
}

proof fn lemma_find_entry(v: Seq<RefineEntry>, id: i64)
    ensures
        find_entry(v, id) matches Some(k) ==> 0 <= k < v.len() && v[k].id == id,
    decreases v.len(),
{
    if v.len() > 0 && v[0].id != id {
        lemma_find_entry(v.drop_first(), id);
    }
}

/// The text a record is shown with: its refinement, or the original when
/// there is none yet.
pub open spec fn shown_text(e: RefineEntry) -> Seq<char> {
    if e.refined@.len() == 0 {
        e.original@
    } else {
        e.refined@
    }
}

/// The records without those of this id.
pub open spec fn without_id(v: Seq<RefineEntry>, id: i64) -> Seq<RefineEntry>
    decreases v.len(),
{
    if v.len() == 0 {
        Seq::empty()
    } else {
        without_id(v.drop_last(), id) + if v.last().id == id {
            Seq::<RefineEntry>::empty()
        } else {
            seq![v.last()]
        }
    }
}

/// The list of records, what is selected for correction, and the user's
/// contribution.
pub struct RefineEditor {
    pub entries: Vec<RefineEntry>,
    pub selected_id: Option<i64>,
    pub original_display: String,
    pub edit_text: String,
    pub contribution: i32,
}

fn find_entry_exec(v: &Vec<RefineEntry>, id: i64) -> (r: Option<usize>)
    ensures
        match r {
            Some(k) => find_entry(v@, id) == Some(k as int),
            None => find_entry(v@, id) is None,
        },
{
    let mut i: usize = 0;
    proof {
        assert(v@.subrange(0, v@.len() as int) =~= v@);
    }
    while i < v.len()
        invariant
            i <= v@.len(),
            match find_entry(v@.subrange(i as int, v@.len() as int), id) {
                Some(k) => find_entry(v@, id) == Some(k + i),
                None => find_entry(v@, id) is None,
            },
        decreases v@.len() - i,
    {
        proof {
            assert(v@.subrange(i as int, v@.len() as int).drop_first() =~= v@.subrange(i + 1, v@.len() as int));
            assert(v@.subrange(i as int, v@.len() as int)[0] == v@[i as int]);
        }
        if v[i].id == id {
            return Some(i);
        }
        i = i + 1;
    }
    proof {
        assert(v@.subrange(i as int, v@.len() as int).len() == 0);
    }
    None
}

impl RefineEditor {
    /// The editor on a list of records, with nothing selected.
    pub fn new(entries: Vec<RefineEntry>, contribution: i32) -> (r: Self)
        ensures
            r.entries@ == entries@,
            r.selected_id is None,
            r.original_display@.len() == 0,
            r.edit_text@.len() == 0,
            r.contribution == contribution,
    {
        RefineEditor { entries, selected_id: None, original_display: String::new(), edit_text: String::new(), contribution }
    }

    /// A click on a record: a record not yet submitted becomes the one being
    /// corrected, with its shown text to start from.
    pub fn select(&mut self, id: i64)
        ensures
            final(self).entries@ == old(self).entries@,
            final(self).contribution == old(self).contribution,
            match find_entry(old(self).entries@, id) {
                Some(k) if !old(self).entries@[k].submitted => {
                    &&& final(self).selected_id == Some(id)
                    &&& final(self).original_display@ == shown_text(old(self).entries@[k])
                    &&& final(self).edit_text@ == shown_text(old(self).entries@[k])
                },
                _ => {
                    &&& final(self).selected_id == old(self).selected_id
                    &&& final(self).original_display@ == old(self).original_display@
                    &&& final(self).edit_text@ == old(self).edit_text@
                },
            },
    {
        proof {
            lemma_find_entry(self.entries@, id);
        }
        match find_entry_exec(&self.entries, id) {
            Some(k) => {
                if !self.entries[k].submitted {
                    let shown = if self.entries[k].refined.as_str().is_empty() {
                        self.entries[k].original.clone()
                    } else {
                        self.entries[k].refined.clone()
                    };
                    self.selected_id = Some(id);
                    self.edit_text = shown.clone();
                    self.original_display = shown;
                }
            },
            None => {},
        }
    }

    /// "Cancel": nothing is selected any more.
    pub fn cancel(&mut self)
        ensures
            final(self).entries@ == old(self).entries@,
            final(self).contribution == old(self).contribution,
            final(self).selected_id is None,
            final(self).original_display@.len() == 0,
            final(self).edit_text@.len() == 0,
    {
        self.selected_id = None;
        self.original_display = String::new();
        self.edit_text = String::new();
    }

    /// After the record was deleted from the database: it leaves the list,
    /// and the selection when it was selected.
    pub fn entry_deleted(&mut self, id: i64)
        ensures
            final(self).entries@ == without_id(old(self).entries@, id),
            final(self).contribution == old(self).contribution,
            old(self).selected_id == Some(id) ==> final(self).selected_id is None
                && final(self).original_display@.len() == 0 && final(self).edit_text@.len() == 0,
            old(self).selected_id != Some(id) ==> final(self).selected_id == old(self).selected_id
                && final(self).original_display@ == old(self).original_display@
                && final(self).edit_text@ == old(self).edit_text@,
    {
        let ghost all = self.entries@;
        let mut rest: Vec<RefineEntry> = Vec::new();
        std::mem::swap(&mut rest, &mut self.entries);
        let n = rest.len();
        let mut kept: Vec<RefineEntry> = Vec::new();
        let mut k: usize = 0;
        proof {
            assert(all.subrange(0, n as int) =~= all);
            assert(all.take(0) =~= Seq::<RefineEntry>::empty());
        }
        while k < n
            invariant
                n == all.len(),
                k <= n,
                rest@ == all.subrange(k as int, n as int),
                kept@ == without_id(all.take(k as int), id),
            decreases n - k,
        {
            let e = rest.remove(0);
            proof {
                assert(e == all[k as int]);
                assert(rest@ =~= all.subrange(k + 1, n as int));
                assert(all.take(k + 1).drop_last() =~= all.take(k as int));
                assert(all.take(k + 1).last() == e);
            }
            if e.id != id {
                kept.push(e);
                proof {
                    assert(kept@ =~= without_id(all.take(k as int), id) + seq![all[k as int]]);
                }
            } else {
                proof {
                    assert(without_id(all.take(k + 1), id) =~= without_id(all.take(k as int), id));
                }
            }
            k = k + 1;
        }
        proof {
            assert(all.take(n as int) =~= all);
        }
        self.entries = kept;
        if self.selected_id == Some(id) {
            self.selected_id = None;
            self.original_display = String::new();
            self.edit_text = String::new();
        }
    }

    /// What "submit" sends: the selected record's id and original text, and
    /// the corrected text without surrounding white space; nothing when the
    /// correction is blank or no record is selected.
    pub fn submission(&self) -> (r: Option<(i64, String, String)>)
        ensures
            match r {
                Some((id, original, text)) => {
                    &&& self.selected_id == Some(id)
                    &&& find_entry(self.entries@, id) matches Some(k)
                    &&& original@ == self.entries@[k].original@
                    &&& text@ == crate::chars::trim(self.edit_text@)
                    &&& text@.len() > 0
                },
                None => match self.selected_id {
                    Some(id) => crate::chars::trim(self.edit_text@).len() == 0 || find_entry(self.entries@, id) is None,
                    None => true,
                },
            },
    {
        let id = match self.selected_id {
            Some(id) => id,
            None => return None,
        };
        let t = crate::chars::trim_chars(crate::chars::chars_of(self.edit_text.as_str()).as_slice());
        if t.len() == 0 {
            return None;
        }
        proof {
            lemma_find_entry(self.entries@, id);
        }
        match find_entry_exec(&self.entries, id) {
            Some(k) => Some((id, self.entries[k].original.clone(), crate::chars::string_from_chars(t.as_slice()))),
            None => None,
        }
    }

    /// After the correction was saved in the database: the record holds it
    /// and counts as submitted, and nothing is selected.
    pub fn submission_saved(&mut self, id: i64, new_refined: &str)
        ensures
            final(self).entries@.len() == old(self).entries@.len(),
            match find_entry(old(self).entries@, id) {
                Some(k) => {
                    &&& final(self).entries@[k].id == id
                    &&& final(self).entries@[k].original@ == old(self).entries@[k].original@
                    &&& final(self).entries@[k].refined@ == new_refined@
                    &&& final(self).entries@[k].submitted
                    &&& forall|j: int| 0 <= j < old(self).entries@.len() && j != k ==> #[trigger] final(self).entries@[j] == old(self).entries@[j]
                },
                None => final(self).entries@ == old(self).entries@,
            },
            final(self).selected_id is None,
            final(self).original_display@.len() == 0,
            final(self).edit_text@.len() == 0,
            final(self).contribution == old(self).contribution,
    {
        proof {
            lemma_find_entry(self.entries@, id);
        }
        match find_entry_exec(&self.entries, id) {
            Some(k) => {
                let original = self.entries[k].original.clone();
                self.entries.set(k, RefineEntry { id, original, refined: String::from_str(new_refined), submitted: true });
            },
            None => {},
        }
        self.selected_id = None;
        self.original_display = String::new();
        self.edit_text = String::new();
    }

    /// After the service answered a submission: an accepted one counts.
    pub fn submission_answered(&mut self, success: bool)
        requires
            old(self).contribution < i32::MAX,
        ensures
            final(self).contribution == old(self).contribution + if success { 1int } else { 0int },
            final(self).entries@ == old(self).entries@,
            final(self).selected_id == old(self).selected_id,
    {
        if success {
            self.contribution = self.contribution + 1;
        }
    }
}

// ───────────────────────────── review ─────────────────────────────

/// What the review page shows.
pub enum AuditState {
    Idle,
    Loaded(crate::ui::refine_api::AuditItem),
    ThankYou(String),
    Error(String),
}

/// The page after asking for an item to review (`Err` carries the error's text).
pub fn audit_after_load(r: Result<Option<crate::ui::refine_api::AuditItem>, String>) -> (s: AuditState)
    ensures
        match r {
            Ok(Some(item)) => s == AuditState::Loaded(item),
            Ok(None) => s is Idle,
            Err(e) => s matches AuditState::Error(m) && m@ == "获取待审核内容失败: "@ + e@,
        },
{
    match r {
        Ok(Some(item)) => AuditState::Loaded(item),
        Ok(None) => AuditState::Idle,
        Err(e) => {
            let mut m = String::from_str("获取待审核内容失败: ");
            m.append(e.as_str());
            AuditState::Error(m)
        },
    }
}

/// The thanks shown after a review, chosen by a clock tick.
pub open spec fn audit_thanks(i: int) -> Seq<char> {
    if i == 0 {
        "太棒了！你刚刚帮助提升了语音识别的准确度，千万人受益！"@
    } else if i == 1 {
        "你的审阅让更多用户享受到了更精准的文字输入体验！"@
    } else if i == 2 {
        "很厉害！又一条高质量的优化建议，系统因你而进步！"@
    } else if i == 3 {
        "感谢你的专业眼光！你的每一次审阅都在推动技术向前！"@
    } else if i == 4 {
        "你的贡献正在让语音输入变得更自然、更智能！"@
    } else if i == 5 {
        "又一个值得骄傲的贡献！你是最棒的体验优化官！"@
    } else if i == 6 {
        "你的细致审核是产品不断进化的动力，为你点赞！"@
    } else if i == 7 {
        "优秀！你正在帮助构建更好的语音技术生态系统！"@
    } else if i == 8 {
        "这份认真令人感动！你的贡献让每个使用语音输入的人都受益！"@
    } else {
        "完美！你的专业判断让 AI 变得更加可靠和智能！"@
    }
}

fn audit_thanks_exec(i: usize) -> (r: String)
    requires
        i < 10,
    ensures
        r@ == audit_thanks(i as int),
{
    if i == 0 {
        String::from_str("太棒了！你刚刚帮助提升了语音识别的准确度，千万人受益！")
    } else if i == 1 {
        String::from_str("你的审阅让更多用户享受到了更精准的文字输入体验！")
    } else if i == 2 {
        String::from_str("很厉害！又一条高质量的优化建议，系统因你而进步！")
    } else if i == 3 {
        String::from_str("感谢你的专业眼光！你的每一次审阅都在推动技术向前！")
    } else if i == 4 {
        String::from_str("你的贡献正在让语音输入变得更自然、更智能！")
    } else if i == 5 {
        String::from_str("又一个值得骄傲的贡献！你是最棒的体验优化官！")
    } else if i == 6 {
        String::from_str("你的细致审核是产品不断进化的动力，为你点赞！")
    } else if i == 7 {
        String::from_str("优秀！你正在帮助构建更好的语音技术生态系统！")
    } else if i == 8 {
        String::from_str("这份认真令人感动！你的贡献让每个使用语音输入的人都受益！")
    } else {
        String::from_str("完美！你的专业判断让 AI 变得更加可靠和智能！")
    }
}

/// The page after a review was sent: thanks (the `tick`-th message, cyclically)
/// when the service accepted it, else the reason it failed. `reply` is the
/// service's success flag and message, or the error's text.
pub fn audit_after_submit(reply: Result<(bool, Option<String>), String>, tick: usize) -> (s: AuditState)
    ensures
        match reply {
            Ok((true, _)) => s matches AuditState::ThankYou(m) && m@ == audit_thanks((tick % 10) as int),
            Ok((false, Some(msg))) => s matches AuditState::Error(m) && m@ == "提交失败: "@ + msg@,
            Ok((false, None)) => s matches AuditState::Error(m) && m@ == "提交失败: 未知错误"@,
            Err(e) => s matches AuditState::Error(m) && m@ == "提交失败: "@ + e@,
        },
{
    match reply {
        Ok((true, _)) => AuditState::ThankYou(audit_thanks_exec(tick % 10)),
        Ok((false, msg)) => {
            let mut m = String::from_str("提交失败: ");
            match msg {
                Some(t) => m.append(t.as_str()),
                None => m.append("未知错误"),
            }
            proof {
                reveal_strlit("提交失败: ");
                reveal_strlit("未知错误");
                reveal_strlit("提交失败: 未知错误");
            }
            AuditState::Error(m)
        },
        Err(e) => {
            let mut m = String::from_str("提交失败: ");
            m.append(e.as_str());
            AuditState::Error(m)
        },
    }
}

/// The thanks shown after a correction was accepted, chosen by a clock tick.
pub open spec fn submit_thanks(i: int) -> Seq<char> {
    if i == 0 {
        "感谢你的校正建议！这将帮助系统识别得更好。"@
    } else if i == 1 {
        "太好了！你刚刚为提升语音识别准确率做出了贡献！"@
    } else if i == 2 {
        "你的修改非常到位！系统会从你的反馈中不断学习进步。"@
    } else if i == 3 {
        "又一条高质量校正！你正在让语音输入变得更智能！"@
    } else if i == 4 {
        "优秀的建议！你的贡献正在帮助千万人获得更好的输入体验！"@
    } else {
        "精准的修改！你的专业反馈是系统进步的宝贵财富！"@
    }
}

/// The `tick`-th thanks for a correction, cyclically.
pub fn submit_thank_you(tick: usize) -> (r: String)
    ensures
        r@ == submit_thanks((tick % 6) as int),
{
    let i = tick % 6;
    if i == 0 {
        String::from_str("感谢你的校正建议！这将帮助系统识别得更好。")
    } else if i == 1 {
        String::from_str("太好了！你刚刚为提升语音识别准确率做出了贡献！")
    } else if i == 2 {
        String::from_str("你的修改非常到位！系统会从你的反馈中不断学习进步。")
    } else if i == 3 {
        String::from_str("又一条高质量校正！你正在让语音输入变得更智能！")
    } else if i == 4 {
        String::from_str("优秀的建议！你的贡献正在帮助千万人获得更好的输入体验！")
    } else {
        String::from_str("精准的修改！你的专业反馈是系统进步的宝贵财富！")
    }
}

} // verus!
