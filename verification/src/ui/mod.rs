//! The logic behind the settings window, the tray and the refinement editor.
//!
//! The windows themselves (egui, the tray icon) are driven from outside; what
//! they decide is here: which prompt scheme is active, what a menu item says,
//! which records are shown.

pub mod log_capture;
pub mod refine_api;
pub mod refine_editor;
pub mod tray;

use vstd::prelude::*;

verus! {

/// A named pair of prompts for the local model.
pub struct Scheme {
    pub name: String,
    pub system_prompt: String,
    pub prefill_template: String,
}

/// The prompts that the language model is to be rebuilt with.
pub struct PromptState {
    pub system_prompt: String,
    pub prefill_template: String,
}

/// The name of the built-in scheme.
pub open spec fn default_scheme_name() -> Seq<char> {
    "默认"@
}

/// A scheme as values: name, system prompt, prefill template.
pub type SchemeView = (Seq<char>, Seq<char>, Seq<char>);

/// Where the scheme called `name` stands.
pub open spec fn find_scheme(v: Seq<SchemeView>, name: Seq<char>) -> Option<int>
    decreases v.len(),
{
    if v.len() == 0 {
        None
    } else if v[0].0 == name {
        Some(0)
    } else {
        match find_scheme(v.drop_first(), name) {
            Some(k) => Some(k + 1),
            None => None,
        }
    }
}

pub proof fn lemma_find_scheme(v: Seq<SchemeView>, name: Seq<char>)
    ensures
        find_scheme(v, name) matches Some(i) ==> 0 <= i < v.len() && v[i].0 == name,
        find_scheme(v, name) is None ==> forall|i: int| 0 <= i < v.len() ==> #[trigger] v[i].0 != name,
    decreases v.len(),
{
    if v.len() > 0 && v[0].0 != name {
        lemma_find_scheme(v.drop_first(), name);
        if find_scheme(v, name) is None {
            assert forall|i: int| 0 <= i < v.len() implies #[trigger] v[i].0 != name by {
                if i > 0 {
                    assert(v[i] == v.drop_first()[i - 1]);
                }
            }
        }
    }
}

/// The names are all different.
pub open spec fn names_distinct(v: Seq<SchemeView>) -> bool {
    forall|i: int, j: int| 0 <= i < j < v.len() ==> #[trigger] v[i].0 != #[trigger] v[j].0
}

/// `v` with `e` in place of the scheme of the same name, or added at the end.
pub open spec fn put_scheme(v: Seq<SchemeView>, e: SchemeView) -> Seq<SchemeView> {
    match find_scheme(v, e.0) {
        Some(i) => v.update(i, e),
        None => v.push(e),
    }
}

/// `a` comes before `b` in `String`'s order (by code points, which is the
/// order of their UTF-8 bytes).
pub open spec fn text_lt(a: Seq<char>, b: Seq<char>) -> bool
    decreases a.len(),
{
    if a.len() == 0 {
        b.len() > 0
    } else if b.len() == 0 {
        false
    } else if a[0] != b[0] {
        (a[0] as u32) < (b[0] as u32)
    } else {
        text_lt(a.drop_first(), b.drop_first())
    }
}

/// Some scheme has this name.
pub open spec fn has_name(v: Seq<SchemeView>, n: Seq<char>) -> bool {
    exists|k: int| 0 <= k < v.len() && #[trigger] v[k].0 == n
}

/// The list holds this name.
pub open spec fn lists_name(r: Seq<String>, n: Seq<char>) -> bool {
    exists|i: int| 0 <= i < r.len() && #[trigger] r[i]@ == n
}

pub open spec fn text_le(a: Seq<char>, b: Seq<char>) -> bool {
    text_lt(a, b) || a == b
}

proof fn lemma_text_lt_trans(a: Seq<char>, b: Seq<char>, c: Seq<char>)
    requires
        text_lt(a, b),
        text_lt(b, c),
    ensures
        text_lt(a, c),
    decreases a.len(),
{
    if a.len() > 0 && b.len() > 0 && c.len() > 0 && a[0] == b[0] && b[0] == c[0] {
        lemma_text_lt_trans(a.drop_first(), b.drop_first(), c.drop_first());
    }
}

proof fn lemma_text_le_trans(a: Seq<char>, b: Seq<char>, c: Seq<char>)
    requires
        text_le(a, b),
        text_le(b, c),
    ensures
        text_le(a, c),
{
    if text_lt(a, b) && text_lt(b, c) {
        lemma_text_lt_trans(a, b, c);
    }
}

/// Two texts are equal or one comes before the other.
proof fn lemma_text_not_lt(a: Seq<char>, b: Seq<char>)
    requires
        !text_lt(a, b),
    ensures
        text_le(b, a),
    decreases a.len(),
{
    if a.len() == 0 {
        assert(b.len() == 0);
        assert(a =~= b);
    } else if b.len() == 0 {
    } else if a[0] != b[0] {
        vstd::utf8::char_u32_cast(a[0], a[0] as u32);
        vstd::utf8::char_u32_cast(b[0], b[0] as u32);
    } else {
        lemma_text_not_lt(a.drop_first(), b.drop_first());
        if a.drop_first() == b.drop_first() {
            assert(a =~= b) by {
                assert forall|i: int| 0 <= i < a.len() implies a[i] == b[i] by {
                    if i > 0 {
                        assert(a[i] == a.drop_first()[i - 1]);
                        assert(b[i] == b.drop_first()[i - 1]);
                    }
                }
            }
        }
    }
}

fn text_lt_exec(a: &[char], b: &[char]) -> (r: bool)
    ensures
        r == text_lt(a@, b@),
{
    let mut i: usize = 0;
    proof {
        assert(a@.subrange(0, a@.len() as int) =~= a@);
        assert(b@.subrange(0, b@.len() as int) =~= b@);
    }
    while i < a.len() && i < b.len()
        invariant
            i <= a@.len(),
            i <= b@.len(),
            a@.subrange(0, i as int) == b@.subrange(0, i as int),
            text_lt(a@, b@) == text_lt(a@.subrange(i as int, a@.len() as int), b@.subrange(i as int, b@.len() as int)),
        decreases a@.len() - i,
    {
        let ghost sa = a@.subrange(i as int, a@.len() as int);
        let ghost sb = b@.subrange(i as int, b@.len() as int);
        proof {
            assert(sa[0] == a@[i as int]);
            assert(sb[0] == b@[i as int]);
            assert(sa.drop_first() =~= a@.subrange(i + 1, a@.len() as int));
            assert(sb.drop_first() =~= b@.subrange(i + 1, b@.len() as int));
        }
        if a[i] != b[i] {
            return (a[i] as u32) < (b[i] as u32);
        }
        proof {
            assert(a@.subrange(0, i + 1) =~= a@.subrange(0, i as int).push(a@[i as int]));
            assert(b@.subrange(0, i + 1) =~= b@.subrange(0, i as int).push(b@[i as int]));
        }
        i = i + 1;
    }
    i < b.len()
}

/// A scheme that was just added is what a lookup of its name finds, and
/// adding keeps names distinct.
pub proof fn lemma_scheme_put_get(v: Seq<SchemeView>, e: SchemeView)
    requires
        names_distinct(v),
    ensures
        find_scheme(put_scheme(v, e), e.0) matches Some(i) && put_scheme(v, e)[i] == e,
        names_distinct(put_scheme(v, e)),
{
    lemma_find_scheme(v, e.0);
    let w = put_scheme(v, e);
    lemma_find_scheme(w, e.0);
    match find_scheme(v, e.0) {
        Some(i) => {
            assert(w[i] == e);
            assert forall|a: int, b: int| 0 <= a < b < w.len() implies #[trigger] w[a].0 != #[trigger] w[b].0 by {
                assert(v[a].0 != v[b].0);
            }
        },
        None => {
            assert(w[v.len() as int] == e);
            assert forall|a: int, b: int| 0 <= a < b < w.len() implies #[trigger] w[a].0 != #[trigger] w[b].0 by {
                if b < v.len() {
                    assert(v[a].0 != v[b].0);
                } else {
                    assert(v[a].0 != e.0);
                }
            }
        },
    }
    let j = match find_scheme(v, e.0) {
        Some(i) => i,
        None => v.len() as int,
    };
    if let Some(k) = find_scheme(w, e.0) {
        if k < j {
            assert(w[k].0 != w[j].0);
        } else if j < k {
            assert(w[j].0 != w[k].0);
        }
    }
}

/// The prompt schemes, by name (the built-in one first, the others in the
/// order they were added).
pub struct SchemeSet {
    schemes: Vec<Scheme>,
}

impl SchemeSet {
    /// The schemes as values.
    pub closed spec fn view(&self) -> Seq<SchemeView> {
        self.schemes@.map_values(|s: Scheme| (s.name@, s.system_prompt@, s.prefill_template@))
    }

    /// The set holding only the built-in scheme, with the given prompts.
    pub fn with_default(default_sp: &str, default_pt: &str) -> (r: Self)
        ensures
            r.view() == seq![(default_scheme_name(), default_sp@, default_pt@)],
            names_distinct(r.view()),
    {
        let mut schemes: Vec<Scheme> = Vec::new();
        schemes.push(Scheme {
            name: String::from_str("默认"),
            system_prompt: String::from_str(default_sp),
            prefill_template: String::from_str(default_pt),
        });
        let r = SchemeSet { schemes };
        proof {
            assert(r.view() =~= seq![(default_scheme_name(), default_sp@, default_pt@)]);
        }
        r
    }

    fn find(&self, name: &String) -> (r: Option<usize>)
        ensures
            match r {
                Some(i) => find_scheme(self.view(), name@) == Some(i as int),
                None => find_scheme(self.view(), name@) is None,
            },
    {
        let ghost v = self.view();
        let mut i: usize = 0;
        proof {
            assert(v.subrange(0, v.len() as int) =~= v);
        }
        while i < self.schemes.len()
            invariant
                i <= self.schemes@.len(),
                v == self.view(),
                v.len() == self.schemes@.len(),
                match find_scheme(v.subrange(i as int, v.len() as int), name@) {
                    Some(k) => find_scheme(v, name@) == Some(k + i),
                    None => find_scheme(v, name@) is None,
                },
            decreases self.schemes@.len() - i,
        {
            proof {
                assert(v.subrange(i as int, v.len() as int).drop_first() =~= v.subrange(i + 1, v.len() as int));
                assert(v.subrange(i as int, v.len() as int)[0] == v[i as int]);
            }
            if self.schemes[i].name == *name {
                return Some(i);
            }
            i = i + 1;
        }
        proof {
            assert(v.subrange(i as int, v.len() as int).len() == 0);
        }
        None
    }

    /// The scheme of that name, if there is one.
    pub fn get(&self, name: &str) -> (r: Option<&Scheme>)
        ensures
            match r {
                Some(s) => find_scheme(self.view(), name@) matches Some(i)
                    && self.view()[i] == (s.name@, s.system_prompt@, s.prefill_template@),
                None => find_scheme(self.view(), name@) is None,
            },
    {
        let key = String::from_str(name);
        match self.find(&key) {
            Some(i) => {
                proof {
                    lemma_find_scheme(self.view(), name@);
                }
                Some(&self.schemes[i])
            },
            None => None,
        }
    }

    /// Adds a scheme, replacing the one of the same name.
    pub fn insert(&mut self, scheme: Scheme)
        ensures
            final(self).view() == put_scheme(old(self).view(), (scheme.name@, scheme.system_prompt@, scheme.prefill_template@)),
            names_distinct(old(self).view()) ==> names_distinct(final(self).view()),
    {
        let ghost v = self.view();
        let ghost e = (scheme.name@, scheme.system_prompt@, scheme.prefill_template@);
        proof {
            lemma_find_scheme(v, e.0);
        }
        match self.find(&scheme.name) {
            Some(i) => {
                self.schemes.set(i, scheme);
                proof {
                    assert(self.view() =~= v.update(i as int, e));
                }
            },
            None => {
                self.schemes.push(scheme);
                proof {
                    assert(self.view() =~= v.push(e));
                }
            },
        }
    }

    /// The names of the schemes in the order of `String`'s comparison (the
    /// order of the scheme list).
    pub fn names(&self) -> (r: Vec<String>)
        ensures
            r@.len() == self.view().len(),
            forall|i: int, j: int| 0 <= i < j < r@.len() ==> text_le(#[trigger] r@[i]@, #[trigger] r@[j]@),
            forall|i: int| 0 <= i < r@.len() ==> has_name(self.view(), #[trigger] r@[i]@),
            forall|k: int| 0 <= k < self.view().len() ==> lists_name(r@, #[trigger] self.view()[k].0),
    {
        let ghost v = self.view();
        let mut r: Vec<String> = Vec::new();
        let mut n: usize = 0;
        proof {
            assert(v.take(0).len() == 0);
        }
        while n < self.schemes.len()
            invariant
                n <= self.schemes@.len(),
                v == self.view(),
                v.len() == self.schemes@.len(),
                r@.len() == n,
                forall|i: int, j: int| 0 <= i < j < r@.len() ==> text_le(#[trigger] r@[i]@, #[trigger] r@[j]@),
                forall|i: int| 0 <= i < r@.len() ==> has_name(v.take(n as int), #[trigger] r@[i]@),
                forall|k: int| 0 <= k < n ==> lists_name(r@, #[trigger] v[k].0),
            decreases self.schemes@.len() - n,
        {
            let x = self.schemes[n].name.clone();
            let xc = crate::chars::chars_of(x.as_str());
            // the first place whose name is not before `x`
            let mut p: usize = 0;
            while p < r.len() && text_lt_exec(crate::chars::chars_of(r[p].as_str()).as_slice(), xc.as_slice())
                invariant
                    p <= r@.len(),
                    xc@ == x@,
                    forall|i: int| 0 <= i < p ==> text_lt(#[trigger] r@[i]@, x@),
                decreases r@.len() - p,
            {
                p = p + 1;
            }
            proof {
                assert(v[n as int].0 == x@);
                if p < r@.len() {
                    lemma_text_not_lt(r@[p as int]@, x@);
                    assert forall|i: int| p <= i < r@.len() implies text_le(x@, #[trigger] r@[i]@) by {
                        if i > p {
                            assert(text_le(r@[p as int]@, r@[i]@));
                        }
                        lemma_text_le_trans(x@, r@[p as int]@, r@[i]@);
                    }
                }
            }
            let ghost before = r@;
            r.insert(p, x);
            proof {
                assert forall|i: int, j: int| 0 <= i < j < r@.len() implies text_le(#[trigger] r@[i]@, #[trigger] r@[j]@) by {
                    if j < p {
                        assert(text_le(before[i]@, before[j]@));
                    } else if j == p {
                        assert(text_lt(before[i]@, x@));
                    } else if i < p {
                        assert(text_lt(before[i]@, x@));
                        assert(text_le(x@, before[j - 1]@));
                        lemma_text_le_trans(before[i]@, x@, before[j - 1]@);
                    } else if i == p {
                        assert(text_le(x@, before[j - 1]@));
                    } else {
                        assert(text_le(before[i - 1]@, before[j - 1]@));
                    }
                }
                assert forall|i: int| 0 <= i < r@.len() implies has_name(v.take(n + 1), #[trigger] r@[i]@) by {
                    let vt = v.take(n + 1);
                    if i == p {
                        assert(vt[n as int].0 == r@[i]@);
                    } else {
                        let b = if i < p { before[i] } else { before[i - 1] };
                        assert(r@[i] == b);
                        assert(has_name(v.take(n as int), b@));
                        let k = choose|k: int| 0 <= k < n && #[trigger] v.take(n as int)[k].0 == b@;
                        assert(vt[k] == v.take(n as int)[k]);
                    }
                }
                assert forall|k: int| 0 <= k < n + 1 implies lists_name(r@, #[trigger] v[k].0) by {
                    if k == n {
                        assert(r@[p as int]@ == v[k].0);
                    } else {
                        assert(lists_name(before, v[k].0));
                        let i = choose|i: int| 0 <= i < before.len() && #[trigger] before[i]@ == v[k].0;
                        if i < p {
                            assert(r@[i] == before[i]);
                        } else {
                            assert(r@[i + 1] == before[i]);
                        }
                    }
                }
            }
            n = n + 1;
        }
        proof {
            assert(v.take(n as int) =~= v);
        }
        r
    }

    /// The scheme that is active at start: the saved one when it exists,
    /// else the built-in one with the default prompts. Gives its name, its
    /// two prompts, and whether the model must be rebuilt (a saved scheme
    /// other than the built-in one).
    pub fn select_initial(&self, saved: Option<&str>, default_sp: &str, default_pt: &str) -> (r: (String, String, String, bool))
        ensures
            ({
                let chosen = match saved {
                    Some(n) => match find_scheme(self.view(), n@) {
                        Some(i) => Some(self.view()[i]),
                        None => None,
                    },
                    None => None,
                };
                match chosen {
                    Some(e) => r.0@ == e.0 && r.1@ == e.1 && r.2@ == e.2 && r.3 == (e.0 != default_scheme_name()),
                    None => r.0@ == default_scheme_name() && r.1@ == default_sp@ && r.2@ == default_pt@ && !r.3,
                }
            }),
    {
        proof {
            reveal_strlit("默认");
        }
        match saved {
            Some(name) => {
                match self.get(name) {
                    Some(s) => {
                        let rebuild = !(s.name == String::from_str("默认"));
                        return (s.name.clone(), s.system_prompt.clone(), s.prefill_template.clone(), rebuild);
                    },
                    None => {},
                }
            },
            None => {},
        }
        (String::from_str("默认"), String::from_str(default_sp), String::from_str(default_pt), false)
    }
}

/// The settings window's prompt editor: the schemes, which one is current,
/// the two prompts being edited, and the "save as" popup.
pub struct SchemeEditor {
    pub schemes: SchemeSet,
    pub current_scheme: String,
    pub system_prompt_edit: String,
    pub prefill_template_edit: String,
    pub new_scheme_name: String,
    pub show_save_as_popup: bool,
}

impl SchemeEditor {
    /// The prompts the model is rebuilt with: those being edited.
    pub fn prompt_state(&self) -> (r: PromptState)
        ensures
            r.system_prompt@ == self.system_prompt_edit@,
            r.prefill_template@ == self.prefill_template_edit@,
    {
        PromptState { system_prompt: self.system_prompt_edit.clone(), prefill_template: self.prefill_template_edit.clone() }
    }

    /// "Save": the built-in scheme cannot be overwritten, so the "save as"
    /// popup opens; another scheme takes the edited prompts, and its name is
    /// returned so that it is written to disk.
    pub fn save_pressed(&mut self) -> (r: Option<String>)
        ensures
            old(self).current_scheme@ == default_scheme_name() ==> {
                &&& r is None
                &&& final(self).show_save_as_popup
                &&& final(self).new_scheme_name@.len() == 0
                &&& final(self).schemes.view() == old(self).schemes.view()
            },
            old(self).current_scheme@ != default_scheme_name() ==> match find_scheme(old(self).schemes.view(), old(self).current_scheme@) {
                Some(i) => {
                    &&& r matches Some(n) && n@ == old(self).current_scheme@
                    &&& final(self).schemes.view() == old(self).schemes.view().update(
                        i,
                        (old(self).current_scheme@, old(self).system_prompt_edit@, old(self).prefill_template_edit@),
                    )
                    &&& final(self).show_save_as_popup == old(self).show_save_as_popup
                },
                None => r is None && final(self).schemes.view() == old(self).schemes.view()
                    && final(self).show_save_as_popup == old(self).show_save_as_popup,
            },
            final(self).current_scheme@ == old(self).current_scheme@,
            final(self).system_prompt_edit@ == old(self).system_prompt_edit@,
            final(self).prefill_template_edit@ == old(self).prefill_template_edit@,
    {
        proof {
            reveal_strlit("默认");
        }
        if self.current_scheme == String::from_str("默认") {
            self.show_save_as_popup = true;
            self.new_scheme_name = String::new();
            return None;
        }
        let exists = match self.schemes.get(self.current_scheme.as_str()) {
            Some(_) => true,
            None => false,
        };
        if exists {
            proof {
                lemma_find_scheme(self.schemes.view(), self.current_scheme@);
            }
            self.schemes.insert(Scheme {
                name: self.current_scheme.clone(),
                system_prompt: self.system_prompt_edit.clone(),
                prefill_template: self.prefill_template_edit.clone(),
            });
            Some(self.current_scheme.clone())
        } else {
            None
        }
    }

    /// "Save as": the popup opens with an empty name.
    pub fn save_as_pressed(&mut self)
        ensures
            final(self).show_save_as_popup,
            final(self).new_scheme_name@.len() == 0,
            final(self).schemes.view() == old(self).schemes.view(),
            final(self).current_scheme@ == old(self).current_scheme@,
    {
        self.show_save_as_popup = true;
        self.new_scheme_name = String::new();
    }

    /// "Confirm" in the popup: a non-blank name (trimmed) gets a scheme with
    /// the edited prompts and becomes current; the popup closes. Returns the
    /// new scheme's name, to be written to disk and applied.
    pub fn confirm_save_as(&mut self) -> (r: Option<String>)
        ensures
            match r {
                Some(n) => {
                    &&& n@ == crate::chars::trim(old(self).new_scheme_name@)
                    &&& n@.len() > 0
                    &&& final(self).schemes.view() == put_scheme(
                        old(self).schemes.view(),
                        (n@, old(self).system_prompt_edit@, old(self).prefill_template_edit@),
                    )
                    &&& final(self).current_scheme@ == n@
                    &&& !final(self).show_save_as_popup
                },
                None => {
                    &&& crate::chars::trim(old(self).new_scheme_name@).len() == 0
                    &&& final(self).schemes.view() == old(self).schemes.view()
                    &&& final(self).current_scheme@ == old(self).current_scheme@
                    &&& final(self).show_save_as_popup == old(self).show_save_as_popup
                },
            },
            final(self).system_prompt_edit@ == old(self).system_prompt_edit@,
            final(self).prefill_template_edit@ == old(self).prefill_template_edit@,
    {
        match save_as_name(self.new_scheme_name.as_str()) {
            Some(name) => {
                self.schemes.insert(Scheme {
                    name: name.clone(),
                    system_prompt: self.system_prompt_edit.clone(),
                    prefill_template: self.prefill_template_edit.clone(),
                });
                self.current_scheme = name.clone();
                self.show_save_as_popup = false;
                Some(name)
            },
            None => None,
        }
    }

    /// "Cancel" in the popup.
    pub fn cancel_save_as(&mut self)
        ensures
            !final(self).show_save_as_popup,
            final(self).schemes.view() == old(self).schemes.view(),
            final(self).current_scheme@ == old(self).current_scheme@,
    {
        self.show_save_as_popup = false;
    }

    /// A scheme chosen in the list: its prompts are loaded for editing and
    /// it becomes current; `true` when it exists (the model is then rebuilt).
    pub fn choose_scheme(&mut self, name: &str) -> (r: bool)
        ensures
            r == (find_scheme(old(self).schemes.view(), name@) is Some),
            match find_scheme(old(self).schemes.view(), name@) {
                Some(i) => {
                    &&& final(self).current_scheme@ == name@
                    &&& final(self).system_prompt_edit@ == old(self).schemes.view()[i].1
                    &&& final(self).prefill_template_edit@ == old(self).schemes.view()[i].2
                },
                None => {
                    &&& final(self).current_scheme@ == old(self).current_scheme@
                    &&& final(self).system_prompt_edit@ == old(self).system_prompt_edit@
                    &&& final(self).prefill_template_edit@ == old(self).prefill_template_edit@
                },
            },
            final(self).schemes.view() == old(self).schemes.view(),
    {
        let found = match self.schemes.get(name) {
            Some(s) => Some((s.system_prompt.clone(), s.prefill_template.clone())),
            None => None,
        };
        match found {
            Some((sp, pt)) => {
                self.system_prompt_edit = sp;
                self.prefill_template_edit = pt;
                self.current_scheme = String::from_str(name);
                true
            },
            None => false,
        }
    }
}

/// The name that "save as" gives a new scheme: the entered text without
/// surrounding white space, if anything is left.
pub fn save_as_name(entered: &str) -> (r: Option<String>)
    ensures
        match r {
            Some(n) => n@ == crate::chars::trim(entered@) && n@.len() > 0,
            None => crate::chars::trim(entered@).len() == 0,
        },
{
    let t = crate::chars::trim_chars(crate::chars::chars_of(entered).as_slice());
    if t.len() == 0 {
        None
    } else {
        Some(crate::chars::string_from_chars(t.as_slice()))
    }
}

} // verus!
