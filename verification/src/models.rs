//! Where the speech and language models live.
//!
//! Paths are handled as text. Joining follows `std::path::Path::join`, whose
//! separator depends on the platform: the contracts say that the joined path
//! is the base, a separator where one is needed, and the relative part, in
//! that order.
//! The file-system checks (does a directory hold `model.onnx`?) and the
//! environment lookups are made by the caller, which hands their results in.

use vstd::prelude::*;

verus! {

/// A relative path with no root and no drive or share prefix, on any platform.
pub open spec fn plain_relative(p: Seq<char>) -> bool {
    &&& p.len() > 0
    &&& p[0] != '/'
    &&& p[0] != '\\'
    &&& forall|i: int| 0 <= i < p.len() ==> #[trigger] p[i] != ':'
}

/// A path that starts with one `/` (a root, and no drive or share prefix
/// on any platform).
pub open spec fn rooted_relative(p: Seq<char>) -> bool {
    &&& p.len() > 0
    &&& p[0] == '/'
    &&& p.len() > 1 ==> p[1] != '/' && p[1] != '\\'
    &&& forall|i: int| 0 <= i < p.len() ==> #[trigger] p[i] != ':'
}

/// `r` is a leading part of `base`, then `rel`.
pub open spec fn rooted_join(base: Seq<char>, rel: Seq<char>, r: Seq<char>) -> bool {
    exists|q: Seq<char>| q.is_prefix_of(base) && r == q + rel
}

/// What may stand between the two parts of a joined path.
pub open spec fn is_separator(sep: Seq<char>) -> bool {
    sep == Seq::<char>::empty() || sep == seq!['/'] || sep == seq!['\\']
}

/// `r` is `base` joined with `rel`: the base, at most one separator, the relative part.
pub open spec fn joined(base: Seq<char>, rel: Seq<char>, r: Seq<char>) -> bool {
    exists|sep: Seq<char>| is_separator(sep) && r == base + sep + rel
}

/// A drive and its colon alone, such as `C:`.
pub open spec fn bare_drive(base: Seq<char>) -> bool {
    base.len() == 2 && base[1] == ':'
}

/// A base that may start with a verbatim prefix (`\\?\`), under which
/// Windows normalizes what is joined to it.
pub open spec fn may_be_verbatim(base: Seq<char>) -> bool {
    &&& base.len() >= 4
    &&& (base[0] == '/' || base[0] == '\\')
    &&& (base[1] == '/' || base[1] == '\\')
    &&& base[2] == '?'
    &&& (base[3] == '/' || base[3] == '\\')
}

/// `r` is `base` joined with `rel`: no separator after an empty base or after
/// a base that ends in `/`; one separator, `/` or `\\`, after a base that is
/// not empty, ends in neither and is not a bare drive.
pub open spec fn joined_to(base: Seq<char>, rel: Seq<char>, r: Seq<char>) -> bool {
    &&& joined(base, rel, r)
    &&& base.len() == 0 ==> r == rel
    &&& base.len() > 0 && base.last() == '/' ==> r == base + rel
    &&& base.len() > 0 && base.last() != '/' && base.last() != '\\' && !bare_drive(base)
        ==> (r == base + seq!['/'] + rel || r == base + seq!['\\'] + rel)
}

/// `Path::new(base).join(rel)`, as text: `Path::join`, whose work is
/// `PathBuf::push`. For a relative `rel` (no root, no prefix) and a base
/// without a verbatim prefix the result is `base`, then the platform's
/// separator unless `base` is empty or already ends in one (or is a bare
/// drive), then `rel`. Which separator is left unsaid (it is the platform's);
/// nothing is claimed of a verbatim base, under which Windows removes `.`
/// and `..` from `rel`. A `rel` that starts with one `/` (a root and no
/// prefix) replaces the base (it is absolute on Unix) or all of it but its
/// prefix (on Windows): the result is a leading part of the base, then `rel`.
/// Nothing is claimed of other `rel`.
#[verifier::external_body]
fn path_join(base: &str, rel: &str) -> (r: String)
    ensures
        plain_relative(rel@) && !may_be_verbatim(base@) ==> joined_to(base@, rel@, r@),
        rooted_relative(rel@) && !may_be_verbatim(base@) ==> rooted_join(base@, rel@, r@),
{
    std::path::Path::new(base).join(rel).to_string_lossy().into_owned()
}

/// The directory of the voice-activity model under `base_dir`.
pub fn vad_model_dir(base_dir: &str) -> (r: String)
    ensures
        !may_be_verbatim(base_dir@) ==> joined_to(base_dir@, "iic/speech_fsmn_vad_zh-cn-16k-common-onnx"@, r@),
{
    proof {
        reveal_strlit("iic/speech_fsmn_vad_zh-cn-16k-common-onnx");
    }
    path_join(base_dir, "iic/speech_fsmn_vad_zh-cn-16k-common-onnx")
}

/// The directory of the speech-recognition model under `base_dir`.
pub fn asr_model_dir(base_dir: &str) -> (r: String)
    ensures
        !may_be_verbatim(base_dir@) ==> joined_to(base_dir@, "iic/speech_paraformer-large_asr_nat-zh-cn-16k-common-vocab8404-onnx"@, r@),
{
    proof {
        reveal_strlit("iic/speech_paraformer-large_asr_nat-zh-cn-16k-common-vocab8404-onnx");
    }
    path_join(base_dir, "iic/speech_paraformer-large_asr_nat-zh-cn-16k-common-vocab8404-onnx")
}

/// The directory of the punctuation model under `base_dir`.
pub fn punc_model_dir(base_dir: &str) -> (r: String)
    ensures
        !may_be_verbatim(base_dir@) ==> joined_to(base_dir@, "iic/punc_ct-transformer_zh-cn-common-vocab272727-onnx"@, r@),
{
    proof {
        reveal_strlit("iic/punc_ct-transformer_zh-cn-common-vocab272727-onnx");
    }
    path_join(base_dir, "iic/punc_ct-transformer_zh-cn-common-vocab272727-onnx")
}

/// The directory of the local language model under `base_dir`.
pub fn llm_model_dir(base_dir: &str) -> (r: String)
    ensures
        !may_be_verbatim(base_dir@) ==> joined_to(base_dir@, "onnx-community/Qwen2___5-0___5B-Instruct"@, r@),
{
    proof {
        reveal_strlit("onnx-community/Qwen2___5-0___5B-Instruct");
    }
    path_join(base_dir, "onnx-community/Qwen2___5-0___5B-Instruct")
}

/// The subdirectories that must each hold a model for a base directory to be usable.
pub open spec fn required_subdirs() -> Seq<Seq<char>> {
    seq![
        "iic/speech_fsmn_vad_zh-cn-16k-common-onnx"@,
        "iic/speech_paraformer-large_asr_nat-zh-cn-16k-common-vocab8404-onnx"@,
        "iic/punc_ct-transformer_zh-cn-common-vocab272727-onnx"@,
    ]
}

/// The required model subdirectories, in the order they are checked.
pub fn required_model_subdirs() -> (r: Vec<String>)
    ensures
        crate::engine::correction::strings_view(r@) == required_subdirs(),
{
    let mut r: Vec<String> = Vec::new();
    r.push(String::from_str("iic/speech_fsmn_vad_zh-cn-16k-common-onnx"));
    r.push(String::from_str("iic/speech_paraformer-large_asr_nat-zh-cn-16k-common-vocab8404-onnx"));
    r.push(String::from_str("iic/punc_ct-transformer_zh-cn-common-vocab272727-onnx"));
    proof {
        assert(crate::engine::correction::strings_view(r@) =~= required_subdirs());
    }
    r
}

/// `~` at the start of a configured path stands for the home directory: the
/// rest of the path is joined to `home` as `Path::join` joins it. A rest that
/// starts with `/`, as in `~/models`, is itself rooted, so the join keeps
/// only a leading part of `home` (none on Unix).
pub fn expand_home(path: &str, home: &str) -> (r: String)
    ensures
        path@.len() == 0 || path@[0] != '~' ==> r@ == path@,
        path@.len() > 0 && path@[0] == '~' && plain_relative(path@.drop_first()) && !may_be_verbatim(home@)
            ==> joined_to(home@, path@.drop_first(), r@),
        path@.len() > 0 && path@[0] == '~' && rooted_relative(path@.drop_first()) && !may_be_verbatim(home@)
            ==> rooted_join(home@, path@.drop_first(), r@),
{
    let cs = crate::chars::chars_of(path);
    if cs.len() > 0 && cs[0] == '~' {
        let rest = crate::chars::string_from_chars(crate::chars::slice_chars(cs.as_slice(), 1, cs.len()).as_slice());
        proof {
            assert(rest@ =~= path@.drop_first());
        }
        path_join(home, rest.as_str())
    } else {
        String::from_str(path)
    }
}

/// The base directory of the models: the configured one (with `~`
/// expanded against `home`), or else `default_dir`.
pub fn base_dir(model_base_dir: Option<&str>, home: &str, default_dir: &str) -> (r: String)
    ensures
        match model_base_dir {
            None => r@ == default_dir@,
            Some(b) => {
                &&& (b@.len() == 0 || b@[0] != '~') ==> r@ == b@
                &&& (b@.len() > 0 && b@[0] == '~' && plain_relative(b@.drop_first()) && !may_be_verbatim(home@))
                    ==> joined_to(home@, b@.drop_first(), r@)
                &&& (b@.len() > 0 && b@[0] == '~' && rooted_relative(b@.drop_first()) && !may_be_verbatim(home@))
                    ==> rooted_join(home@, b@.drop_first(), r@)
            },
        },
{
    match model_base_dir {
        Some(b) => expand_home(b, home),
        None => String::from_str(default_dir),
    }
}

/// The place of the refinement log database, next to the executable.
pub fn refine_db_path(exe_dir: &str) -> (r: String)
    ensures
        !may_be_verbatim(exe_dir@) ==> joined_to(exe_dir@, "refine_log.db"@, r@),
{
    proof {
        reveal_strlit("refine_log.db");
    }
    path_join(exe_dir, "refine_log.db")
}

/// One step of a join, as far as `path_join` states it: `mid` is `dir`
/// joined with `part` unless `dir` may carry a verbatim prefix.
pub open spec fn join_step(dir: Seq<char>, part: Seq<char>, mid: Seq<char>) -> bool {
    !may_be_verbatim(dir) ==> joined_to(dir, part, mid)
}

/// `dir/a/b/c...` for the plain relative parts of `parts`.
pub open spec fn joined_all(dir: Seq<char>, parts: Seq<Seq<char>>, r: Seq<char>) -> bool
    decreases parts.len(),
{
    if parts.len() == 0 {
        r == dir
    } else {
        exists|mid: Seq<char>| #[trigger] join_step(dir, parts[0], mid) && joined_all(mid, parts.drop_first(), r)
    }
}

fn join_parts(dir: &str, parts: &Vec<String>) -> (r: String)
    requires
        forall|i: int| 0 <= i < parts@.len() ==> plain_relative(#[trigger] crate::engine::correction::strings_view(parts@)[i]),
    ensures
        joined_all(dir@, crate::engine::correction::strings_view(parts@), r@),
{
    let ghost pv = crate::engine::correction::strings_view(parts@);
    let mut acc = String::from_str(dir);
    let mut i: usize = 0;
    let ghost mut mids: Seq<Seq<char>> = seq![dir@];
    while i < parts.len()
        invariant
            i <= parts@.len(),
            pv == crate::engine::correction::strings_view(parts@),
            forall|j: int| 0 <= j < parts@.len() ==> plain_relative(#[trigger] pv[j]),
            mids.len() == i + 1,
            mids[0] == dir@,
            mids[i as int] == acc@,
            forall|j: int| 0 <= j < i ==> join_step(#[trigger] mids[j], pv[j], mids[j + 1]),
        decreases parts@.len() - i,
    {
        let next = path_join(acc.as_str(), parts[i].as_str());
        proof {
            assert(pv[i as int] == parts@[i as int]@);
            mids = mids.push(next@);
        }
        acc = next;
        i = i + 1;
    }
    proof {
        lemma_joined_all_from(mids, pv, 0);
        assert(pv.subrange(0, pv.len() as int) =~= pv);
    }
    acc
}

proof fn lemma_joined_all_from(mids: Seq<Seq<char>>, pv: Seq<Seq<char>>, k: int)
    requires
        mids.len() == pv.len() + 1,
        0 <= k <= pv.len(),
        forall|j: int| 0 <= j < pv.len() ==> join_step(#[trigger] mids[j], pv[j], mids[j + 1]),
    ensures
        joined_all(mids[k], pv.subrange(k, pv.len() as int), mids[pv.len() as int]),
    decreases pv.len() - k,
{
    let rest = pv.subrange(k, pv.len() as int);
    if k < pv.len() {
        lemma_joined_all_from(mids, pv, k + 1);
        assert(rest.drop_first() =~= pv.subrange(k + 1, pv.len() as int));
        assert(rest[0] == pv[k]);
        assert(join_step(mids[k], rest[0], mids[k + 1]));
        assert(joined_all(mids[k + 1], rest.drop_first(), mids[pv.len() as int]));
        assert(join_step(mids[k], rest[0], mids[k + 1]) && joined_all(mids[k + 1], rest.drop_first(), mids[pv.len() as int]));
    } else {
        assert(rest.len() == 0);
    }
}

/// The places where a ModelScope cache may hold the models: under
/// `MODELSCOPE_CACHE` (when set), under the home directory's `.modelscope`
/// and `.cache/modelscope`, and under `LOCALAPPDATA` (on Windows, when set and
/// not empty).
pub open spec fn cache_candidates_ok(
    env_cache: Option<Seq<char>>,
    home: Seq<char>,
    local_app_data: Option<Seq<char>>,
    r: Seq<Seq<char>>,
) -> bool {
    let e: int = if env_cache is Some { 1 } else { 0 };
    let l: int = if local_app_data matches Some(v) && v.len() > 0 { 1 } else { 0 };
    &&& r.len() == e + 2 + l
    &&& (env_cache matches Some(v) ==> joined_all(v, seq!["models"@], r[0]))
    &&& joined_all(home, seq![".modelscope"@, "hub"@, "models"@], r[e])
    &&& joined_all(home, seq![".cache"@, "modelscope"@, "hub"@, "models"@], r[e + 1])
    &&& (l == 1 ==> joined_all(local_app_data->0, seq!["modelscope"@, "hub"@, "models"@], r[e + 2]))
}

fn parts_of(a: &str, b: &str, c: &str, d: &str, n: usize) -> (r: Vec<String>)
    requires
        1 <= n <= 4,
    ensures
        crate::engine::correction::strings_view(r@) == seq![a@, b@, c@, d@].take(n as int),
{
    let mut r: Vec<String> = Vec::new();
    r.push(String::from_str(a));
    if n > 1 {
        r.push(String::from_str(b));
    }
    if n > 2 {
        r.push(String::from_str(c));
    }
    if n > 3 {
        r.push(String::from_str(d));
    }
    proof {
        assert(crate::engine::correction::strings_view(r@) =~= seq![a@, b@, c@, d@].take(n as int));
    }
    r
}

/// `modelscope_cache_candidates`, with the environment's values handed in.
pub fn modelscope_cache_candidates(env_cache: Option<&str>, home: &str, local_app_data: Option<&str>) -> (r: Vec<String>)
    ensures
        cache_candidates_ok(
            match env_cache { Some(v) => Some(v@), None => None },
            home@,
            match local_app_data { Some(v) => Some(v@), None => None },
            crate::engine::correction::strings_view(r@),
        ),
{
    proof {
        reveal_strlit("models");
        reveal_strlit(".modelscope");
        reveal_strlit("hub");
        reveal_strlit(".cache");
        reveal_strlit("modelscope");
    }
    let mut r: Vec<String> = Vec::new();
    match env_cache {
        Some(v) => {
            let p = parts_of("models", "", "", "", 1);
            proof {
                assert(crate::engine::correction::strings_view(p@) =~= seq!["models"@]);
            }
            r.push(join_parts(v, &p));
        },
        None => {},
    }
    let p1 = parts_of(".modelscope", "hub", "models", "", 3);
    proof {
        assert(crate::engine::correction::strings_view(p1@) =~= seq![".modelscope"@, "hub"@, "models"@]);
    }
    r.push(join_parts(home, &p1));
    let p2 = parts_of(".cache", "modelscope", "hub", "models", 4);
    proof {
        assert(crate::engine::correction::strings_view(p2@) =~= seq![".cache"@, "modelscope"@, "hub"@, "models"@]);
    }
    r.push(join_parts(home, &p2));
    match local_app_data {
        Some(l) => {
            if !l.is_empty() {
                let p3 = parts_of("modelscope", "hub", "models", "", 3);
                proof {
                    assert(crate::engine::correction::strings_view(p3@) =~= seq!["modelscope"@, "hub"@, "models"@]);
                }
                r.push(join_parts(l, &p3));
            }
        },
        None => {},
    }
    proof {
        assert(seq!["models"@, ""@, ""@, ""@].take(1) =~= seq!["models"@]);
        assert(seq![".modelscope"@, "hub"@, "models"@, ""@].take(3) =~= seq![".modelscope"@, "hub"@, "models"@]);
        assert(seq![".cache"@, "modelscope"@, "hub"@, "models"@].take(4) =~= seq![".cache"@, "modelscope"@, "hub"@, "models"@]);
        assert(seq!["modelscope"@, "hub"@, "models"@, ""@].take(3) =~= seq!["modelscope"@, "hub"@, "models"@]);
    }
    r
}

/// The index of the first `true`.
pub open spec fn first_true(flags: Seq<bool>) -> Option<int>
    decreases flags.len(),
{
    if flags.len() == 0 {
        None
    } else if flags[0] {
        Some(0)
    } else {
        match first_true(flags.drop_first()) {
            Some(i) => Some(i + 1),
            None => None,
        }
    }
}

proof fn lemma_first_true_bound(flags: Seq<bool>)
    ensures
        first_true(flags) matches Some(i) ==> 0 <= i < flags.len() && flags[i],
    decreases flags.len(),
{
    if flags.len() > 0 && !flags[0] {
        lemma_first_true_bound(flags.drop_first());
    }
}

fn first_true_exec(flags: &Vec<bool>) -> (r: Option<usize>)
    ensures
        match r {
            Some(i) => first_true(flags@) == Some(i as int),
            None => first_true(flags@) is None,
        },
{
    let mut i: usize = 0;
    proof {
        assert(flags@.subrange(0, flags@.len() as int) =~= flags@);
    }
    while i < flags.len()
        invariant
            i <= flags@.len(),
            match first_true(flags@.subrange(i as int, flags@.len() as int)) {
                Some(k) => first_true(flags@) == Some(k + i),
                None => first_true(flags@) is None,
            },
        decreases flags@.len() - i,
    {
        proof {
            assert(flags@.subrange(i as int, flags@.len() as int).drop_first()
                =~= flags@.subrange(i + 1, flags@.len() as int));
        }
        if flags[i] {
            return Some(i);
        }
        i = i + 1;
    }
    None
}

/// `default_base_dir`: `MODELSCOPE_CACHE` if it holds every required model,
/// else the first cache candidate that does, else the executable's directory.
/// `candidate_has_models[i]` tells whether `candidates[i]` holds them all.
pub fn default_base_dir(
    env_cache: Option<&str>,
    env_cache_has_models: bool,
    candidates: &Vec<String>,
    candidate_has_models: &Vec<bool>,
    exe_dir: &str,
) -> (r: String)
    requires
        candidate_has_models@.len() == candidates@.len(),
    ensures
        match env_cache {
            Some(v) if env_cache_has_models => r@ == v@,
            _ => match first_true(candidate_has_models@) {
                Some(i) => r@ == candidates@[i]@,
                None => r@ == exe_dir@,
            },
        },
{
    match env_cache {
        Some(v) => {
            if env_cache_has_models {
                return String::from_str(v);
            }
        },
        None => {},
    }
    proof {
        lemma_first_true_bound(candidate_has_models@);
    }
    match first_true_exec(candidate_has_models) {
        Some(i) => candidates[i].clone(),
        None => String::from_str(exe_dir),
    }
}

/// `ensure_model_dir`: when the models are missing under the current base
/// directory, the first cache candidate that holds them all becomes the
/// configured base directory. Returns whether the configuration changed (and
/// must be saved).
pub fn ensure_model_dir(
    model_base_dir: &mut Option<String>,
    base_has_models: bool,
    candidates: &Vec<String>,
    candidate_has_models: &Vec<bool>,
) -> (changed: bool)
    requires
        candidate_has_models@.len() == candidates@.len(),
    ensures
        base_has_models ==> !changed && *final(model_base_dir) == *old(model_base_dir),
        !base_has_models ==> match first_true(candidate_has_models@) {
            Some(i) => changed && (*final(model_base_dir) matches Some(d) && d@ == candidates@[i]@),
            None => !changed && *final(model_base_dir) == *old(model_base_dir),
        },
{
    if base_has_models {
        return false;
    }
    proof {
        lemma_first_true_bound(candidate_has_models@);
    }
    match first_true_exec(candidate_has_models) {
        Some(i) => {
            *model_base_dir = Some(candidates[i].clone());
            true
        },
        None => false,
    }
}

} // verus!
