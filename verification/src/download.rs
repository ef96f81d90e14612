//! The decisions of the model downloader: which models are missing, where
//! their files come from, and how an interrupted download is resumed.
//!
//! The HTTP requests, the file system and the progress window are driven
//! from outside; they hand in what they found (file sizes, headers, bytes
//! read so far).

use vstd::prelude::*;

use crate::chars::{last_index_of, rfind_char};
use crate::engine::correction::strings_view;

verus! {

/// A file of a model repository, as the repository's file list gives it.
pub struct FileEntry {
    pub name: String,
    pub path: String,
    pub size: u64,
    pub file_type: String,
}

/// The address of a model's file list.
pub open spec fn file_list_url_spec(model_id: Seq<char>) -> Seq<char> {
    "https://modelscope.cn/api/v1/models/"@ + model_id + "/repo/files?Recursive=true"@
}

pub fn file_list_url(model_id: &str) -> (r: String)
    ensures
        r@ == file_list_url_spec(model_id@),
{
    let mut r = String::from_str("https://modelscope.cn/api/v1/models/");
    r.append(model_id);
    r.append("/repo/files?Recursive=true");
    r
}

/// The address of one file of a model.
pub open spec fn download_url_spec(model_id: Seq<char>, path: Seq<char>) -> Seq<char> {
    "https://modelscope.cn/models/"@ + model_id + "/resolve/master/"@ + path
}

pub fn download_url(model_id: &str, path: &str) -> (r: String)
    ensures
        r@ == download_url_spec(model_id@, path@),
{
    let mut r = String::from_str("https://modelscope.cn/models/");
    r.append(model_id);
    r.append("/resolve/master/");
    r.append(path);
    r
}

/// The files of a file list that are to be downloaded: those of type `blob`.
pub open spec fn blob_positions(types: Seq<Seq<char>>) -> Seq<int>
    decreases types.len(),
{
    if types.len() == 0 {
        Seq::empty()
    } else {
        blob_positions(types.drop_last()) + if types.last() == "blob"@ {
            seq![types.len() - 1]
        } else {
            Seq::<int>::empty()
        }
    }
}

pub open spec fn file_types(files: Seq<FileEntry>) -> Seq<Seq<char>> {
    files.map_values(|f: FileEntry| f.file_type@)
}

/// The entries of type `blob`, in order.
pub fn keep_blobs(files: Vec<FileEntry>) -> (r: Vec<FileEntry>)
    ensures
        r@.len() == blob_positions(file_types(files@)).len(),
        forall|k: int| 0 <= k < r@.len() ==> #[trigger] r@[k] == files@[blob_positions(file_types(files@))[k]],
{
    let ghost all = files@;
    let ghost types = file_types(all);
    let n = files.len();
    let mut rest = files;
    let mut r: Vec<FileEntry> = Vec::new();
    let blob = String::from_str("blob");
    let mut k: usize = 0;
    proof {
        assert(all.subrange(0, n as int) =~= all);
    }
    while k < n
        invariant
            n == all.len(),
            k <= n,
            rest@ == all.subrange(k as int, n as int),
            types == file_types(all),
            blob@ == "blob"@,
            r@.len() == blob_positions(types.take(k as int)).len(),
            forall|j: int| 0 <= j < r@.len() ==> #[trigger] r@[j] == all[blob_positions(types.take(k as int))[j]],
        decreases n - k,
    {
        let f = rest.remove(0);
        proof {
            assert(f == all[k as int]);
            assert(rest@ =~= all.subrange(k + 1, n as int));
            assert(types.take(k + 1).drop_last() =~= types.take(k as int));
            assert(types.take(k + 1).last() == f.file_type@);
        }
        if f.file_type == blob {
            r.push(f);
        }
        k = k + 1;
    }
    proof {
        assert(types.take(n as int) =~= types);
    }
    r
}

/// The models of `ids` that are not yet ready, in order (`ready[i]` tells
/// whether `ids[i]` is).
pub open spec fn missing_positions(ready: Seq<bool>) -> Seq<int>
    decreases ready.len(),
{
    if ready.len() == 0 {
        Seq::empty()
    } else {
        missing_positions(ready.drop_last()) + if ready.last() {
            Seq::<int>::empty()
        } else {
            seq![ready.len() - 1]
        }
    }
}

/// `missing_models`: the required models that are not ready.
pub fn missing_models(ids: &Vec<String>, ready: &Vec<bool>) -> (r: Vec<String>)
    requires
        ready@.len() == ids@.len(),
    ensures
        r@.len() == missing_positions(ready@).len(),
        forall|k: int| 0 <= k < r@.len() ==> #[trigger] r@[k]@ == ids@[missing_positions(ready@)[k]]@,
{
    let mut r: Vec<String> = Vec::new();
    let mut i: usize = 0;
    while i < ids.len()
        invariant
            i <= ids@.len(),
            ready@.len() == ids@.len(),
            r@.len() == missing_positions(ready@.take(i as int)).len(),
            forall|k: int| 0 <= k < r@.len() ==> #[trigger] r@[k]@ == ids@[missing_positions(ready@.take(i as int))[k]]@,
        decreases ids@.len() - i,
    {
        proof {
            assert(ready@.take(i + 1).drop_last() =~= ready@.take(i as int));
            assert(ready@.take(i + 1).last() == ready@[i as int]);
        }
        if !ready[i] {
            r.push(ids[i].clone());
        }
        i = i + 1;
    }
    proof {
        assert(ready@.take(i as int) =~= ready@);
    }
    r
}

/// What is done with a file that is already at its final place: kept when
/// it has the expected size (`Some(len)` is its size, `None` when there is no
/// file or its size cannot be read).
pub fn keep_existing(existing_len: Option<u64>, size: u64) -> (r: bool)
    ensures
        r == (existing_len == Some(size)),
{
    match existing_len {
        Some(l) => l == size,
        None => false,
    }
}

/// How a download starts, given the partial file left by an earlier one.
pub enum ResumeFrom {
    /// There is no partial file: download from the start.
    Start,
    /// The partial file is unusable (larger than the file, or its size
    /// cannot be read): remove it and download from the start.
    RemoveAndStart,
    /// Continue after the bytes already there.
    Offset(u64),
}

/// `exists` tells whether the partial file exists, `len` its size when it
/// could be read.
pub fn resume_from(exists: bool, len: Option<u64>, size: u64) -> (r: ResumeFrom)
    ensures
        !exists ==> r is Start,
        exists ==> match len {
            Some(l) => if l <= size { r == ResumeFrom::Offset(l) } else { r is RemoveAndStart },
            None => r is RemoveAndStart,
        },
{
    if !exists {
        return ResumeFrom::Start;
    }
    match len {
        Some(l) => {
            if l <= size {
                ResumeFrom::Offset(l)
            } else {
                ResumeFrom::RemoveAndStart
            }
        },
        None => ResumeFrom::RemoveAndStart,
    }
}

/// The `Range` header that asks for the rest of a file.
pub fn range_header(existing: u64) -> (r: String)
    ensures
        r@ == "bytes="@ + crate::chars::decimal(existing as nat) + "-"@,
{
    let mut r = String::from_str("bytes=");
    let d = crate::chars::u64_decimal(existing);
    r.append(crate::chars::string_from_chars(d.as_slice()).as_str());
    r.append("-");
    r
}

// ───────────────────────────── numbers in headers ─────────────────────────────

pub open spec fn is_digit(c: char) -> bool {
    '0' <= c && c <= '9'
}

/// The value of a string of decimal digits.
pub open spec fn digits_value(s: Seq<char>) -> nat
    decreases s.len(),
{
    if s.len() == 0 {
        0
    } else {
        digits_value(s.drop_last()) * 10 + (s.last() as nat - '0' as nat) as nat
    }
}

pub open spec fn all_digits(d: Seq<char>) -> bool {
    forall|i: int| 0 <= i < d.len() ==> #[trigger] is_digit(d[i])
}

/// `str::parse::<u64>`: an optional `+`, then at least one decimal digit,
/// with a value that fits in a `u64`.
pub open spec fn parse_u64_spec(s: Seq<char>) -> Option<u64> {
    let d = if s.len() > 0 && s[0] == '+' { s.drop_first() } else { s };
    if d.len() > 0 && all_digits(d) && digits_value(d) <= u64::MAX {
        Some(digits_value(d) as u64)
    } else {
        None
    }
}

proof fn lemma_digits_value_prefix(s: Seq<char>, k: int)
    requires
        0 <= k <= s.len(),
        forall|i: int| 0 <= i < s.len() ==> #[trigger] is_digit(s[i]),
    ensures
        digits_value(s.take(k)) <= digits_value(s),
    decreases s.len() - k,
{
    if k < s.len() {
        assert(s.take(k + 1).drop_last() =~= s.take(k));
        lemma_digits_value_prefix(s, k + 1);
    } else {
        assert(s.take(k) =~= s);
    }
}

pub fn parse_u64(s: &str) -> (r: Option<u64>)
    ensures
        r == parse_u64_spec(s@),
{
    let cs = crate::chars::chars_of(s);
    let start: usize = if cs.len() > 0 && cs[0] == '+' { 1 } else { 0 };
    let ghost d = if s@.len() > 0 && s@[0] == '+' { s@.drop_first() } else { s@ };
    proof {
        assert(cs@.subrange(start as int, cs@.len() as int) =~= d);
    }
    if start == cs.len() {
        return None;
    }
    let mut val: u64 = 0;
    let mut i: usize = start;
    while i < cs.len()
        invariant
            start <= i <= cs@.len(),
            cs@ == s@,
            d == cs@.subrange(start as int, cs@.len() as int),
            d == (if s@.len() > 0 && s@[0] == '+' { s@.drop_first() } else { s@ }),
            forall|j: int| 0 <= j < i - start ==> #[trigger] is_digit(d[j]),
            val as nat == digits_value(d.take(i - start)),
        decreases cs@.len() - i,
    {
        let c = cs[i];
        proof {
            assert(d[i - start] == c);
        }
        if !('0' <= c && c <= '9') {
            proof {
                assert(!is_digit(d[i - start]));
                assert(!all_digits(d));
            }
            return None;
        }
        let dig = (c as u32 - '0' as u32) as u64;
        proof {
            assert(d.take(i - start + 1).drop_last() =~= d.take(i - start));
            assert(d.take(i - start + 1).last() == c);
        }
        if val > (u64::MAX - dig) / 10 {
            proof {
                assert(digits_value(d.take(i - start + 1)) > u64::MAX) by (nonlinear_arith)
                    requires
                        digits_value(d.take(i - start + 1)) == val * 10 + dig,
                        val > (u64::MAX - dig) / 10,
                        dig <= 9,
                ;
                assert(digits_value(d.take(i - start + 1)) == val * 10 + dig);
                if all_digits(d) {
                    lemma_digits_value_prefix(d, i - start + 1);
                    assert(digits_value(d) > u64::MAX);
                }
            }
            return None;
        }
        proof {
            assert(val * 10 + dig <= u64::MAX) by (nonlinear_arith)
                requires
                    val <= (u64::MAX - dig) / 10,
                    dig <= 9,
            ;
        }
        val = val * 10 + dig;
        i = i + 1;
    }
    proof {
        assert(d.take(i - start) =~= d);
    }
    Some(val)
}

/// The total size that a `Content-Range` header gives (the part after its
/// last `/`), or `default` when that part is not a number.
pub open spec fn content_range_total_spec(header: Seq<char>, default: u64) -> u64 {
    let tail = match last_index_of(header, '/') {
        Some(k) => header.subrange(k as int + 1, header.len() as int),
        None => header,
    };
    match parse_u64_spec(tail) {
        Some(v) => v,
        None => default,
    }
}

pub fn content_range_total(header: &str, default: u64) -> (r: u64)
    ensures
        r == content_range_total_spec(header@, default),
{
    let cs = crate::chars::chars_of(header);
    proof {
        crate::chars::lemma_last_index_of_bound(cs@, '/');
    }
    let tail = match rfind_char(cs.as_slice(), '/') {
        Some(k) => crate::chars::string_from_chars(crate::chars::slice_chars(cs.as_slice(), k + 1, cs.len()).as_slice()),
        None => String::from_str(header),
    };
    match parse_u64(tail.as_str()) {
        Some(v) => v,
        None => default,
    }
}

/// Where the body of a download response starts and how long the file is:
/// a partial answer (206) continues after `existing` bytes and takes the
/// total from its `Content-Range`; any other answer starts over.
pub fn response_span(status: u16, content_range: &str, existing: u64, size: u64) -> (r: (u64, u64))
    ensures
        status == 206 ==> r == (existing, content_range_total_spec(content_range@, size)),
        status != 206 ==> r == (0u64, size),
{
    if status == 206 {
        (existing, content_range_total(content_range, size))
    } else {
        (0, size)
    }
}

/// The progress line to log after more bytes were read: the percentage,
/// when it has grown by ten points or more since the last one logged.
pub fn progress_step(read: u64, total: u64, last_pct: u64) -> (r: Option<u64>)
    requires
        read * 100 <= u64::MAX,
        last_pct + 10 <= u64::MAX,
    ensures
        total == 0 ==> r is None,
        total > 0 ==> match r {
            Some(p) => p == (read * 100) / (total as int) && p >= last_pct + 10,
            None => (read * 100) / (total as int) < last_pct + 10,
        },
{
    if total > 0 {
        let pct = read * 100 / total;
        if pct >= last_pct + 10 {
            return Some(pct);
        }
    }
    None
}

} // verus!
