//! The stored API key and workflow id.
//!
//! The API key is kept on disk XOR-ed with a key derived from the creation
//! time of the key file (`"evi"` followed by the seconds since the epoch) and
//! written as lowercase hex. The files themselves are read and written by the
//! caller; this module holds the encoding, the decoding and the in-memory
//! store of the two values.

use vstd::prelude::*;

use crate::chars::{chars_of, decimal, string_from_chars, trim, trim_chars, u64_decimal};
use vstd::utf8::{decode_utf8, encode_utf8, is_ascii_chars, is_continuation_byte, valid_utf8};

verus! {

// ───────────────────────────── XOR ─────────────────────────────

/// Each byte of `data` XOR-ed with the key byte at the same position, the key repeated.
pub open spec fn xor_spec(data: Seq<u8>, key: Seq<u8>) -> Seq<u8> {
    Seq::new(data.len(), |i: int| data[i] ^ key[i % (key.len() as int)])
}

/// `data` XOR-ed with `key`, repeated; the same call encrypts and decrypts.
pub fn xor_decrypt(data: &[u8], key: &[u8]) -> (r: Vec<u8>)
    requires
        data@.len() > 0 ==> key@.len() > 0,
    ensures
        r@ == xor_spec(data@, key@),
{
    let mut r: Vec<u8> = Vec::new();
    let mut i: usize = 0;
    while i < data.len()
        invariant
            data@.len() > 0 ==> key@.len() > 0,
            i <= data@.len(),
            r@ == xor_spec(data@, key@).take(i as int),
        decreases data@.len() - i,
    {
        r.push(data[i] ^ key[i % key.len()]);
        proof {
            assert(r@ =~= xor_spec(data@, key@).take(i + 1));
        }
        i = i + 1;
    }
    proof {
        assert(r@ =~= xor_spec(data@, key@));
    }
    r
}

/// XOR-ing twice with the same key gives the data back.
pub proof fn lemma_xor_involution(data: Seq<u8>, key: Seq<u8>)
    requires
        key.len() > 0,
    ensures
        xor_spec(xor_spec(data, key), key) == data,
{
    assert forall|i: int| 0 <= i < data.len() implies #[trigger] xor_spec(
        xor_spec(data, key),
        key,
    )[i] == data[i] by {
        let x = data[i];
        let k = key[i % (key.len() as int)];
        assert((x ^ k) ^ k == x) by (bit_vector);
    }
    assert(xor_spec(xor_spec(data, key), key) =~= data);
}

// ───────────────────────────── hex ─────────────────────────────

/// The value of a hex digit byte.
pub open spec fn hex_val(b: u8) -> Option<u8> {
    if 48 <= b <= 57 {
        Some((b - 48) as u8)
    } else if 97 <= b <= 102 {
        Some((b - 87) as u8)
    } else if 65 <= b <= 70 {
        Some((b - 55) as u8)
    } else {
        None
    }
}

/// `u8::from_str_radix(pair, 16)` on a two-byte string: two hex digits, or a
/// `+` sign and one digit.
pub open spec fn hex_pair(b0: u8, b1: u8) -> Option<u8> {
    if b0 == 43 {
        hex_val(b1)
    } else {
        match (hex_val(b0), hex_val(b1)) {
            (Some(h), Some(l)) => Some((h * 16 + l) as u8),
            _ => None,
        }
    }
}

/// `hex_decode` on the bytes of its input: `None` for an odd length or a pair
/// that is not a number.
pub open spec fn hex_decode_spec(b: Seq<u8>) -> Option<Seq<u8>> {
    if b.len() % 2 != 0 || exists|i: int| 0 <= i < b.len() / 2 && #[trigger] hex_pair(b[2 * i], b[2 * i + 1]) is None {
        None
    } else {
        Some(Seq::new(b.len() / 2, |i: int| hex_pair(b[2 * i], b[2 * i + 1]).unwrap()))
    }
}

/// The inputs on which `hex_decode` slices its text between characters: when
/// the length is even, every even byte offset starts a character.
pub open spec fn hex_decode_safe(b: Seq<u8>) -> bool {
    b.len() % 2 == 0 ==> forall|i: int| 0 <= i < b.len() && i % 2 == 0 ==> !is_continuation_byte(#[trigger] b[i])
}

fn hex_val_exec(b: u8) -> (r: Option<u8>)
    ensures
        r == hex_val(b),
{
    if 48 <= b && b <= 57 {
        Some(b - 48)
    } else if 97 <= b && b <= 102 {
        Some(b - 87)
    } else if 65 <= b && b <= 70 {
        Some(b - 55)
    } else {
        None
    }
}

pub(crate) fn hex_pair_exec(b0: u8, b1: u8) -> (r: Option<u8>)
    ensures
        r == hex_pair(b0, b1),
{
    if b0 == 43 {
        return hex_val_exec(b1);
    }
    match (hex_val_exec(b0), hex_val_exec(b1)) {
        (Some(h), Some(l)) => Some(h * 16 + l),
        _ => None,
    }
}

/// Decodes hex text, two characters per byte.
pub fn hex_decode(s: &str) -> (r: Option<Vec<u8>>)
    requires
        hex_decode_safe(encode_utf8(s@)),
    ensures
        match r {
            Some(v) => hex_decode_spec(encode_utf8(s@)) == Some(v@),
            None => hex_decode_spec(encode_utf8(s@)) is None,
        },
{
    let b = s.as_bytes();
    if b.len() % 2 != 0 {
        return None;
    }
    let mut result: Vec<u8> = Vec::new();
    let mut i: usize = 0;
    while i < b.len() / 2
        invariant
            b@ == encode_utf8(s@),
            b@.len() % 2 == 0,
            i <= b@.len() / 2,
            result@.len() == i,
            forall|j: int| 0 <= j < i ==> #[trigger] hex_pair(b@[2 * j], b@[2 * j + 1]) == Some(result@[j]),
        decreases b@.len() / 2 - i,
    {
        match hex_pair_exec(b[2 * i], b[2 * i + 1]) {
            Some(x) => result.push(x),
            None => return None,
        }
        i = i + 1;
    }
    proof {
        assert(result@ =~= Seq::new(b@.len() / 2, |j: int| hex_pair(b@[2 * j], b@[2 * j + 1]).unwrap()));
    }
    Some(result)
}

/// The lowercase hex digit for `n < 16`.
pub open spec fn hex_digit(n: u8) -> char {
    if n < 10 {
        (n + 48) as char
    } else {
        (n + 87) as char
    }
}

/// `format!("{:02x}", b)` for each byte, concatenated.
pub open spec fn hex_encode_spec(d: Seq<u8>) -> Seq<char> {
    Seq::new(2 * d.len(), |i: int| if i % 2 == 0 { hex_digit(d[i / 2] >> 4) } else { hex_digit(d[i / 2] & 15) })
}

fn hex_digit_exec(n: u8) -> (c: char)
    requires
        n < 16,
    ensures
        c == hex_digit(n),
{
    if n < 10 {
        (n + 48) as char
    } else {
        (n + 87) as char
    }
}

/// Lowercase hex text of `d`, two characters per byte.
pub fn hex_encode(d: &[u8]) -> (r: String)
    ensures
        r@ == hex_encode_spec(d@),
{
    let mut v: Vec<char> = Vec::new();
    let mut i: usize = 0;
    while i < d.len()
        invariant
            i <= d@.len(),
            v@ == hex_encode_spec(d@).take(2 * i),
        decreases d@.len() - i,
    {
        let x = d[i];
        assert(x >> 4 < 16 && x & 15 < 16) by (bit_vector);
        v.push(hex_digit_exec(x >> 4));
        v.push(hex_digit_exec(x & 15));
        proof {
            assert(v@ =~= hex_encode_spec(d@).take(2 * (i + 1)));
        }
        i = i + 1;
    }
    proof {
        assert(v@ =~= hex_encode_spec(d@));
    }
    string_from_chars(v.as_slice())
}

proof fn lemma_hex_digit_roundtrip(x: u8)
    ensures
        hex_val(hex_digit(x >> 4) as u8) == Some(x >> 4),
        hex_val(hex_digit(x & 15) as u8) == Some(x & 15),
        (x >> 4) * 16 + (x & 15) == x,
        hex_digit(x >> 4) != '+',
        hex_digit(x >> 4) as u32 <= 127,
        hex_digit(x & 15) as u32 <= 127,
{
    assert(x >> 4 < 16 && x & 15 < 16) by (bit_vector);
    assert((x >> 4) * 16 + (x & 15) == x) by (bit_vector);
}

/// Hex text is ASCII.
pub proof fn lemma_hex_ascii(d: Seq<u8>)
    ensures
        is_ascii_chars(hex_encode_spec(d)),
{
    assert forall|i: int| 0 <= i < hex_encode_spec(d).len() implies '\0' <= #[trigger] hex_encode_spec(d)[i] <= '\u{7f}' by {
        lemma_hex_digit_roundtrip(d[i / 2]);
    }
}

/// Decoding the hex text of `d` gives `d` back, and that text can be decoded
/// without slicing inside a character.
pub proof fn lemma_hex_roundtrip(d: Seq<u8>)
    ensures
        hex_decode_safe(encode_utf8(hex_encode_spec(d))),
        hex_decode_spec(encode_utf8(hex_encode_spec(d))) == Some(d),
{
    let h = hex_encode_spec(d);
    lemma_hex_ascii(d);
    vstd::utf8::is_ascii_chars_encode_utf8(h);
    let b = encode_utf8(h);
    assert(b.len() == 2 * d.len());
    assert forall|i: int| 0 <= i < d.len() implies #[trigger] hex_pair(b[2 * i], b[2 * i + 1]) == Some(d[i]) by {
        lemma_hex_digit_roundtrip(d[i]);
        assert(h[2 * i] == hex_digit(d[i] >> 4));
        assert(h[2 * i + 1] == hex_digit(d[i] & 15));
        assert(b[2 * i] == h[2 * i] as u8);
        assert(b[2 * i + 1] == h[2 * i + 1] as u8);
    }
    assert forall|i: int| 0 <= i < b.len() && i % 2 == 0 implies !is_continuation_byte(#[trigger] b[i]) by {
        assert(b[i] == h[i] as u8);
        let c = h[i];
        assert('\0' <= c <= '\u{7f}');
        let x = b[i];
        assert(x < 128);
        assert(x < 128 ==> !is_continuation_byte(x)) by (bit_vector);
    }
    assert(Seq::new(b.len() / 2, |i: int| hex_pair(b[2 * i], b[2 * i + 1]).unwrap()) =~= d);
}

// ───────────────────────────── the stored key ─────────────────────────────

/// The bytes of an ASCII text.
pub open spec fn ascii_bytes(s: Seq<char>) -> Seq<u8> {
    s.map_values(|c: char| c as u8)
}

/// The XOR key derived from the key file's creation time: the bytes of
/// `format!("evi{}", secs)`.
pub open spec fn derived_key(secs: u64) -> Seq<u8> {
    ascii_bytes(seq!['e', 'v', 'i'] + decimal(secs as nat))
}

/// `derive_key_from_creation_time`, given the creation time in seconds.
pub fn derive_key(secs: u64) -> (k: Vec<u8>)
    ensures
        k@ == derived_key(secs),
        k@.len() > 0,
{
    let mut k: Vec<u8> = Vec::new();
    k.push(101u8);
    k.push(118u8);
    k.push(105u8);
    let d = u64_decimal(secs);
    let mut i: usize = 0;
    while i < d.len()
        invariant
            i <= d@.len(),
            d@ == decimal(secs as nat),
            k@ == ascii_bytes(seq!['e', 'v', 'i'] + d@.take(i as int)),
        decreases d@.len() - i,
    {
        let c = d[i];
        k.push(c as u8);
        proof {
            assert(k@ =~= ascii_bytes(seq!['e', 'v', 'i'] + d@.take(i + 1)));
        }
        i = i + 1;
    }
    proof {
        assert(d@.take(d@.len() as int) =~= d@);
    }
    k
}

/// The file content that stores `key`: its UTF-8 bytes XOR-ed with the
/// derived key, in lowercase hex.
pub open spec fn encrypt_spec(key: Seq<char>, secs: u64) -> Seq<char> {
    hex_encode_spec(xor_spec(encode_utf8(key), derived_key(secs)))
}

/// The key that a key file's content holds, if any: the trimmed content is
/// hex-decoded, XOR-ed with the derived key and read as UTF-8; an empty key
/// counts as none.
pub open spec fn decrypt_spec(content: Seq<char>, secs: u64) -> Option<Seq<char>> {
    match hex_decode_spec(encode_utf8(trim(content))) {
        None => None,
        Some(enc) => {
            let dec = xor_spec(enc, derived_key(secs));
            if valid_utf8(dec) && decode_utf8(dec).len() > 0 {
                Some(decode_utf8(dec))
            } else {
                None
            }
        },
    }
}

/// The key file contents that `load_key` reads without slicing inside a character.
pub open spec fn key_file_readable(content: Seq<char>) -> bool {
    hex_decode_safe(encode_utf8(trim(content)))
}

/// `String::from_utf8`: the text whose UTF-8 encoding the bytes are, if they are valid UTF-8.
#[verifier::external_body]
pub(crate) fn string_from_utf8(bytes: Vec<u8>) -> (r: Option<String>)
    ensures
        r is Some <==> valid_utf8(bytes@),
        r matches Some(s) ==> s@ == decode_utf8(bytes@),
{
    String::from_utf8(bytes).ok()
}

/// The content to write to the key file for `key` (`save_key`).
pub fn encrypt_api_key(key: &str, secs: u64) -> (r: String)
    ensures
        r@ == encrypt_spec(key@, secs),
{
    let k = derive_key(secs);
    let enc = xor_decrypt(key.as_bytes(), k.as_slice());
    hex_encode(enc.as_slice())
}

/// The key held by a key file's content (`load_key`).
pub fn decrypt_api_key(content: &str, secs: u64) -> (r: Option<String>)
    requires
        key_file_readable(content@),
    ensures
        match r {
            Some(s) => decrypt_spec(content@, secs) == Some(s@),
            None => decrypt_spec(content@, secs) is None,
        },
{
    let t = trim_chars(chars_of(content).as_slice());
    let ts = string_from_chars(t.as_slice());
    let enc = match hex_decode(ts.as_str()) {
        Some(e) => e,
        None => return None,
    };
    let k = derive_key(secs);
    let dec = xor_decrypt(enc.as_slice(), k.as_slice());
    match string_from_utf8(dec) {
        Some(s) => {
            if s.as_str().is_empty() {
                None
            } else {
                Some(s)
            }
        },
        None => None,
    }
}

/// What `load_key` reads back of what `save_key` wrote: the same key, as long
/// as the key file keeps its creation time.
pub proof fn lemma_key_roundtrip(key: Seq<char>, secs: u64)
    requires
        key.len() > 0,
    ensures
        key_file_readable(encrypt_spec(key, secs)),
        decrypt_spec(encrypt_spec(key, secs), secs) == Some(key),
{
    let enc = xor_spec(encode_utf8(key), derived_key(secs));
    let h = encrypt_spec(key, secs);
    lemma_hex_roundtrip(enc);
    lemma_hex_ascii(enc);
    assert forall|i: int| 0 <= i < h.len() implies !crate::chars::is_ws(#[trigger] h[i]) by {
        lemma_hex_digit_roundtrip(enc[i / 2]);
    }
    lemma_trim_no_ws(h);
    assert(derived_key(secs).len() > 0) by {
        crate::chars::lemma_decimal_len(secs as nat);
    }
    lemma_xor_involution(encode_utf8(key), derived_key(secs));
    vstd::utf8::encode_utf8_valid_utf8(key);
    vstd::utf8::encode_utf8_decode_utf8(key);
}

/// Trimming a text without whitespace changes nothing.
pub proof fn lemma_trim_no_ws(s: Seq<char>)
    requires
        forall|i: int| 0 <= i < s.len() ==> !crate::chars::is_ws(#[trigger] s[i]),
    ensures
        trim(s) == s,
{
    if s.len() > 0 {
        crate::chars::lemma_leading_ws_char(s, 0);
        crate::chars::lemma_trailing_ws_char(s, 0);
    } else {
        crate::chars::lemma_leading_ws_char(s, 0);
        crate::chars::lemma_trailing_ws_char(s, 0);
    }
    assert(s.subrange(0, s.len() as int) =~= s);
}

/// The API key after reading a key file with `content`, created at
/// `created` (when the file system tells): the key the file holds, or else the
/// key known before.
pub open spec fn loaded_key(before: Option<Seq<char>>, content: Seq<char>, created: Option<u64>) -> Option<Seq<char>> {
    match created {
        Some(secs) => match decrypt_spec(content, secs) {
            Some(k) => Some(k),
            None => before,
        },
        None => before,
    }
}

/// Saving a key and loading it back: the text that `save_key` returns for a
/// non-empty key and creation time `secs`, read by `load_key` from a file
/// with that creation time, is readable and sets the API key to the saved
/// key, whatever key was known before.
pub proof fn lemma_save_load_key(before: Option<Seq<char>>, key: Seq<char>, secs: u64)
    requires
        key.len() > 0,
    ensures
        key_file_readable(encrypt_spec(key, secs)),
        loaded_key(before, encrypt_spec(key, secs), Some(secs)) == Some(key),
{
    lemma_key_roundtrip(key, secs);
}

// ───────────────────────────── the store ─────────────────────────────

/// The API key and workflow id known to the process.
pub struct SecretStore {
    api_key: Option<String>,
    workflow_id: Option<String>,
}

/// What `load_key` found of the key file.
pub enum KeyFile {
    /// There is no key file.
    Missing,
    /// The key file exists but could not be read.
    Unreadable,
    /// The key file's content, and its creation time when the file system gives one.
    Read { content: String, created_secs: Option<u64> },
}

pub open spec fn opt_view(o: Option<String>) -> Option<Seq<char>> {
    match o {
        Some(s) => Some(s@),
        None => None,
    }
}

fn clone_opt(o: &Option<String>) -> (r: Option<String>)
    ensures
        opt_view(r) == opt_view(*o),
{
    match o {
        Some(s) => Some(s.clone()),
        None => None,
    }
}

impl SecretStore {
    /// A store that knows neither value.
    pub fn new() -> (r: Self)
        ensures
            r.api_key() is None,
            r.workflow_id() is None,
    {
        SecretStore { api_key: None, workflow_id: None }
    }

    pub closed spec fn api_key(&self) -> Option<Seq<char>> {
        opt_view(self.api_key)
    }

    pub closed spec fn workflow_id(&self) -> Option<Seq<char>> {
        opt_view(self.workflow_id)
    }

    /// `load_key`: takes the key from the key file and the workflow id from
    /// its file (`wf_content`, `None` when missing or unreadable). An
    /// unreadable key file stops the loading before the workflow id.
    pub fn load_key(&mut self, key_file: &KeyFile, wf_content: Option<&str>)
        requires
            key_file matches KeyFile::Read { content, .. } ==> key_file_readable(content@),
        ensures
            match key_file {
                KeyFile::Unreadable => *final(self) == *old(self),
                _ => {
                    &&& final(self).api_key() == match key_file {
                        KeyFile::Read { content, created_secs } => loaded_key(
                            old(self).api_key(),
                            content@,
                            *created_secs,
                        ),
                        _ => old(self).api_key(),
                    }
                    &&& final(self).workflow_id() == match wf_content {
                        Some(w) => if trim(w@).len() > 0 {
                            Some(trim(w@))
                        } else {
                            old(self).workflow_id()
                        },
                        None => old(self).workflow_id(),
                    }
                },
            },
    {
        match key_file {
            KeyFile::Unreadable => return,
            KeyFile::Missing => {},
            KeyFile::Read { content, created_secs } => {
                if let Some(secs) = created_secs {
                    if let Some(k) = decrypt_api_key(content.as_str(), *secs) {
                        self.api_key = Some(k);
                    }
                }
            },
        }
        if let Some(w) = wf_content {
            let t = trim_chars(chars_of(w).as_slice());
            if t.len() > 0 {
                self.workflow_id = Some(string_from_chars(t.as_slice()));
            }
        }
    }

    /// `save_key`: an empty key is ignored; without a creation time for the
    /// freshly written key file nothing is saved; otherwise the key is kept
    /// and the returned text is what the key file must hold.
    pub fn save_key(&mut self, key: &str, created_secs: Option<u64>) -> (r: Option<String>)
        ensures
            key@.len() == 0 || created_secs is None ==> r is None && final(self).api_key()
                == old(self).api_key(),
            key@.len() > 0 && created_secs is Some ==> (r matches Some(c) && c@ == encrypt_spec(
                key@,
                created_secs.unwrap(),
            ) && final(self).api_key() == Some(key@)),
            final(self).workflow_id() == old(self).workflow_id(),
    {
        if key.is_empty() {
            return None;
        }
        let secs = match created_secs {
            Some(s) => s,
            None => return None,
        };
        let content = encrypt_api_key(key, secs);
        self.api_key = Some(key.to_owned());
        Some(content)
    }

    /// `save_workflow_id`: an empty id is ignored; otherwise it is kept, and
    /// `true` says that the workflow file must be written with it.
    pub fn save_workflow_id(&mut self, wid: &str) -> (r: bool)
        ensures
            r == (wid@.len() > 0),
            r ==> final(self).workflow_id() == Some(wid@),
            !r ==> final(self).workflow_id() == old(self).workflow_id(),
            final(self).api_key() == old(self).api_key(),
    {
        if wid.is_empty() {
            return false;
        }
        self.workflow_id = Some(wid.to_owned());
        true
    }
}

/// The API key, if one is known.
pub fn get_api_key(store: &SecretStore) -> (r: Option<String>)
    ensures
        opt_view(r) == store.api_key(),
{
    clone_opt(&store.api_key)
}

/// The workflow id, if one is known.
pub fn get_workflow_id(store: &SecretStore) -> (r: Option<String>)
    ensures
        opt_view(r) == store.workflow_id(),
{
    clone_opt(&store.workflow_id)
}

} // verus!
