//! Keys and attributes of nodes, as they are encrypted with AES-128.

use aes::cipher::{BlockDecrypt, KeyInit};
use cipher::block_padding::NoPadding;
use cipher::{BlockDecryptMut, KeyIvInit};
use vstd::prelude::*;
use vstd::string::{StrSliceExecFns, StringExecFns};

use crate::base64url;
use crate::content;
use crate::json;
use crate::text;

verus! {

/// AES-128 decryption of one block of 16 bytes.
pub uninterp spec fn aes128_decrypt_block(key: Seq<u8>, block: Seq<u8>) -> Seq<u8>;

/// The text of bytes that should be UTF-8, with replacement characters for what is not.
pub uninterp spec fn utf8_lossy(bytes: Seq<u8>) -> Seq<char>;

/// What CBC mode makes of `data`: each block decrypted and combined with the block before it, the
/// first with `iv`.
pub open spec fn cbc_plain(key: Seq<u8>, iv: Seq<u8>, data: Seq<u8>) -> Seq<u8> {
    Seq::new(
        data.len(),
        |i: int|
            {
                let b = i / 16 * 16;
                let before = if i < 16 {
                    iv[i]
                } else {
                    data[i - 16]
                };
                aes128_decrypt_block(key, data.subrange(b, b + 16))[i % 16] ^ before
            },
    )
}

/// `data` is what CBC mode makes of `plain` when it encrypts: each block combined with the encrypted
/// block before it, the first with `iv`, and then encrypted.
pub open spec fn is_cbc_cipher(key: Seq<u8>, iv: Seq<u8>, plain: Seq<u8>, data: Seq<u8>) -> bool {
    &&& data.len() == plain.len()
    &&& data.len() % 16 == 0
    &&& forall|b: int|
        0 <= b < data.len() / 16 ==> #[trigger] data.subrange(16 * b, 16 * b + 16)
            == content::aes128_encrypt_block(
            key,
            Seq::new(
                16,
                |i: int|
                    plain[16 * b + i] ^ if b == 0 {
                        iv[i]
                    } else {
                        data[16 * b - 16 + i]
                    },
            ),
        )
}

/// Calls `decrypt_block` of `aes::Aes128`. Its result is named, not described.
#[verifier::external_body]
pub(crate) fn aes128_ecb_decrypt_block(block: &mut [u8; 16], key: &[u8; 16])
    ensures
        final(block)@ == aes128_decrypt_block(key@, old(block)@),
{
    let c = aes::Aes128::new(key.into());
    c.decrypt_block(block.into());
}

/// Calls `decrypt_padded_mut` of `cbc::Decryptor<aes::Aes128>` without padding. Believed of it:
/// it decrypts whole blocks in place by CBC over the AES-128 block decryption, and fails, with
/// the buffer as it was, exactly where the length is no multiple of 16; and what was encrypted by
/// CBC over the AES-128 block encryption, with the same key and start, it gives back.
#[verifier::external_body]
fn aes128_cbc_decrypt(buf: &mut Vec<u8>, key: &[u8; 16], iv: &[u8; 16]) -> (ok: bool)
    ensures
        ok == (old(buf)@.len() % 16 == 0),
        ok ==> final(buf)@ == cbc_plain(key@, iv@, old(buf)@),
        !ok ==> final(buf)@ == old(buf)@,
        forall|plain: Seq<u8>| #[trigger]
            is_cbc_cipher(key@, iv@, plain, old(buf)@) ==> final(buf)@ == plain,
{
    cbc::Decryptor::<aes::Aes128>::new(key.into(), iv.into())
        .decrypt_padded_mut::<NoPadding>(buf)
        .is_ok()
}

/// Calls `String::from_utf8_lossy`. Its result is named; believed of it besides is that bytes
/// that are UTF-8 give the text that they encode.
#[verifier::external_body]
fn text_from_utf8_lossy(bytes: &[u8]) -> (r: String)
    ensures
        r@ == utf8_lossy(bytes@),
        vstd::utf8::valid_utf8(bytes@) ==> r@ == vstd::utf8::decode_utf8(bytes@),
{
    String::from_utf8_lossy(bytes).into_owned()
}

/// The AES key of a file whose node key is `raw`: its two halves combined.
pub open spec fn folded_key(raw: Seq<u8>) -> Seq<u8> {
    Seq::new(16, |i: int| raw[i] ^ raw[i + 16])
}

/// The CTR start of a file whose node key is `raw`: the third quarter, then zeros.
pub open spec fn folded_iv(raw: Seq<u8>) -> Seq<u8> {
    Seq::new(
        16,
        |i: int|
            if i < 8 {
                raw[i + 16]
            } else {
                0
            },
    )
}

/// The AES key and the CTR start that a 32-byte node key holds.
pub fn fold_key(raw: &[u8; 32]) -> (r: ([u8; 16], [u8; 16]))
    ensures
        r.0@ == folded_key(raw@),
        r.1@ == folded_iv(raw@),
        forall|i: int| 0 <= i < 16 ==> #[trigger] r.0@[i] ^ raw@[i + 16] == raw@[i],
        forall|i: int| 0 <= i < 8 ==> #[trigger] r.1@[i] == raw@[i + 16],
        forall|i: int| 8 <= i < 16 ==> #[trigger] r.1@[i] == 0,
{
    let mut key: [u8; 16] = [0u8; 16];
    let mut i: usize = 0;
    while i < 16
        invariant
            i <= 16,
            forall|j: int| 0 <= j < i ==> key@[j] == raw@[j] ^ raw@[j + 16],
        decreases 16 - i,
    {
        key[i] = raw[i] ^ raw[i + 16];
        i = i + 1;
    }
    let mut iv: [u8; 16] = [0u8; 16];
    let mut i: usize = 0;
    while i < 8
        invariant
            i <= 8,
            forall|j: int| 0 <= j < i ==> iv@[j] == raw@[j + 16],
            forall|j: int| 8 <= j < 16 ==> iv@[j] == 0,
        decreases 8 - i,
    {
        iv[i] = raw[i + 16];
        i = i + 1;
    }
    assert(key@ =~= folded_key(raw@));
    assert(iv@ =~= folded_iv(raw@));
    proof {
        assert forall|i: int| 0 <= i < 16 implies #[trigger] key@[i] ^ raw@[i + 16]
            == raw@[i] by {
            law_folding_is_undone(raw@, i);
        }
    }
    (key, iv)
}

/// Folding loses nothing of the first half of a node key: the AES key combined with the second half
/// gives it back.
pub proof fn law_folding_is_undone(raw: Seq<u8>, i: int)
    requires
        raw.len() == 32,
        0 <= i < 16,
    ensures
        folded_key(raw).len() == 16,
        folded_key(raw)[i] ^ raw[i + 16] == raw[i],
{
    let x = raw[i];
    let y = raw[i + 16];
    assert((x ^ y) ^ y == x) by (bit_vector);
}

/// A node key that was made of an AES key, a counter start and more bytes, the AES key combined with
/// the rest, folds to that AES key and that counter start, with zeros behind it.
pub proof fn law_made_key_folds_back(
    raw: Seq<u8>,
    key: Seq<u8>,
    start: Seq<u8>,
    more: Seq<u8>,
)
    requires
        raw.len() == 32,
        key.len() == 16,
        start.len() == 8,
        more.len() == 8,
        raw.skip(16) == start + more,
        forall|i: int| 0 <= i < 16 ==> #[trigger] raw[i] == key[i] ^ (start + more)[i],
    ensures
        folded_key(raw) == key,
        folded_iv(raw) == start + seq![0u8, 0, 0, 0, 0, 0, 0, 0],
{
    assert forall|i: int| 0 <= i < 16 implies folded_key(raw)[i] == key[i] by {
        let k = key[i];
        let y = (start + more)[i];
        assert(raw.skip(16)[i] == raw[i + 16]);
        assert(raw[i] == k ^ y);
        assert((k ^ y) ^ y == k) by (bit_vector);
    }
    assert(folded_key(raw) =~= key);
    assert forall|i: int| 0 <= i < 8 implies folded_iv(raw)[i] == start[i] by {
        assert(raw.skip(16)[i] == raw[i + 16]);
    }
    assert(folded_iv(raw) =~= start + seq![0u8, 0, 0, 0, 0, 0, 0, 0]);
}

/// Why the attributes of a node could not be read.
#[derive(Clone, Copy, Debug, PartialEq, Eq, Structural)]
pub enum AttrsError {
    /// They are no unpadded URL-safe base64.
    Base64,
    /// They are no whole number of cipher blocks.
    Length,
    /// The decrypted text has no opening brace.
    NoOpenBrace,
    /// The decrypted text has no closing brace.
    NoCloseBrace,
    /// The last closing brace stands before the first opening one.
    Malformed,
}

/// The JSON object inside decrypted attributes: from the first opening to the last closing brace,
/// once the zeros that fill the last block are gone.
pub open spec fn json_part(decrypted: Seq<char>) -> Result<Seq<char>, AttrsError> {
    let s = text::strip_back(decrypted, '\0');
    let open = text::index_of(s, '{');
    let close = text::last_index_of(s, '}');
    if open == s.len() {
        Err(AttrsError::NoOpenBrace)
    } else if close < 0 {
        Err(AttrsError::NoCloseBrace)
    } else if open > close {
        Err(AttrsError::Malformed)
    } else {
        Ok(s.subrange(open, close + 1))
    }
}

/// The JSON object inside decrypted attributes.
pub fn attrs_json(decrypted: &str) -> (r: Result<String, AttrsError>)
    ensures
        match r {
            Ok(json) => json_part(decrypted@) == Ok::<Seq<char>, AttrsError>(json@),
            Err(e) => json_part(decrypted@) == Err::<Seq<char>, AttrsError>(e),
        },
{
    let s = text::stripped_back(decrypted, '\0');
    let cs = text::chars_of(s);
    let open: usize = text::find_char(cs.as_slice(), '{');
    proof {
        text::lemma_index_of(s@, '{');
        text::lemma_last_index_of(s@, '}');
    }
    if open == cs.len() {
        return Err(AttrsError::NoOpenBrace);
    }
    let mut end: usize = cs.len();
    while end > 0 && cs[end - 1] != '}'
        invariant
            cs@ == s@,
            end <= cs.len(),
            forall|j: int| end <= j < s@.len() ==> s@[j] != '}',
        decreases end,
    {
        end = end - 1;
    }
    if end == 0 {
        return Err(AttrsError::NoCloseBrace);
    }
    assert(text::last_index_of(s@, '}') == end - 1);
    if open >= end {
        return Err(AttrsError::Malformed);
    }
    Ok(s.substring_char(open, end).to_owned())
}

/// `n` zero bytes.
pub open spec fn zeros(n: nat) -> Seq<u8> {
    Seq::new(n, |i: int| 0u8)
}

/// The bytes that the attributes `at` decrypt to under the key `key`, or why they do not.
pub open spec fn attrs_bytes(at: Seq<char>, key: Seq<u8>) -> Result<Seq<u8>, AttrsError> {
    match base64url::base64url_decoded(text::trim(at)) {
        None => Err(AttrsError::Base64),
        Some(data) => if data.len() % 16 != 0 {
            Err(AttrsError::Length)
        } else {
            Ok(cbc_plain(key, zeros(16), data))
        },
    }
}

/// What the attributes `at` hold under the key `key`.
pub open spec fn attrs_text(at: Seq<char>, key: Seq<u8>) -> Result<Seq<char>, AttrsError> {
    match attrs_bytes(at, key) {
        Ok(bytes) => json_part(utf8_lossy(bytes)),
        Err(e) => Err(e),
    }
}

/// `json` has the braces of a JSON object around it.
pub open spec fn is_braced(json: Seq<char>) -> bool {
    json.len() > 0 && json[0] == '{' && json.last() == '}'
}

/// Attributes before they are encrypted: the word `MEGA`, the JSON object, and zeros to fill the
/// last block.
pub open spec fn plain_attrs(json: Seq<char>, fill: nat) -> Seq<u8> {
    vstd::utf8::encode_utf8("MEGA"@ + json) + zeros(fill)
}

/// `at` is, but for white space around it, the attributes `json` encrypted under the key `key`.
pub open spec fn seals(at: Seq<char>, key: Seq<u8>, json: Seq<char>, fill: nat) -> bool {
    &&& base64url::is_base64url(text::trim(at))
    &&& is_cbc_cipher(
        key,
        zeros(16),
        plain_attrs(json, fill),
        base64url::base64url_bytes(text::trim(at)),
    )
}

/// The JSON object is found between the word in front of it and the zeros behind it.
pub proof fn law_json_part(json: Seq<char>, fill: nat)
    requires
        is_braced(json),
    ensures
        json_part("MEGA"@ + json + Seq::new(fill, |i: int| '\0')) == Ok::<Seq<char>, AttrsError>(
            json,
        ),
    decreases fill,
{
    reveal_strlit("MEGA");
    let word = "MEGA"@ + json;
    let s = word + Seq::new(fill, |i: int| '\0');
    if fill == 0 {
        assert(s =~= word);
        assert(word.last() == '}');
        assert(word[4] == '{');
        text::lemma_index_of_is(word, '{', 4);
        assert(text::last_index_of(word, '}') == word.len() - 1);
        assert(word.subrange(4, word.len() as int) =~= json);
    } else {
        let less = word + Seq::new((fill - 1) as nat, |i: int| '\0');
        law_json_part(json, (fill - 1) as nat);
        assert(s.last() == '\0');
        assert(s.drop_last() =~= less);
        assert(text::strip_back(s, '\0') == text::strip_back(less, '\0'));
    }
}

/// The encoding of two texts is that of the first and that of the second.
proof fn lemma_encode_pair(a: Seq<char>, b: Seq<char>)
    ensures
        vstd::utf8::encode_utf8(a + b) == vstd::utf8::encode_utf8(a) + vstd::utf8::encode_utf8(b),
    decreases a.len(),
{
    if a.len() == 0 {
        assert(a + b =~= b);
        assert(vstd::utf8::encode_utf8(a) + vstd::utf8::encode_utf8(b)
            =~= vstd::utf8::encode_utf8(b));
    } else {
        let c = vstd::utf8::encode_scalar(a[0] as u32);
        let rest = a.drop_first();
        lemma_encode_pair(rest, b);
        assert((a + b).drop_first() =~= rest + b);
        assert((a + b)[0] == a[0]);
        assert(c + (vstd::utf8::encode_utf8(rest) + vstd::utf8::encode_utf8(b)) =~= (c
            + vstd::utf8::encode_utf8(rest)) + vstd::utf8::encode_utf8(b));
    }
}

/// Attributes before they are encrypted are the text of their characters, the zeros included.
proof fn lemma_plain_attrs(json: Seq<char>, fill: nat)
    ensures
        vstd::utf8::valid_utf8(plain_attrs(json, fill)),
        vstd::utf8::decode_utf8(plain_attrs(json, fill)) == "MEGA"@ + json + Seq::new(
            fill,
            |i: int| '\0',
        ),
{
    let word = "MEGA"@ + json;
    let nuls = Seq::new(fill, |i: int| '\0');
    assert(vstd::utf8::is_ascii_chars(nuls));
    vstd::utf8::is_ascii_chars_encode_utf8(nuls);
    assert forall|i: int| 0 <= i < fill implies vstd::utf8::encode_utf8(nuls)[i] == 0 by {
        assert(nuls[i] as u8 == vstd::utf8::encode_utf8(nuls)[i]);
    }
    assert(vstd::utf8::encode_utf8(nuls) =~= zeros(fill));
    lemma_encode_pair(word, nuls);
    vstd::utf8::encode_utf8_valid_utf8(word + nuls);
    vstd::utf8::encode_utf8_decode_utf8(word + nuls);
}

/// Decrypts the attributes of a node: the JSON object that holds its name. What was encrypted
/// comes back as it was.
pub fn decrypt_attrs(at_b64: &str, aes_key: &[u8; 16]) -> (r: Result<String, AttrsError>)
    ensures
        match r {
            Ok(json) => attrs_text(at_b64@, aes_key@) == Ok::<Seq<char>, AttrsError>(json@),
            Err(e) => attrs_text(at_b64@, aes_key@) == Err::<Seq<char>, AttrsError>(e),
        },
        attrs_bytes(at_b64@, aes_key@) matches Ok(bytes) ==> vstd::utf8::valid_utf8(bytes)
            ==> utf8_lossy(bytes) == vstd::utf8::decode_utf8(bytes),
        forall|json: Seq<char>, fill: nat|
            is_braced(json) && #[trigger] seals(at_b64@, aes_key@, json, fill) ==> r is Ok
                && r->Ok_0@ == json,
{
    match base64url::decode(text::trimmed(at_b64)) {
        None => Err(AttrsError::Base64),
        Some(data) => {
            let mut buf = data;
            let iv: [u8; 16] = [0u8; 16];
            assert(iv@ =~= zeros(16));
            if !aes128_cbc_decrypt(&mut buf, aes_key, &iv) {
                return Err(AttrsError::Length);
            }
            let decrypted = text_from_utf8_lossy(buf.as_slice());
            proof {
                assert forall|json: Seq<char>, fill: nat|
                    is_braced(json) && #[trigger] seals(
                        at_b64@,
                        aes_key@,
                        json,
                        fill,
                    ) implies json_part(decrypted@) == Ok::<Seq<char>, AttrsError>(json) by {
                    assert(buf@ == plain_attrs(json, fill));
                    lemma_plain_attrs(json, fill);
                    law_json_part(json, fill);
                }
            }
            attrs_json(decrypted.as_str())
        },
    }
}

/// The name that the attributes `at` give under the key `key`.
pub open spec fn attrs_name(at: Seq<char>, key: Seq<u8>) -> Option<Seq<char>> {
    match attrs_text(at, key) {
        Ok(json) => json::json_text_member(json, "n"@),
        Err(_) => None,
    }
}

/// The name in the attributes of a node, where they can be decrypted and have one.
pub fn decrypt_name(at_b64: &str, aes_key: &[u8; 16]) -> (r: Option<String>)
    ensures
        r.deep_view() == attrs_name(at_b64@, aes_key@),
{
    match decrypt_attrs(at_b64, aes_key) {
        Ok(text) => json::text_member(text.as_str(), "n"),
        Err(_) => None,
    }
}

/// `name`, or `other` where there is none.
pub open spec fn name_or_else(name: Option<Seq<char>>, other: Seq<char>) -> Seq<char> {
    match name {
        Some(name) => name,
        None => other,
    }
}

/// `name`, or `other` where there is none.
pub fn name_or(name: Option<String>, other: &str) -> (r: String)
    ensures
        r@ == name_or_else(name.deep_view(), other@),
        name matches Some(n) ==> r@ == n@,
        name is None ==> r@ == other@,
{
    match name {
        Some(name) => name,
        None => other.to_owned(),
    }
}

/// The name of a single file: from its attributes, or else made of its id.
pub open spec fn single_file_name(at: Seq<char>, key: Seq<u8>, id: Seq<char>) -> Seq<char> {
    name_or_else(attrs_name(at, key), id + ".bin"@)
}

/// The name of a single file that was linked to by `id`.
pub fn file_name_or_id(at_b64: &str, aes_key: &[u8; 16], id: &str) -> (r: String)
    ensures
        r@ == single_file_name(at_b64@, aes_key@, id@),
        attrs_name(at_b64@, aes_key@) matches Some(name) ==> r@ == name,
        attrs_name(at_b64@, aes_key@) is None ==> r@ == id@ + ".bin"@,
{
    let mut made: String = id.to_owned();
    made.append(".bin");
    name_or(decrypt_name(at_b64, aes_key), made.as_str())
}

/// The key of one entry `owner:key` of a node's key field; empty where there is no colon.
pub open spec fn entry_key(entry: Seq<char>) -> Seq<char> {
    let i = text::index_of(entry, ':');
    if i < entry.len() {
        text::trim(entry.skip(i + 1))
    } else {
        seq![]
    }
}

/// The first key of `entries` that is not empty.
pub open spec fn first_entry_key(entries: Seq<Seq<char>>) -> Option<Seq<char>>
    decreases entries.len(),
{
    if entries.len() == 0 {
        None
    } else if entry_key(entries[0]).len() > 0 {
        Some(entry_key(entries[0]))
    } else {
        first_entry_key(entries.skip(1))
    }
}

/// The key that a node's key field, entries `owner:key` with slashes between them, offers.
pub open spec fn field_key(k_field: Seq<char>) -> Option<Seq<char>> {
    first_entry_key(text::split(k_field, '/'))
}

/// The first key of some entries and then others is that of the first, where they have one.
proof fn lemma_first_entry_key(a: Seq<Seq<char>>, b: Seq<Seq<char>>)
    ensures
        first_entry_key(a + b) == if first_entry_key(a) is Some {
            first_entry_key(a)
        } else {
            first_entry_key(b)
        },
    decreases a.len(),
{
    if a.len() == 0 {
        assert(a + b =~= b);
    } else {
        assert((a + b)[0] == a[0]);
        assert((a + b).skip(1) =~= a.skip(1) + b);
        lemma_first_entry_key(a.skip(1), b);
    }
}

/// Of two key fields with a slash between them, the first offers its key, and the second only
/// where the first has none.
pub proof fn law_joined_key_fields(a: Seq<char>, b: Seq<char>)
    ensures
        field_key(a.push('/') + b) == if field_key(a) is Some {
            field_key(a)
        } else {
            field_key(b)
        },
{
    text::lemma_split_pair(a, '/', b);
    lemma_first_entry_key(text::split(a, '/'), text::split(b, '/'));
}

/// The first key in a node's key field that is not empty.
pub fn extract_key_b64<'a>(k_field: &'a str) -> (r: Option<&'a str>)
    ensures
        r is Some <==> field_key(k_field@) is Some,
        r is Some ==> r->0@ == field_key(k_field@)->0,
{
    let entries = text::split_on(k_field, '/');
    let ghost all = text::split(k_field@, '/');
    let mut i: usize = 0;
    assert(all.skip(0) =~= all);
    while i < entries.len()
        invariant
            all == text::split(k_field@, '/'),
            text::views(entries@) == all,
            i <= entries.len(),
            first_entry_key(all) == first_entry_key(all.skip(i as int)),
        decreases entries.len() - i,
    {
        let entry: &'a str = entries[i];
        proof {
            assert(all[i as int] == entry@);
            assert(all.skip(i as int).skip(1) =~= all.skip(i + 1));
            text::lemma_index_of(entry@, ':');
        }
        if let Some((_, after)) = text::cut(entry, ':') {
            let key = text::trimmed(after);
            if !key.is_empty() {
                return Some(key);
            }
        }
        i = i + 1;
    }
    None
}

/// Why the key of a node could not be read.
#[derive(Clone, Copy, Debug, PartialEq, Eq, Structural)]
pub enum NodeKeyError {
    /// It is no unpadded URL-safe base64.
    Base64,
    /// It has this number of bytes in place of 32.
    Length(usize),
}

/// The 32-byte node key that `enc` holds under the folder's key: two blocks, each decrypted on
/// its own.
pub open spec fn node_key(enc: Seq<char>, folder_key: Seq<u8>) -> Result<Seq<u8>, NodeKeyError> {
    match base64url::base64url_decoded(text::trim(enc)) {
        None => Err(NodeKeyError::Base64),
        Some(data) => if data.len() != 32 {
            Err(NodeKeyError::Length(data.len() as usize))
        } else {
            Ok(
                aes128_decrypt_block(folder_key, data.take(16)) + aes128_decrypt_block(
                    folder_key,
                    data.skip(16),
                ),
            )
        },
    }
}

/// Decrypts the key of a node with the key of its folder.
pub fn decrypt_node_key(enc_b64: &str, folder_key: &[u8; 16]) -> (r: Result<
    [u8; 32],
    NodeKeyError,
>)
    ensures
        match r {
            Ok(key) => node_key(enc_b64@, folder_key@) == Ok::<Seq<u8>, NodeKeyError>(key@),
            Err(e) => node_key(enc_b64@, folder_key@) == Err::<Seq<u8>, NodeKeyError>(e),
        },
        r == Err::<[u8; 32], NodeKeyError>(NodeKeyError::Base64) <==> !base64url::is_base64url(
            text::trim(enc_b64@),
        ),
        r is Ok <==> base64url::is_base64url(text::trim(enc_b64@)) && base64url::base64url_bytes(
            text::trim(enc_b64@),
        ).len() == 32,
        r matches Ok(key) ==> {
            let data = base64url::base64url_bytes(text::trim(enc_b64@));
            &&& key@.take(16) == aes128_decrypt_block(folder_key@, data.take(16))
            &&& key@.skip(16) == aes128_decrypt_block(folder_key@, data.skip(16))
        },
{
    match base64url::decode(text::trimmed(enc_b64)) {
        None => Err(NodeKeyError::Base64),
        Some(enc) => {
            if enc.len() != 32 {
                return Err(NodeKeyError::Length(enc.len()));
            }
            let first = decrypted_block(enc.as_slice(), 0, folder_key);
            let second = decrypted_block(enc.as_slice(), 16, folder_key);
            let mut out: [u8; 32] = [0u8; 32];
            let mut i: usize = 0;
            while i < 16
                invariant
                    i <= 16,
                    forall|j: int| 0 <= j < i ==> out@[j] == first@[j],
                    forall|j: int| 0 <= j < i ==> out@[j + 16] == second@[j],
                decreases 16 - i,
            {
                out[i] = first[i];
                out[i + 16] = second[i];
                i = i + 1;
            }
            assert(enc@.subrange(0, 16) =~= enc@.take(16));
            assert(enc@.subrange(16, 32) =~= enc@.skip(16));
            assert forall|j: int| 16 <= j < 32 implies out@[j] == second@[j - 16] by {
                assert(out@[(j - 16) + 16] == second@[j - 16]);
            }
            assert(out@ =~= first@ + second@);
            assert(out@.take(16) =~= first@);
            assert(out@.skip(16) =~= second@);
            Ok(out)
        },
    }
}

/// The 16 bytes of `data` from `start` on, decrypted as one block.
pub fn decrypted_block(data: &[u8], start: usize, key: &[u8; 16]) -> (r: [u8; 16])
    requires
        start + 16 <= data@.len(),
    ensures
        r@ == aes128_decrypt_block(key@, data@.subrange(start as int, start + 16)),
{
    let n: usize = data.len();
    let mut block: [u8; 16] = [0u8; 16];
    let mut i: usize = 0;
    while i < 16
        invariant
            i <= 16,
            n == data@.len(),
            start + 16 <= n,
            forall|j: int| 0 <= j < i ==> block@[j] == data@[start + j],
        decreases 16 - i,
    {
        block[i] = data[start + i];
        i = i + 1;
    }
    assert(block@ =~= data@.subrange(start as int, start + 16));
    aes128_ecb_decrypt_block(&mut block, key);
    block
}

/// Where the JSON object is found: whatever stands before its opening brace without having one, and
/// whatever stands behind its closing brace without having one, goes, and so do the zeros at the
/// end.
pub proof fn law_json_part_between(
    front: Seq<char>,
    json: Seq<char>,
    back: Seq<char>,
    fill: nat,
)
    requires
        is_braced(json),
        !front.contains('{'),
        !back.contains('}'),
        back.len() > 0 ==> back.last() != '\0',
    ensures
        json_part(front + json + back + Seq::new(fill, |i: int| '\0')) == Ok::<
            Seq<char>,
            AttrsError,
        >(json),
{
    let word = front + json + back;
    let s = word + Seq::new(fill, |i: int| '\0');
    let n = text::law_strip_back(s, '\0');
    let w = word.len() as int;
    assert(word.last() != '\0') by {
        if back.len() == 0 {
            assert(word.last() == json.last());
        } else {
            assert(word.last() == back.last());
        }
    }
    assert(s[w - 1] == word[w - 1]);
    assert(n == w) by {
        if n > w {
            assert(s[n - 1] == '\0');
        }
        if n < w {
            assert(s[w - 1] == '\0');
        }
    }
    assert(s.take(n) =~= word);
    assert(word[front.len() as int] == json[0]);
    assert forall|j: int| 0 <= j < front.len() implies word[j] != '{' by {
        if word[j] == '{' {
            assert(front[j] == '{');
            assert(front.contains('{'));
        }
    }
    text::lemma_index_of_is(word, '{', front.len() as int);
    let close = front.len() + json.len() - 1;
    text::lemma_last_index_of(word, '}');
    assert(word[close] == json.last());
    assert forall|j: int| close < j < word.len() implies word[j] != '}' by {
        let k = j - front.len() - json.len();
        if word[j] == '}' {
            assert(back[k] == '}');
            assert(back.contains('}'));
        }
    }
    assert(text::last_index_of(word, '}') == close);
    assert(word.subrange(front.len() as int, close + 1) =~= json);
}

/// Without an opening brace, without a closing one, or with the last closing one before the first
/// opening one, there is no JSON object, and the fault says which of these holds.
pub proof fn law_no_json_part(s: Seq<char>)
    ensures
        !s.contains('{') ==> json_part(s) == Err::<Seq<char>, AttrsError>(AttrsError::NoOpenBrace),
        s.contains('{') && !s.contains('}') ==> json_part(s) == Err::<Seq<char>, AttrsError>(
            AttrsError::NoCloseBrace,
        ),
        json_part(s) == Err::<Seq<char>, AttrsError>(AttrsError::Malformed) <==> s.contains('{')
            && s.contains('}') && forall|i: int, j: int|
            0 <= i < s.len() && 0 <= j < s.len() && #[trigger] s[i] == '{' && #[trigger] s[j] == '}'
                ==> j < i,
{
    let n = text::law_strip_back(s, '\0');
    let t = s.take(n);
    text::lemma_index_of(t, '{');
    text::lemma_last_index_of(t, '}');
    let open = text::index_of(t, '{');
    let close = text::last_index_of(t, '}');
    assert forall|i: int| 0 <= i < s.len() && s[i] != '\0' implies i < n && t[i] == s[i] by {}
    if open < t.len() {
        assert(s[open] == '{');
    } else if s.contains('{') {
        let i = choose|i: int| 0 <= i < s.len() && s[i] == '{';
        assert(t[i] == '{');
    }
    if close >= 0 {
        assert(s[close] == '}');
    } else if s.contains('}') {
        let i = choose|i: int| 0 <= i < s.len() && s[i] == '}';
        assert(t[i] == '}');
    }
    if open < t.len() && close >= 0 && close < open {
        assert forall|i: int, j: int|
            0 <= i < s.len() && 0 <= j < s.len() && #[trigger] s[i] == '{' && #[trigger] s[j]
                == '}' implies j < i by {
            assert(t[i] == '{' && t[j] == '}');
        }
    }
}

/// What the faults of attributes mean, before their text is looked at: they are no base64, or no
/// whole number of blocks; else they are decrypted, every block of them.
pub proof fn law_attrs_bytes(at: Seq<char>, key: Seq<u8>)
    ensures
        ({
            let t = text::trim(at);
            let data = base64url::base64url_bytes(t);
            &&& !base64url::is_base64url(t) ==> attrs_text(at, key) == Err::<
                Seq<char>,
                AttrsError,
            >(AttrsError::Base64)
            &&& base64url::is_base64url(t) && data.len() % 16 != 0 ==> attrs_text(at, key)
                == Err::<Seq<char>, AttrsError>(AttrsError::Length)
            &&& base64url::is_base64url(t) && data.len() % 16 == 0 ==> {
                &&& attrs_bytes(at, key) is Ok
                &&& attrs_bytes(at, key)->Ok_0.len() == data.len()
                &&& attrs_text(at, key) == json_part(utf8_lossy(attrs_bytes(at, key)->Ok_0))
            }
        }),
{
}

/// Each byte of decrypted attributes: the byte of its block, decrypted, combined with the byte 16
/// places before it, which for the first block is zero.
pub proof fn law_attrs_byte(at: Seq<char>, key: Seq<u8>, i: int)
    requires
        base64url::is_base64url(text::trim(at)),
        base64url::base64url_bytes(text::trim(at)).len() % 16 == 0,
        0 <= i < base64url::base64url_bytes(text::trim(at)).len(),
    ensures
        ({
            let data = base64url::base64url_bytes(text::trim(at));
            let block = aes128_decrypt_block(key, data.subrange(i - i % 16, i - i % 16 + 16));
            let before = if i < 16 {
                0u8
            } else {
                data[i - 16]
            };
            attrs_bytes(at, key)->Ok_0[i] ^ before == block[i % 16]
        }),
{
    let data = base64url::base64url_bytes(text::trim(at));
    let b = i / 16 * 16;
    assert(b == i - i % 16);
    let x = aes128_decrypt_block(key, data.subrange(b, b + 16))[i % 16];
    let y = if i < 16 {
        0u8
    } else {
        data[i - 16]
    };
    assert((x ^ y) ^ y == x) by (bit_vector);
}

/// One entry of a key field offers what stands behind its first colon, trimmed, unless that is
/// empty; an entry without a colon offers nothing.
pub proof fn law_one_key_entry(owner: Seq<char>, key: Seq<char>)
    requires
        !owner.contains('/'),
        !owner.contains(':'),
        !key.contains('/'),
    ensures
        field_key(owner.push(':') + key) == if text::trim(key).len() > 0 {
            Some(text::trim(key))
        } else {
            None
        },
        field_key(owner) is None,
{
    let entry = owner.push(':') + key;
    assert(!entry.contains('/')) by {
        if entry.contains('/') {
            let i = choose|i: int| 0 <= i < entry.len() && entry[i] == '/';
            if i < owner.len() {
                assert(owner[i] == '/');
            } else if i > owner.len() {
                assert(key[i - owner.len() - 1] == '/');
            }
        }
    }
    assert forall|j: int| 0 <= j < owner.len() implies entry[j] != ':' by {
        if entry[j] == ':' {
            assert(owner[j] == ':');
            assert(owner.contains(':'));
        }
    }
    text::law_split_of_one(entry, '/');
    text::law_split_of_one(owner, '/');
    text::lemma_index_of_is(entry, ':', owner.len() as int);
    text::lemma_index_of(owner, ':');
    if text::index_of(owner, ':') < owner.len() {
        assert(owner.contains(owner[text::index_of(owner, ':')]));
    }
    assert(entry.skip(owner.len() as int + 1) =~= key);
    reveal_with_fuel(first_entry_key, 2);
    assert(seq![entry].skip(1) =~= seq![]);
    assert(seq![owner].skip(1) =~= seq![]);
}

/// The two halves of a node key are decrypted each on its own: an encoded key with the same half
/// has the same half of the node key.
pub proof fn law_node_key(enc: Seq<char>, folder_key: Seq<u8>)
    ensures
        ({
            let t = text::trim(enc);
            let data = base64url::base64url_bytes(t);
            let ok = base64url::is_base64url(t) && data.len() == 32;
            &&& !base64url::is_base64url(t) ==> node_key(enc, folder_key) == Err::<
                Seq<u8>,
                NodeKeyError,
            >(NodeKeyError::Base64)
            &&& base64url::is_base64url(t) && data.len() != 32 ==> node_key(enc, folder_key)
                == Err::<Seq<u8>, NodeKeyError>(NodeKeyError::Length(data.len() as usize))
            &&& ok ==> node_key(enc, folder_key) == Ok::<Seq<u8>, NodeKeyError>(
                aes128_decrypt_block(folder_key, data.subrange(0, 16)) + aes128_decrypt_block(
                    folder_key,
                    data.subrange(16, 32),
                ),
            )
        }),
{
    let data = base64url::base64url_bytes(text::trim(enc));
    if data.len() == 32 {
        assert(data.take(16) =~= data.subrange(0, 16));
        assert(data.skip(16) =~= data.subrange(16, 32));
    }
}

/// A single file has the name that its attributes give, or, without one, its id with `.bin` behind
/// it.
pub proof fn law_single_file_name(at: Seq<char>, key: Seq<u8>, id: Seq<char>)
    ensures
        attrs_name(at, key) matches Some(name) ==> single_file_name(at, key, id) == name,
        attrs_name(at, key) is None ==> {
            let name = single_file_name(at, key, id);
            &&& name.take(id.len() as int) == id
            &&& name.skip(id.len() as int) == ".bin"@
        },
{
    assert((id + ".bin"@).take(id.len() as int) =~= id);
    assert((id + ".bin"@).skip(id.len() as int) =~= ".bin"@);
}

/// A name that the attributes give is the text in the member `n` of their JSON object.
pub proof fn law_attrs_name(at: Seq<char>, key: Seq<u8>)
    ensures
        attrs_text(at, key) matches Ok(json) ==> attrs_name(at, key) == json::json_text_member(
            json,
            "n"@,
        ),
        attrs_text(at, key) is Err ==> attrs_name(at, key) is None,
{
}

} // verus!
