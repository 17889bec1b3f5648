//! File contents, which are encrypted with AES-128 in CTR mode and can be decrypted from any
//! byte on.

use cipher::{KeyIvInit, StreamCipher};
use vstd::arithmetic::power::*;
use vstd::prelude::*;

use crate::chunk;
use crate::crypto;

verus! {

/// AES-128 encryption of one block of 16 bytes.
pub uninterp spec fn aes128_encrypt_block(key: Seq<u8>, block: Seq<u8>) -> Seq<u8>;

/// The number that `bytes` write with the most significant byte first.
pub open spec fn be_value(bytes: Seq<u8>) -> nat
    decreases bytes.len(),
{
    if bytes.len() == 0 {
        0
    } else {
        be_value(bytes.drop_last()) * 256 + bytes.last() as nat
    }
}

/// The lowest `len` bytes of `n`, the most significant first.
pub open spec fn be_bytes(n: nat, len: nat) -> Seq<u8>
    decreases len,
{
    if len == 0 {
        seq![]
    } else {
        be_bytes(n / 256, (len - 1) as nat).push((n % 256) as u8)
    }
}

/// The block that CTR mode encrypts for its keystream block `j`: the 128-bit counter, which
/// starts at `nonce`.
pub open spec fn counter_block(nonce: Seq<u8>, j: nat) -> Seq<u8> {
    be_bytes(be_value(nonce) + j, 16)
}

/// Byte `n` of the keystream of CTR mode.
pub open spec fn ctr_byte(key: Seq<u8>, nonce: Seq<u8>, n: nat) -> u8 {
    aes128_encrypt_block(key, counter_block(nonce, n / 16))[(n % 16) as int]
}

/// Calls `apply_keystream` of `ctr::Ctr128BE<aes::Aes128>`, first on `head` and then on `data`.
/// Believed of it: it combines the bytes, in that order, with the keystream made of the AES-128
/// encryptions of a big-endian 128-bit counter that starts at `nonce` and wraps.
#[verifier::external_body]
fn aes128_ctr_apply(key: &[u8; 16], nonce: &[u8; 16], head: &mut [u8], data: &mut [u8])
    ensures
        final(head)@.len() == old(head)@.len(),
        forall|i: int|
            0 <= i < final(head)@.len() ==> #[trigger] final(head)@[i] == old(head)@[i]
                ^ aes128_encrypt_block(key@, counter_block(nonce@, (i / 16) as nat))[i % 16],
        final(data)@.len() == old(data)@.len(),
        forall|i: int|
            0 <= i < final(data)@.len() ==> #[trigger] final(data)@[i] == old(data)@[i] ^ ctr_byte(
                key@,
                nonce@,
                (old(head)@.len() + i) as nat,
            ),
{
    let mut c = ctr::Ctr128BE::<aes::Aes128>::new(key.into(), nonce.into());
    c.apply_keystream(head);
    c.apply_keystream(data);
}

/// The counter for the block `block_idx` of a file that starts at `iv`: the low half of `iv`
/// advanced by `block_idx`, modulo 2^64, with the high half as it is.
pub open spec fn chunk_nonce(iv: Seq<u8>, block_idx: nat) -> Seq<u8> {
    iv.take(8) + be_bytes(be_value(iv.skip(8)) + block_idx, 8)
}

/// `data`, which stands in its file from `offset` on, decrypted.
pub open spec fn chunk_plain(data: Seq<u8>, key: Seq<u8>, iv: Seq<u8>, offset: nat) -> Seq<u8> {
    Seq::new(
        data.len(),
        |i: int|
            data[i] ^ ctr_byte(key, chunk_nonce(iv, offset / 16), (offset % 16 + i) as nat),
    )
}

/// The low half of a counter.
fn low_half(iv: &[u8; 16]) -> (r: u64)
    ensures
        r == be_value(iv@.skip(8)),
{
    let mut v: u64 = 0;
    let mut i: usize = 8;
    while i < 16
        invariant
            8 <= i <= 16,
            v == be_value(iv@.subrange(8, i as int)),
        decreases 16 - i,
    {
        proof {
            let next = iv@.subrange(8, i + 1);
            assert(next.drop_last() =~= iv@.subrange(8, i as int));
            assert(be_value(next) == v * 256 + iv@[i as int]);
            lemma_be_value_bound(next);
            lemma_pow_increases(256, (i + 1 - 8) as nat, 8);
            lemma_pow_256_8();
        }
        v = v * 256 + iv[i] as u64;
        i = i + 1;
    }
    assert(iv@.subrange(8, 16) =~= iv@.skip(8));
    v
}

/// The counter `iv` with `low` in its low half.
fn with_low_half(iv: &[u8; 16], low: u64) -> (r: [u8; 16])
    ensures
        r@ == iv@.take(8) + be_bytes(low as nat, 8),
{
    let mut nonce: [u8; 16] = *iv;
    let mut x: u64 = low;
    let mut k: usize = 0;
    assert(nonce@.skip(16) =~= seq![]);
    assert(be_bytes(low as nat, 8) =~= be_bytes(x as nat, 8) + nonce@.skip(16));
    while k < 8
        invariant
            k <= 8,
            forall|j: int| 0 <= j < 8 ==> nonce@[j] == iv@[j],
            be_bytes(low as nat, 8) == be_bytes(x as nat, (8 - k) as nat) + nonce@.skip(16 - k),
        decreases 8 - k,
    {
        let ghost before = nonce@.skip(16 - k);
        let b: u8 = (x % 256) as u8;
        nonce[15 - k] = b;
        proof {
            assert(nonce@.skip(15 - k) =~= seq![b] + before);
            let shorter = be_bytes((x / 256) as nat, (7 - k) as nat);
            assert(be_bytes(x as nat, (8 - k) as nat) == shorter.push(b));
            assert(shorter.push(b) + before =~= shorter + nonce@.skip(15 - k));
        }
        x = x / 256;
        k = k + 1;
    }
    assert(nonce@ =~= iv@.take(8) + nonce@.skip(8));
    assert(be_bytes(low as nat, 8) =~= nonce@.skip(8));
    nonce
}

/// Decrypts `data`, which stands in its file from `byte_offset` on.
pub fn decrypt_chunk(data: &mut [u8], key: &[u8; 16], iv: &[u8; 16], byte_offset: u64)
    ensures
        final(data)@ == chunk_plain(old(data)@, key@, iv@, byte_offset as nat),
        final(data)@.len() == old(data)@.len(),
        forall|i: int|
            0 <= i < old(data)@.len() ==> {
                let low = (be_value(iv@.skip(8)) + byte_offset / 16) % 0x1_0000_0000_0000_0000;
                let counter = be_value(iv@.take(8)) * 0x1_0000_0000_0000_0000 + low + (byte_offset
                    % 16 + i) / 16;
                #[trigger] final(data)@[i] == old(data)@[i] ^ aes128_encrypt_block(
                    key@,
                    be_bytes(counter as nat, 16),
                )[(byte_offset + i) % 16]
            },
{
    let block_idx: u64 = byte_offset / 16;
    let skip: usize = (byte_offset % 16) as usize;
    let start: u64 = low_half(iv);
    let ctr_lo: u64 = start.wrapping_add(block_idx);
    let nonce = with_low_half(iv, ctr_lo);
    proof {
        lemma_pow_256_8();
        lemma_be_bytes_wrap(start as nat + block_idx as nat, ctr_lo as nat, 8);
    }
    let mut head: Vec<u8> = vec![0u8; skip];
    aes128_ctr_apply(key, &nonce, head.as_mut_slice(), data);
    assert(data@ =~= chunk_plain(old(data)@, key@, iv@, byte_offset as nat));
    proof {
        assert forall|i: int| 0 <= i < old(data)@.len() implies {
            let low = (be_value(iv@.skip(8)) + byte_offset / 16) % 0x1_0000_0000_0000_0000;
            let counter = be_value(iv@.take(8)) * 0x1_0000_0000_0000_0000 + low + (byte_offset % 16
                + i) / 16;
            #[trigger] data@[i] == old(data)@[i] ^ aes128_encrypt_block(
                key@,
                be_bytes(counter as nat, 16),
            )[(byte_offset + i) % 16]
        } by {
            law_every_byte_meets_the_keystream(
                old(data)@,
                key@,
                iv@,
                byte_offset as nat,
                i as nat,
            );
        }
    }
}

proof fn lemma_pow_256_8()
    ensures
        pow(256, 8) == 0x1_0000_0000_0000_0000,
{
    reveal_with_fuel(pow, 9);
}

/// A number written in `n` bytes is below 256 to the power `n`.
proof fn lemma_be_value_bound(s: Seq<u8>)
    ensures
        be_value(s) < pow(256, s.len()),
    decreases s.len(),
{
    reveal(pow);
    if s.len() > 0 {
        lemma_be_value_bound(s.drop_last());
    }
}

/// Numbers that agree modulo 256 to the power `len` have the same lowest `len` bytes.
proof fn lemma_be_bytes_wrap(a: nat, b: nat, len: nat)
    requires
        a as int % pow(256, len) == b as int % pow(256, len),
    ensures
        be_bytes(a, len) == be_bytes(b, len),
    decreases len,
{
    reveal(pow);
    if len > 0 {
        let p = pow(256, (len - 1) as nat);
        lemma_pow_positive(256, (len - 1) as nat);
        assert(pow(256, len) == 256 * p);
        vstd::arithmetic::div_mod::lemma_breakdown(a as int, 256, p);
        vstd::arithmetic::div_mod::lemma_breakdown(b as int, 256, p);
        lemma_be_bytes_wrap(a / 256, b / 256, (len - 1) as nat);
    }
}

/// A number that fits is read back from its bytes.
proof fn lemma_be_value_of_bytes(n: nat, len: nat)
    requires
        n < pow(256, len),
    ensures
        be_bytes(n, len).len() == len,
        be_value(be_bytes(n, len)) == n,
    decreases len,
{
    reveal(pow);
    if len > 0 {
        lemma_be_value_of_bytes(n / 256, (len - 1) as nat);
        let s = be_bytes(n, len);
        assert(s.drop_last() =~= be_bytes(n / 256, (len - 1) as nat));
    }
}

/// The bytes `b` behind `a` move the number in `a` up by as many bytes.
proof fn lemma_be_value_of_pair(a: Seq<u8>, b: Seq<u8>)
    ensures
        be_value(a + b) == be_value(a) * pow(256, b.len()) + be_value(b),
    decreases b.len(),
{
    reveal(pow);
    if b.len() == 0 {
        assert(a + b =~= a);
    } else {
        assert((a + b).drop_last() =~= a + b.drop_last());
        lemma_be_value_of_pair(a, b.drop_last());
        let p = pow(256, (b.len() - 1) as nat);
        let v = be_value(a) as int;
        assert((v * p) * 256 == v * (256 * p)) by (nonlinear_arith);
    }
}

/// There is one keystream to a file: decryption from `offset` on meets byte `i` of its data with
/// the keystream byte `offset + i` of the whole file. The 64-bit counter must not wrap before
/// `offset`, since only its low half is advanced to get there.
pub proof fn law_one_keystream(key: Seq<u8>, iv: Seq<u8>, offset: nat, i: nat)
    requires
        iv.len() == 16,
        be_value(iv.skip(8)) + offset / 16 < 0x1_0000_0000_0000_0000,
    ensures
        ctr_byte(key, chunk_nonce(iv, offset / 16), offset % 16 + i) == ctr_byte(
            key,
            iv,
            offset + i,
        ),
{
    let hi = iv.take(8);
    let lo = iv.skip(8);
    let sum = be_value(lo) + offset / 16;
    lemma_pow_256_8();
    lemma_be_value_of_bytes(sum, 8);
    lemma_be_value_of_pair(hi, be_bytes(sum, 8));
    lemma_be_value_of_pair(hi, lo);
    assert(hi + lo =~= iv);
    assert(be_value(chunk_nonce(iv, offset / 16)) == be_value(iv) + offset / 16);
    let n = offset % 16 + i;
    assert(offset / 16 + n / 16 == (offset + i) / 16 && n % 16 == (offset + i) % 16);
}

/// A part of a file decrypts to that part of the decrypted file, whatever the part.
pub proof fn law_part_of_file(file: Seq<u8>, key: Seq<u8>, iv: Seq<u8>, a: nat, b: nat)
    requires
        a <= b <= file.len(),
        iv.len() == 16,
        be_value(iv.skip(8)) + a / 16 < 0x1_0000_0000_0000_0000,
    ensures
        chunk_plain(file.subrange(a as int, b as int), key, iv, a) == chunk_plain(
            file,
            key,
            iv,
            0,
        ).subrange(a as int, b as int),
{
    let part = file.subrange(a as int, b as int);
    let left = chunk_plain(part, key, iv, a);
    let right = chunk_plain(file, key, iv, 0).subrange(a as int, b as int);
    assert forall|i: int| 0 <= i < left.len() implies left[i] == right[i] by {
        law_one_keystream(key, iv, a, i as nat);
        law_one_keystream(key, iv, 0, (a + i) as nat);
    }
    assert(left =~= right);
}

/// Two stretches of a file that follow one another decrypt, each from its own offset, to the two
/// stretches of what they decrypt to together.
pub proof fn law_consecutive_parts(x: Seq<u8>, y: Seq<u8>, key: Seq<u8>, iv: Seq<u8>, offset: nat)
    requires
        iv.len() == 16,
        be_value(iv.skip(8)) + (offset + x.len()) / 16 < 0x1_0000_0000_0000_0000,
    ensures
        chunk_plain(x + y, key, iv, offset) == chunk_plain(x, key, iv, offset) + chunk_plain(
            y,
            key,
            iv,
            offset + x.len(),
        ),
{
    let left = chunk_plain(x + y, key, iv, offset);
    let right = chunk_plain(x, key, iv, offset) + chunk_plain(y, key, iv, offset + x.len());
    assert forall|i: int| 0 <= i < left.len() implies left[i] == right[i] by {
        law_one_keystream(key, iv, offset, i as nat);
        if i >= x.len() {
            law_one_keystream(key, iv, offset + x.len(), (i - x.len()) as nat);
        }
    }
    assert(left =~= right);
}

/// The counter start of a node key leaves the low half at zero, so that no offset of 64 bits can
/// make it wrap.
pub proof fn law_folded_iv_never_wraps(raw: Seq<u8>, offset: u64)
    requires
        raw.len() == 32,
    ensures
        crypto::folded_iv(raw).len() == 16,
        be_value(crypto::folded_iv(raw).skip(8)) == 0,
        be_value(crypto::folded_iv(raw).skip(8)) + offset as nat / 16 < 0x1_0000_0000_0000_0000,
{
    let z = crypto::folded_iv(raw).skip(8);
    lemma_zeros(z);
}

proof fn lemma_zeros(s: Seq<u8>)
    requires
        forall|i: int| 0 <= i < s.len() ==> s[i] == 0,
    ensures
        be_value(s) == 0,
    decreases s.len(),
{
    if s.len() > 0 {
        lemma_zeros(s.drop_last());
    }
}

/// With a node key that was folded into an AES key and a counter start, a part of a file at any
/// 64-bit offset decrypts to that part of the decrypted file.
pub proof fn law_part_of_file_with_node_key(raw: Seq<u8>, file: Seq<u8>, a: u64, b: nat)
    requires
        raw.len() == 32,
        a <= b <= file.len(),
    ensures
        chunk_plain(
            file.subrange(a as int, b as int),
            crypto::folded_key(raw),
            crypto::folded_iv(raw),
            a as nat,
        ) == chunk_plain(
            file,
            crypto::folded_key(raw),
            crypto::folded_iv(raw),
            0,
        ).subrange(a as int, b as int),
{
    law_folded_iv_never_wraps(raw, a);
    law_part_of_file(file, crypto::folded_key(raw), crypto::folded_iv(raw), a as nat, b);
}

/// The first `n` chunks of `file`, decrypted each on its own and put one after another.
pub open spec fn pieced_together(
    file: Seq<u8>,
    key: Seq<u8>,
    iv: Seq<u8>,
    chunk_size: nat,
    n: nat,
) -> Seq<u8>
    decreases n,
{
    if n == 0 {
        seq![]
    } else {
        let c = chunk::chunk_at((n - 1) as nat, file.len(), chunk_size);
        let part = file.subrange(c.start as int, c.end + 1);
        pieced_together(file, key, iv, chunk_size, (n - 1) as nat) + chunk_plain(
            part,
            key,
            iv,
            c.start as nat,
        )
    }
}

proof fn lemma_pieced_together(raw: Seq<u8>, file: Seq<u8>, chunk_size: nat, n: nat)
    requires
        raw.len() == 32,
        chunk::is_countable(file.len(), chunk_size),
        n <= chunk::chunk_count(file.len(), chunk_size),
    ensures
        ({
            let end = if n == 0 {
                0
            } else {
                chunk::chunk_limit((n - 1) as nat, file.len(), chunk_size)
            };
            &&& end <= file.len()
            &&& pieced_together(
                file,
                crypto::folded_key(raw),
                crypto::folded_iv(raw),
                chunk_size,
                n,
            ) == chunk_plain(
                file,
                crypto::folded_key(raw),
                crypto::folded_iv(raw),
                0,
            ).take(end as int)
        }),
    decreases n,
{
    let key = crypto::folded_key(raw);
    let iv = crypto::folded_iv(raw);
    let plain = chunk_plain(file, key, iv, 0);
    if n == 0 {
        assert(plain.take(0) =~= seq![]);
    } else {
        let i = (n - 1) as nat;
        let c = chunk::chunk_at(i, file.len(), chunk_size);
        lemma_pieced_together(raw, file, chunk_size, i);
        chunk::law_chunk_inside(i, file.len(), chunk_size);
        if i > 0 {
            chunk::law_chunks_follow((i - 1) as nat, file.len(), chunk_size);
        }
        law_part_of_file_with_node_key(raw, file, c.start, (c.end + 1) as nat);
        assert(plain.take(c.end + 1) =~= plain.take(c.start as int) + plain.subrange(
            c.start as int,
            c.end + 1,
        ));
    }
}

/// The chunks of a file, decrypted each on its own and put one after another, are the decrypted
/// file.
pub proof fn law_chunks_make_the_file(raw: Seq<u8>, file: Seq<u8>, chunk_size: nat)
    requires
        raw.len() == 32,
        chunk::is_countable(file.len(), chunk_size),
    ensures
        pieced_together(
            file,
            crypto::folded_key(raw),
            crypto::folded_iv(raw),
            chunk_size,
            chunk::chunk_count(file.len(), chunk_size),
        ) == chunk_plain(file, crypto::folded_key(raw), crypto::folded_iv(raw), 0),
{
    let n = chunk::chunk_count(file.len(), chunk_size);
    let plain = chunk_plain(file, crypto::folded_key(raw), crypto::folded_iv(raw), 0);
    lemma_pieced_together(raw, file, chunk_size, n);
    if n == 0 {
        chunk::law_bytes_add_up(file.len(), chunk_size, Set::empty());
    } else {
        chunk::law_chunks_follow((n - 1) as nat, file.len(), chunk_size);
    }
    assert(plain.take(plain.len() as int) =~= plain);
}

/// Decryption is its own inverse: done twice, at the same offset, it gives the data back.
pub proof fn law_decrypt_twice(data: Seq<u8>, key: Seq<u8>, iv: Seq<u8>, offset: nat)
    ensures
        chunk_plain(chunk_plain(data, key, iv, offset), key, iv, offset) == data,
{
    let twice = chunk_plain(chunk_plain(data, key, iv, offset), key, iv, offset);
    assert forall|i: int| 0 <= i < data.len() implies twice[i] == data[i] by {
        let x = data[i];
        let k = ctr_byte(key, chunk_nonce(iv, offset / 16), (offset % 16 + i) as nat);
        assert((x ^ k) ^ k == x) by (bit_vector);
    }
    assert(twice =~= data);
}

/// The bytes of a number are its digits to the base 256, the most significant first.
pub proof fn law_digits_of_number(n: nat, len: nat, k: nat)
    requires
        k < len,
    ensures
        be_bytes(n, len).len() == len,
        be_bytes(n, len)[k as int] as int == n as int / pow(256, (len - 1 - k) as nat) % 256,
    decreases len,
{
    let front = be_bytes(n / 256, (len - 1) as nat);
    let x = n as int;
    lemma_be_bytes_len(n / 256, (len - 1) as nat);
    if k < len - 1 {
        let p = pow(256, (len - 2 - k) as nat);
        law_digits_of_number(n / 256, (len - 1) as nat, k);
        lemma_pow_positive(256, (len - 2 - k) as nat);
        assert(pow(256, (len - 1 - k) as nat) == 256 * p) by {
            reveal(pow);
        }
        assert(x / (256 * p) == (x / 256) / p) by {
            vstd::arithmetic::div_mod::lemma_div_denominator(x, 256, p);
        }
        assert(be_bytes(n, len)[k as int] == front[k as int]);
    } else {
        lemma_pow0(256);
        assert(x / 1 == x);
    }
}

proof fn lemma_be_bytes_len(n: nat, len: nat)
    ensures
        be_bytes(n, len).len() == len,
    decreases len,
{
    if len > 0 {
        lemma_be_bytes_len(n / 256, (len - 1) as nat);
    }
}

/// The digits of the number that bytes write are those bytes, and it has no more of them.
pub proof fn law_number_of_digits(s: Seq<u8>, k: nat)
    requires
        k < s.len(),
    ensures
        be_value(s) as int / pow(256, (s.len() - 1 - k) as nat) % 256 == s[k as int] as int,
        be_value(s) < pow(256, s.len()),
    decreases s.len(),
{
    let front = s.drop_last();
    let v = be_value(front) as int;
    let b = s.last() as int;
    let x = be_value(s) as int;
    lemma_be_value_bound(s);
    assert(x == v * 256 + b);
    if k < s.len() - 1 {
        let p = pow(256, (s.len() - 2 - k) as nat);
        law_number_of_digits(front, k);
        lemma_pow_positive(256, (s.len() - 2 - k) as nat);
        assert(pow(256, (s.len() - 1 - k) as nat) == 256 * p) by {
            reveal(pow);
        }
        assert(x / 256 == v);
        assert(x / (256 * p) == v / p) by {
            vstd::arithmetic::div_mod::lemma_div_denominator(x, 256, p);
        }
        assert(front[k as int] == s[k as int]);
    } else {
        lemma_pow0(256);
        assert(x / 1 == x);
        assert(x % 256 == b);
    }
}

/// Every byte is combined with the keystream, whatever the offset and the length: the byte at `i`
/// with that byte of an encrypted counter. The counter has the high half of `iv`, the low half
/// advanced to the block that `offset` stands in, modulo 2^64, and then counts blocks on.
pub proof fn law_every_byte_meets_the_keystream(
    data: Seq<u8>,
    key: Seq<u8>,
    iv: Seq<u8>,
    offset: nat,
    i: nat,
)
    requires
        iv.len() == 16,
        i < data.len(),
    ensures
        chunk_plain(data, key, iv, offset).len() == data.len(),
        ({
            let low = (be_value(iv.skip(8)) + offset / 16) % 0x1_0000_0000_0000_0000;
            let start = be_value(iv.take(8)) * 0x1_0000_0000_0000_0000 + low;
            let block = aes128_encrypt_block(key, be_bytes(start + (offset % 16 + i) / 16, 16));
            chunk_plain(data, key, iv, offset)[i as int] == data[i as int] ^ block[(offset + i) as int
                % 16]
        }),
{
    let hi = iv.take(8);
    let sum = be_value(iv.skip(8)) + offset / 16;
    let low = sum % 0x1_0000_0000_0000_0000;
    lemma_pow_256_8();
    lemma_be_bytes_wrap(sum, low, 8);
    lemma_be_value_of_bytes(low, 8);
    lemma_be_value_of_pair(hi, be_bytes(low, 8));
    assert((offset % 16 + i) % 16 == (offset + i) % 16);
}

/// The same seen from the start of the file, where the low half of the counter does not wrap before
/// `offset`: byte `offset + i` of the file meets byte `offset + i` of the one keystream that starts
/// at `iv`.
pub proof fn law_keystream_of_the_file(
    data: Seq<u8>,
    key: Seq<u8>,
    iv: Seq<u8>,
    offset: nat,
    i: nat,
)
    requires
        iv.len() == 16,
        be_value(iv.skip(8)) + offset / 16 < 0x1_0000_0000_0000_0000,
        i < data.len(),
    ensures
        chunk_plain(data, key, iv, offset)[i as int] == data[i as int] ^ aes128_encrypt_block(
            key,
            be_bytes(be_value(iv) + (offset + i) / 16, 16),
        )[(offset + i) as int % 16],
{
    let hi = iv.take(8);
    let lo = iv.skip(8);
    law_every_byte_meets_the_keystream(data, key, iv, offset, i);
    lemma_pow_256_8();
    lemma_be_value_of_pair(hi, lo);
    assert(hi + lo =~= iv);
    assert(offset / 16 + (offset % 16 + i) / 16 == (offset + i) / 16);
}

/// What CTR mode encrypts from the start of a file comes back: a piece of it, cut out anywhere and
/// decrypted at its offset, is that piece of the plain file.
pub proof fn law_encrypted_file_comes_back(
    plain: Seq<u8>,
    encrypted: Seq<u8>,
    key: Seq<u8>,
    iv: Seq<u8>,
    a: nat,
    b: nat,
)
    requires
        iv.len() == 16,
        encrypted.len() == plain.len(),
        forall|n: int|
            0 <= n < plain.len() ==> #[trigger] encrypted[n] == plain[n] ^ aes128_encrypt_block(
                key,
                be_bytes((be_value(iv) + n / 16) as nat, 16),
            )[n % 16],
        a <= b <= plain.len(),
        be_value(iv.skip(8)) + a / 16 < 0x1_0000_0000_0000_0000,
    ensures
        chunk_plain(encrypted.subrange(a as int, b as int), key, iv, a) == plain.subrange(
            a as int,
            b as int,
        ),
{
    let part = encrypted.subrange(a as int, b as int);
    let back = chunk_plain(part, key, iv, a);
    let whole = plain.subrange(a as int, b as int);
    assert forall|i: int| 0 <= i < part.len() implies back[i] == whole[i] by {
        law_keystream_of_the_file(part, key, iv, a, i as nat);
        let n = a + i;
        let x = plain[n];
        let k = aes128_encrypt_block(key, be_bytes((be_value(iv) + n / 16) as nat, 16))[n % 16];
        assert(encrypted[n] == x ^ k);
        assert((x ^ k) ^ k == x) by (bit_vector);
    }
    assert(back =~= whole);
}

} // verus!
