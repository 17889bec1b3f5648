use cipher::{KeyIvInit, StreamCipher};
use mega_dl::chunk::pending_chunks;
use mega_dl::content::decrypt_chunk;
use mega_dl::crypto::fold_key;
use std::collections::HashSet;

const KEY: [u8; 16] = [
    0x2b, 0x7e, 0x15, 0x16, 0x28, 0xae, 0xd2, 0xa6, 0xab, 0xf7, 0x15, 0x88, 0x09, 0xcf, 0x4f, 0x3c,
];

const COUNTER: [u8; 16] = [
    0xf0, 0xf1, 0xf2, 0xf3, 0xf4, 0xf5, 0xf6, 0xf7, 0xf8, 0xf9, 0xfa, 0xfb, 0xfc, 0xfd, 0xfe, 0xff,
];

const PLAIN: [u8; 32] = [
    0x6b, 0xc1, 0xbe, 0xe2, 0x2e, 0x40, 0x9f, 0x96, 0xe9, 0x3d, 0x7e, 0x11, 0x73, 0x93, 0x17, 0x2a,
    0xae, 0x2d, 0x8a, 0x57, 0x1e, 0x03, 0xac, 0x9c, 0x9e, 0xb7, 0x6f, 0xac, 0x45, 0xaf, 0x8e, 0x51,
];

const CIPHER: [u8; 32] = [
    0x87, 0x4d, 0x61, 0x91, 0xb6, 0x20, 0xe3, 0x26, 0x1b, 0xef, 0x68, 0x64, 0x99, 0x0d, 0xb6, 0xce,
    0x98, 0x06, 0xf6, 0x6b, 0x79, 0x70, 0xfd, 0xff, 0x86, 0x17, 0x18, 0x7b, 0xb9, 0xff, 0xfd, 0xff,
];

fn file(len: usize) -> Vec<u8> {
    (0..len).map(|i| (i * 31 + i / 256) as u8).collect()
}

fn encrypted(plain: &[u8], key: &[u8; 16], iv: &[u8; 16]) -> Vec<u8> {
    let mut data = plain.to_vec();
    ctr::Ctr128BE::<aes::Aes128>::new(key.into(), iv.into()).apply_keystream(&mut data);
    data
}

#[test]
fn contents_decrypt_to_the_published_value() {
    let mut data = CIPHER.to_vec();
    decrypt_chunk(&mut data, &KEY, &COUNTER, 0);
    assert_eq!(data, PLAIN.to_vec());
}

#[test]
fn a_later_block_decrypts_on_its_own() {
    let mut data = CIPHER[16..].to_vec();
    decrypt_chunk(&mut data, &KEY, &COUNTER, 16);
    assert_eq!(data, PLAIN[16..].to_vec());
}

#[test]
fn any_part_decrypts_to_that_part() {
    let raw = [0x5au8; 32];
    let mut raw2 = raw;
    raw2[3] = 9;
    let (key, iv) = fold_key(&raw2);
    let plain = file(333);
    let whole = encrypted(&plain, &key, &iv);
    for a in [0usize, 1, 7, 15, 16, 17, 31, 32, 100, 255, 256, 332, 333] {
        for b in [a, a + 1, a + 16, a + 33, 333] {
            if b <= 333 && a <= b {
                let mut part = whole[a..b].to_vec();
                decrypt_chunk(&mut part, &key, &iv, a as u64);
                assert_eq!(part, plain[a..b].to_vec(), "part {a}..{b}");
            }
        }
    }
}

#[test]
fn consecutive_parts_make_the_whole() {
    let plain = file(100);
    let whole = encrypted(&plain, &KEY, &COUNTER);
    let mut joined = Vec::new();
    for (a, b) in [(0usize, 13usize), (13, 48), (48, 50), (50, 100)] {
        let mut part = whole[a..b].to_vec();
        decrypt_chunk(&mut part, &KEY, &COUNTER, a as u64);
        joined.extend_from_slice(&part);
    }
    assert_eq!(joined, plain);
}

#[test]
fn chunks_make_the_file() {
    let (key, iv) = fold_key(&[0x17u8; 32]);
    let plain = file(1000);
    let whole = encrypted(&plain, &key, &iv);
    for chunk_size in [1u64, 10, 16, 33, 999, 1000, 1001] {
        let mut joined = Vec::new();
        for c in pending_chunks(1000, chunk_size, &HashSet::new()) {
            let mut part = whole[c.start as usize..c.end as usize + 1].to_vec();
            decrypt_chunk(&mut part, &key, &iv, c.start);
            joined.extend_from_slice(&part);
        }
        assert_eq!(joined, plain);
    }
}

#[test]
fn decrypting_twice_gives_the_data_back() {
    let data = file(77);
    let mut twice = data.clone();
    decrypt_chunk(&mut twice, &KEY, &COUNTER, 1234567);
    assert_ne!(twice, data);
    decrypt_chunk(&mut twice, &KEY, &COUNTER, 1234567);
    assert_eq!(twice, data);
}

#[test]
fn only_the_low_half_is_advanced() {
    // Advancing the low half wraps it without a carry, so that the block at 16 is the one whose
    // counter has the low half zero.
    let mut iv = [0xffu8; 16];
    iv[0] = 1;
    let mut wrapped = iv;
    for b in wrapped.iter_mut().skip(8) {
        *b = 0;
    }
    let plain = [7u8; 16];
    let mut data = plain.to_vec();
    decrypt_chunk(&mut data, &KEY, &iv, 16);
    assert_eq!(data, encrypted(&plain, &KEY, &wrapped));
}

#[test]
fn far_offsets_of_a_node_key_stay_in_one_keystream() {
    let (key, iv) = fold_key(&[0x33u8; 32]);
    let offset: u64 = 0x12_3456_7890;
    let mut nonce = iv;
    nonce[8..].copy_from_slice(&(offset / 16).to_be_bytes());
    let mut data = vec![0u8; 40];
    decrypt_chunk(&mut data, &key, &iv, offset);
    assert_eq!(data, encrypted(&[0u8; 40], &key, &nonce));
}

#[test]
fn empty_data_stays_empty() {
    let mut data: Vec<u8> = Vec::new();
    decrypt_chunk(&mut data, &KEY, &COUNTER, 5);
    assert!(data.is_empty());
}
