use plexcryptool::algo::feistel0::{decrypt, encrypt, inner, key_scheduler, sbox};

#[test]
fn test_inner() {
    assert!(inner(0x1234, 0x0000, false) == 0x29a8);
    assert!(inner(0x1234, 0x2345, false) == 0x0aed);
    assert!(inner(0xabcd, 0xbeef, false) == 0x089a);
    assert!(inner(0x9876, 0xfedc, false) == 0x93c5);
}

#[test]
fn test_encrypt() {
    assert_eq!(encrypt(0x12345678, vec![0x1aa2, 0x2bb3, 0x3cc4], true), 0x4313e07a);
}

#[test]
fn test_decrypt() {
    let keys = key_scheduler(0x1337);
    let plaintext = 0xb00b00;
    let ciphertext = encrypt(plaintext, keys.clone(), true);
    let deciphertext = decrypt(ciphertext, keys.clone(), true);
    assert_eq!(plaintext, deciphertext);
}

#[test]
fn key_scheduler_ignores_the_key() {
    assert_eq!(key_scheduler(0), vec![0xdead, 0xc0ff, 0xee5a]);
    assert_eq!(key_scheduler(0xffff_ffff), vec![0xdead, 0xc0ff, 0xee5a]);
}

#[test]
fn sbox_holds_the_table() {
    let table: [u8; 15] = [0x4, 3, 9, 0xa, 0xb, 2, 0xe, 1, 0xd, 0xc, 8, 6, 7, 5, 0];
    for index in 0..0xf_u8 {
        assert_eq!(sbox(index), table[index as usize]);
    }
}

#[test]
fn decrypt_undoes_encrypt_for_other_keys() {
    let keys = vec![0x1aa2, 0x2bb3, 0x3cc4];
    for plaintext in [0u32, 1, 0x12345678, 0xffff_ffff, 0x8000_0001] {
        let ciphertext = encrypt(plaintext, keys.clone(), false);
        assert_eq!(decrypt(ciphertext, keys.clone(), false), plaintext);
    }
    assert_eq!(decrypt(0x4313e07a, keys, false), 0x12345678);
}
