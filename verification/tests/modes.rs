use cipher_modes::aes128::Aes128Cipher;
use cipher_modes::buffered::{
    BufferedCipherDecryptionProvider, BufferedCipherEncryptionProvider,
};
use cipher_modes::cbc::{CbcDecryption, CbcEncryption};
use cipher_modes::ecb::{EcbDecryption, EcbEncryption};
use cipher_modes::error::BlockCipherError;
use cipher_modes::traits::{BlockDecrypt, BlockEncrypt};

fn hex(s: &str) -> Vec<u8> {
    let digits: Vec<u8> = s
        .bytes()
        .filter(|b| !b.is_ascii_whitespace())
        .map(|b| match b {
            b'0'..=b'9' => b - b'0',
            b'a'..=b'f' => b - b'a' + 10,
            b'A'..=b'F' => b - b'A' + 10,
            _ => panic!("not a hex digit"),
        })
        .collect();
    digits.chunks(2).map(|p| (p[0] << 4) | p[1]).collect()
}

fn enc_primitive(key: &[u8]) -> Aes128Cipher {
    <Aes128Cipher as BlockEncrypt>::new(key).unwrap()
}

fn dec_primitive(key: &[u8]) -> Aes128Cipher {
    <Aes128Cipher as BlockDecrypt>::new(key).unwrap()
}

// NIST AES-128 ECB example vector: one block, both directions.
#[test]
fn ecb_aes128_nist_vector() {
    let key = hex("2B7E151628AED2A6ABF7158809CF4F3C");
    let plaintext = hex("6BC1BEE22E409F96E93D7E117393172A");
    let ciphertext = hex("3AD77BB40D7A3660A89ECAF32466EF97");

    let mut enc = EcbEncryption::<Aes128Cipher>::new(&key).unwrap();
    enc.write(&plaintext);
    assert_eq!(enc.finalize().unwrap(), ciphertext);

    let mut dec = EcbDecryption::<Aes128Cipher>::new(&key).unwrap();
    dec.write(&ciphertext);
    assert_eq!(dec.finalize().unwrap(), plaintext);
}

// ECB round trip over several blocks, written in uneven pieces.
#[test]
fn ecb_round_trip() {
    let key = hex("000102030405060708090A0B0C0D0E0F");
    let plaintext: Vec<u8> = (0u8..48).collect();

    let mut enc = EcbEncryption::<Aes128Cipher>::new(&key).unwrap();
    enc.write(&plaintext[..5]);
    enc.write(&plaintext[5..31]);
    enc.write(&plaintext[31..]);
    let ct = enc.finalize().unwrap();
    assert_eq!(ct.len(), 48);
    assert_ne!(ct, plaintext);

    let mut dec = EcbDecryption::<Aes128Cipher>::new(&key).unwrap();
    dec.write(&ct);
    assert_eq!(dec.finalize().unwrap(), plaintext);
}

// CBC round trip under a fixed key and initialisation vector.
#[test]
fn cbc_round_trip() {
    let key = hex("2B7E151628AED2A6ABF7158809CF4F3C");
    let iv = hex("000102030405060708090A0B0C0D0E0F");
    let plaintext: Vec<u8> = (0u8..64).map(|b| b.wrapping_mul(7)).collect();

    let mut enc = CbcEncryption::new(enc_primitive(&key), &iv);
    enc.write(&plaintext);
    let ct = enc.finalize().unwrap();
    assert_eq!(ct.len(), 64);

    let mut dec = CbcDecryption::new(dec_primitive(&key), &iv);
    dec.write(&ct);
    assert_eq!(dec.finalize().unwrap(), plaintext);
}

// A short initialisation vector is zero-padded to the block size: the same
// stream encrypts identically under the explicit padded form.
#[test]
fn cbc_short_iv_zero_padded() {
    let key = hex("2B7E151628AED2A6ABF7158809CF4F3C");
    let plaintext: Vec<u8> = (0u8..32).collect();

    let mut short = CbcEncryption::new(enc_primitive(&key), &[0xAB, 0xCD]);
    short.write(&plaintext);
    let padded_iv = hex("ABCD0000000000000000000000000000");
    let mut full = CbcEncryption::new(enc_primitive(&key), &padded_iv);
    full.write(&plaintext);
    assert_eq!(short.finalize().unwrap(), full.finalize().unwrap());
}

// Chaining diffusion: flipping one byte in ciphertext block 1 of a
// four-block stream disturbs decrypted blocks 1 and 2 only.
#[test]
fn cbc_chaining_diffusion() {
    let key = hex("2B7E151628AED2A6ABF7158809CF4F3C");
    let iv = hex("0F0E0D0C0B0A09080706050403020100");
    let plaintext: Vec<u8> = (0u8..64).collect();

    let mut enc = CbcEncryption::new(enc_primitive(&key), &iv);
    enc.write(&plaintext);
    let ct = enc.finalize().unwrap();

    let mut dec = CbcDecryption::new(dec_primitive(&key), &iv);
    dec.write(&ct);
    let clean = dec.finalize().unwrap();
    assert_eq!(clean, plaintext);

    let mut tampered = ct.clone();
    tampered[16 + 3] ^= 0x40;
    let mut dec2 = CbcDecryption::new(dec_primitive(&key), &iv);
    dec2.write(&tampered);
    let disturbed = dec2.finalize().unwrap();

    assert_eq!(&disturbed[0..16], &clean[0..16]);
    assert_ne!(&disturbed[16..32], &clean[16..32]);
    assert_ne!(&disturbed[32..48], &clean[32..48]);
    assert_eq!(&disturbed[48..64], &clean[48..64]);
}

// Determinism versus chaining: repeated plaintext blocks repeat in the
// ciphertext under ECB and differ under CBC.
#[test]
fn ecb_repeats_cbc_does_not() {
    let key = hex("2B7E151628AED2A6ABF7158809CF4F3C");
    let iv = hex("000102030405060708090A0B0C0D0E0F");
    let block = hex("6BC1BEE22E409F96E93D7E117393172A");
    let mut plaintext = block.clone();
    plaintext.extend_from_slice(&block);

    let mut ecb = EcbEncryption::<Aes128Cipher>::new(&key).unwrap();
    ecb.write(&plaintext);
    let ecb_ct = ecb.finalize().unwrap();
    assert_eq!(&ecb_ct[0..16], &ecb_ct[16..32]);

    let mut cbc = CbcEncryption::new(enc_primitive(&key), &iv);
    cbc.write(&plaintext);
    let cbc_ct = cbc.finalize().unwrap();
    assert_ne!(&cbc_ct[0..16], &cbc_ct[16..32]);
}

// Incomplete block: one byte short of a block fails with exactly that
// count; an empty stream finalizes to empty output.
#[test]
fn incomplete_block_and_empty_stream() {
    let key = hex("2B7E151628AED2A6ABF7158809CF4F3C");
    let iv = hex("000102030405060708090A0B0C0D0E0F");

    let mut enc = EcbEncryption::<Aes128Cipher>::new(&key).unwrap();
    enc.write(&[0u8; 15]);
    assert_eq!(
        enc.finalize(),
        Err(BlockCipherError::IncompleteBlock(1))
    );

    let empty = EcbEncryption::<Aes128Cipher>::new(&key).unwrap();
    assert_eq!(empty.finalize().unwrap(), Vec::<u8>::new());

    let mut cbc = CbcEncryption::new(enc_primitive(&key), &iv);
    cbc.write(&[0u8; 10]);
    assert_eq!(
        cbc.finalize(),
        Err(BlockCipherError::IncompleteBlock(6))
    );

    let cbc_empty = CbcEncryption::new(enc_primitive(&key), &iv);
    assert_eq!(cbc_empty.finalize().unwrap(), Vec::<u8>::new());

    let mut cbc_dec = CbcDecryption::new(dec_primitive(&key), &iv);
    cbc_dec.write(&[0u8; 17]);
    assert_eq!(
        cbc_dec.finalize(),
        Err(BlockCipherError::IncompleteBlock(15))
    );
}

// CBC flush is an independent alignment check: it fails on a partial
// block, succeeds on an aligned stream, and never consumes the engine.
#[test]
fn cbc_flush_alignment() {
    let key = hex("2B7E151628AED2A6ABF7158809CF4F3C");
    let iv = hex("000102030405060708090A0B0C0D0E0F");

    let mut enc = CbcEncryption::new(enc_primitive(&key), &iv);
    assert_eq!(enc.flush(), Ok(()));
    enc.write(&[0u8; 7]);
    assert_eq!(enc.flush(), Err(BlockCipherError::IncompleteBlock(9)));
    enc.write(&[0u8; 9]);
    assert_eq!(enc.flush(), Ok(()));
    assert_eq!(enc.finalize().unwrap().len(), 16);
}

// Construction rejects a key outside the accepted length range.
#[test]
fn key_length_rejected() {
    let short = [0u8; 5];
    match EcbEncryption::<Aes128Cipher>::new(&short) {
        Ok(_) => assert!(false),
        Err(e) => assert_eq!(e, BlockCipherError::InvalidKeyLength(5)),
    }
    match <Aes128Cipher as BlockDecrypt>::new(&[0u8; 17]) {
        Ok(_) => assert!(false),
        Err(e) => assert_eq!(e, BlockCipherError::InvalidKeyLength(17)),
    }
}

// The buffered adapter wraps a single-block capability into the same
// streaming protocol, reports missing bytes, and resets for reuse.
#[test]
fn buffered_adapter_protocol() {
    let key = hex("2B7E151628AED2A6ABF7158809CF4F3C");
    let plaintext = hex("6BC1BEE22E409F96E93D7E117393172A");
    let ciphertext = hex("3AD77BB40D7A3660A89ECAF32466EF97");

    let mut enc = BufferedCipherEncryptionProvider::buffered(enc_primitive(&key));
    assert_eq!(enc.missing(), None);
    enc.write(&plaintext[..10]);
    assert_eq!(enc.missing(), Some(6));
    assert_eq!(
        enc.finalize_and_reset(),
        Err(BlockCipherError::IncompleteBlock(6))
    );
    enc.write(&plaintext[10..]);
    assert_eq!(enc.missing(), None);
    assert_eq!(enc.finalize_and_reset().unwrap(), ciphertext);

    // after the reset the same engine serves a fresh stream
    enc.write(&plaintext);
    assert_eq!(enc.finalize().unwrap(), ciphertext);

    let mut dec = BufferedCipherDecryptionProvider::buffered(dec_primitive(&key));
    dec.write(&ciphertext);
    assert_eq!(dec.finalize().unwrap(), plaintext);
}

// Feeding a stream byte by byte gives the same ciphertext as one write.
#[test]
fn write_alignment_independent() {
    let key = hex("000102030405060708090A0B0C0D0E0F");
    let iv = hex("101112131415161718191A1B1C1D1E1F");
    let plaintext: Vec<u8> = (0u8..48).collect();

    let mut whole = CbcEncryption::new(enc_primitive(&key), &iv);
    whole.write(&plaintext);

    let mut pieces = CbcEncryption::new(enc_primitive(&key), &iv);
    for b in &plaintext {
        pieces.write(&[*b]);
    }
    assert_eq!(whole.finalize().unwrap(), pieces.finalize().unwrap());
}
