use bitserv::EncryptedMnemonic;
use bitserv::decode_record;
use bitserv::encode_record;

#[test]
fn encode_then_decode_returns_the_record() {
    let record = EncryptedMnemonic {
        ciphertext: vec![9, 8, 7, 6, 5],
        nonce: (0u8..12).collect(),
        salt: (100u8..132).collect(),
    };
    let bytes = encode_record(&record);
    assert_eq!(bytes.len(), 5 + 12 + 32);
    let decoded = decode_record(&bytes).expect("decoding an encoded record succeeds");
    assert_eq!(decoded.ciphertext, vec![9, 8, 7, 6, 5]);
    assert_eq!(decoded.nonce, (0u8..12).collect::<Vec<u8>>());
    assert_eq!(decoded.salt, (100u8..132).collect::<Vec<u8>>());
}

#[test]
fn empty_ciphertext_round_trips() {
    let record = EncryptedMnemonic {
        ciphertext: vec![],
        nonce: vec![0; 12],
        salt: vec![7; 32],
    };
    let bytes = encode_record(&record);
    assert_eq!(bytes.len(), 44);
    let decoded = decode_record(&bytes).expect("a 44-byte record decodes");
    assert!(decoded.ciphertext.is_empty());
    assert_eq!(decoded.salt, vec![7; 32]);
}

#[test]
fn short_bytes_hold_no_record() {
    assert!(decode_record(&vec![0u8; 43]).is_none());
    assert!(decode_record(&Vec::new()).is_none());
}
