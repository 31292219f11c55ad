use mimi::wallet::{LocalSigner, WalletError};

fn keypair_json(seed: [u8; 32]) -> String {
    let mut bytes: Vec<u8> = seed.to_vec();
    bytes.extend_from_slice(&[0u8; 32]);
    format!("[{}]", bytes.iter().map(|b| b.to_string()).collect::<Vec<_>>().join(","))
}

fn hex(bytes: &[u8]) -> String {
    bytes.iter().map(|b| format!("{b:02x}")).collect()
}

#[test]
fn signer_comes_from_the_seed_half() {
    // RFC 8032, test 1.
    let seed_hex = "9d61b19deffd5a60ba844af492ec2cc44449c5697b326919703bac031cae7f60";
    let mut seed = [0u8; 32];
    for i in 0..32 {
        seed[i] = u8::from_str_radix(&seed_hex[2 * i..2 * i + 2], 16).unwrap();
    }
    let signer = LocalSigner::from_keypair_text(&keypair_json(seed)).ok().expect("valid keypair");
    assert_eq!(
        hex(&signer.pubkey_bytes()),
        "d75a980182b10ab7d54bfed3c964073a0ee172f3daa62325af021a68f707511a"
    );
    let b58 = signer.pubkey_base58();
    assert_eq!(b58, "FVen3X669xLzsi6N2V91DoiyzHzg1uAgqiT8jZ9nS96Z");
    assert_eq!(b58, bs58::encode(signer.pubkey_bytes()).into_string());
    assert_ne!(b58, bs58::encode(seed).into_string());
    assert!(b58.len() >= 32);
}

#[test]
fn wrong_length_is_bad_format() {
    match LocalSigner::from_keypair_text("[1,2,3]") {
        Err(WalletError::BadFormat(m)) => assert_eq!(m, "expected 64 bytes (seed || pubkey), got 3"),
        _ => panic!("expected BadFormat"),
    }
}

#[test]
fn non_array_is_bad_format() {
    match LocalSigner::from_keypair_text("{\"seed\": 1}") {
        Err(e @ WalletError::BadFormat(_)) => {
            assert!(e.message().starts_with("malformed keypair file: not a JSON byte array: "))
        }
        _ => panic!("expected BadFormat"),
    }
}

#[test]
fn error_messages() {
    assert_eq!(WalletError::EnvVarMissing.message(), "SOLANA_KEYPAIR_PATH not set");
    assert_eq!(WalletError::ReadFailed("gone".into()).message(), "failed to read keypair file: gone");
}

#[test]
fn parse_error_text_is_carried_over() {
    let raw = "[1, 2,";
    let expected = serde_json::from_str::<Vec<u8>>(raw).unwrap_err().to_string();
    match LocalSigner::from_keypair_text(raw) {
        Err(WalletError::BadFormat(m)) => assert_eq!(m, format!("not a JSON byte array: {expected}")),
        _ => panic!("expected BadFormat"),
    }
}

#[test]
fn held_key_is_the_one_made_from_the_seed() {
    let seed = [7u8; 32];
    let signer = LocalSigner::from_keypair_text(&keypair_json(seed)).ok().expect("valid keypair");
    assert_eq!(signer.signing_key().to_bytes(), seed);
    assert_eq!(signer.signing_key().verifying_key().to_bytes(), signer.pubkey_bytes());
}
