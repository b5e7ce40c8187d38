use lokal::crypto::{derive_kek, drawn_bytes, key_of_hash, open, random_bytes, seal, KdfParams, NONCE_LEN, TAG_LEN};
use lokal::{Error, Key32};

fn fast_for_tests() -> KdfParams {
    KdfParams { m_cost: 8, t_cost: 1, p_cost: 1 }
}

fn hex(s: &str) -> Vec<u8> {
    let digits: Vec<u8> = s.chars().map(|c| c.to_digit(16).unwrap() as u8).collect();
    digits.chunks(2).map(|p| p[0] * 16 + p[1]).collect()
}

#[test]
fn seal_open_roundtrip() {
    let key = Key32::from_bytes(random_bytes::<32>().unwrap());
    let nonce = random_bytes::<NONCE_LEN>().unwrap();
    let msg = b"attack at dawn";
    let aad = b"header";

    let ct = seal(&key, &nonce, msg, aad).unwrap();
    assert_ne!(&ct[..msg.len()], msg, "密文不应等于明文");
    assert_eq!(ct.len(), msg.len() + TAG_LEN, "应为 密文||标签");

    let pt = open(&key, &nonce, &ct, aad).unwrap();
    assert_eq!(pt, msg);
}

#[test]
fn tampered_ciphertext_is_rejected() {
    let key = Key32::from_bytes(random_bytes::<32>().unwrap());
    let nonce = random_bytes::<NONCE_LEN>().unwrap();
    let mut ct = seal(&key, &nonce, b"balance: 100", b"").unwrap();

    ct[0] ^= 0x01;
    assert!(open(&key, &nonce, &ct, b"").is_err(), "篡改必须被检测到");
}

#[test]
fn wrong_aad_is_rejected() {
    let key = Key32::from_bytes(random_bytes::<32>().unwrap());
    let nonce = random_bytes::<NONCE_LEN>().unwrap();
    let ct = seal(&key, &nonce, b"secret", b"header-v1").unwrap();

    assert!(open(&key, &nonce, &ct, b"header-v2").is_err(), "AAD 不符必须失败");
}

#[test]
fn wrong_key_is_rejected() {
    let k1 = Key32::from_bytes(random_bytes::<32>().unwrap());
    let k2 = Key32::from_bytes(random_bytes::<32>().unwrap());
    let nonce = random_bytes::<NONCE_LEN>().unwrap();
    let ct = seal(&k1, &nonce, b"secret", b"").unwrap();

    assert!(open(&k2, &nonce, &ct, b"").is_err());
}

#[test]
fn kdf_is_deterministic_and_salt_dependent() {
    let p = fast_for_tests();
    let a = derive_kek(b"hunter2", b"salt-aaaaaaaaaaa", p).unwrap();
    let b = derive_kek(b"hunter2", b"salt-aaaaaaaaaaa", p).unwrap();
    let c = derive_kek(b"hunter2", b"salt-bbbbbbbbbbb", p).unwrap();

    assert_eq!(a.as_bytes(), b.as_bytes(), "同口令同盐必须得到同密钥");
    assert_ne!(a.as_bytes(), c.as_bytes(), "换盐必须换密钥（这就是盐的作用）");
}

#[test]
fn kdf_params_change_the_key() {
    let salt = b"salt-aaaaaaaaaaa";
    let a = derive_kek(b"pw", salt, KdfParams { m_cost: 8, t_cost: 1, p_cost: 1 }).unwrap();
    let b = derive_kek(b"pw", salt, KdfParams { m_cost: 8, t_cost: 2, p_cost: 1 }).unwrap();
    assert_ne!(a.as_bytes(), b.as_bytes());
}

#[test]
fn random_bytes_are_not_constant() {
    let a = random_bytes::<32>().unwrap();
    let b = random_bytes::<32>().unwrap();
    assert_ne!(a, b);
    assert_ne!(a, [0u8; 32]);
}

#[test]
fn kdf_gives_the_published_argon2id_value() {
    let p = KdfParams { m_cost: 256, t_cost: 2, p_cost: 1 };
    let k = derive_kek(b"password", b"somesalt", p).unwrap();
    let want = hex("9dfeb910e80bad0311fee20f9c0e2b12c17987b4cac90c2ef54d5b3021c68bfe");
    assert_eq!(k.as_bytes().to_vec(), want);
}

#[test]
fn seal_gives_the_published_xchacha_value() {
    let mut key = [0u8; 32];
    for i in 0..32u8 {
        key[i as usize] = 0x80 + i;
    }
    let mut nonce = [0u8; 24];
    for i in 0..24u8 {
        nonce[i as usize] = 0x40 + i;
    }
    let aad = hex("50515253c0c1c2c3c4c5c6c7");
    let msg = b"Ladies and Gentlemen of the class of '99: If I could offer you only one tip for the future, sunscreen would be it.";
    let ct = seal(&Key32::from_bytes(key), &nonce, msg, &aad).unwrap();
    assert_eq!(ct[..16].to_vec(), hex("bd6d179d3e83d43b9576579493c0e939"));
    assert_eq!(ct[msg.len()..].to_vec(), hex("c0875924c1c7987947deafd8780acf49"));
}

#[test]
fn an_altered_tag_or_a_short_ciphertext_is_rejected() {
    let key = Key32::from_bytes([7; 32]);
    let mut ct = seal(&key, &[1; 24], b"", b"aad").unwrap();
    assert_eq!(ct.len(), 16);
    assert!(open(&key, &[1; 24], &ct, b"aad").unwrap().is_empty());
    ct[15] ^= 0x80;
    assert!(matches!(open(&key, &[1; 24], &ct, b"aad"), Err(Error::Unauthenticated)));
    assert!(matches!(open(&key, &[1; 24], &ct[..15], b"aad"), Err(Error::Unauthenticated)));
    assert!(matches!(open(&key, &[2; 24], b"", b"aad"), Err(Error::Unauthenticated)));
}

fn refusal(params: KdfParams, salt: &[u8]) -> String {
    match derive_kek(b"pw", salt, params) {
        Err(Error::BadKdfParams(t)) => t,
        _ => panic!("the parameters were not refused"),
    }
}

#[test]
fn kdf_refuses_bad_parameters() {
    let salt = b"salt-aaaaaaaaaaa";
    let p = |m_cost: u32, t_cost: u32, p_cost: u32| KdfParams { m_cost, t_cost, p_cost };
    assert_eq!(refusal(p(7, 1, 1), salt), "memory cost is too small");
    assert_eq!(refusal(p(15, 1, 2), salt), "memory cost is too small");
    assert_eq!(refusal(p(8, 0, 1), salt), "time cost is too small");
    assert_eq!(refusal(p(8, 1, 0), salt), "not enough threads");
    assert_eq!(refusal(p(8 * 0x100_0000, 1, 0x100_0000), salt), "too many threads");
    assert_eq!(refusal(p(8, 1, 1), b"short"), "salt is too short");
    assert_eq!(refusal(p(u32::MAX, 1, 0x2000_0000), salt), "memory cost is too small");
    assert_eq!(refusal(p(8, 1, u32::MAX), salt), "memory cost is too small");
}

#[test]
fn default_costs() {
    assert_eq!(KdfParams::default(), KdfParams { m_cost: 64 * 1024, t_cost: 3, p_cost: 4 });
}

#[test]
fn a_hash_becomes_a_key_and_a_refusal_an_error() {
    assert_eq!(key_of_hash(Ok([3; 32])).unwrap().as_bytes(), &[3; 32]);
    match key_of_hash(Err("no".to_string())) {
        Err(Error::BadKdfParams(t)) => assert_eq!(t, "no"),
        _ => panic!("not an error"),
    }
}

#[test]
fn a_draw_becomes_bytes_or_an_error() {
    assert_eq!(drawn_bytes::<3>(Ok([1, 2, 3])).unwrap(), [1, 2, 3]);
    match drawn_bytes::<3>(Err("no source".to_string())) {
        Err(Error::Random(t)) => assert_eq!(t, "no source"),
        _ => panic!("not an error"),
    }
}
