use serde_json::{Map as JsonMap, Value};

use lokal::crypto::KdfParams;
use lokal::vault::{key_of_unwrapped, OpenedVault};
use lokal::{Category, Entry, EntryId, Error, Key32, Secret, Vault, VaultData, VaultSettings};

// -- the content as JSON ------------------------------------------------------

fn category_name(c: Category) -> &'static str {
    match c {
        Category::Social => "Social",
        Category::Banking => "Banking",
        Category::Work => "Work",
        Category::Shopping => "Shopping",
        Category::Other => "Other",
    }
}

fn category_of(name: &str) -> Category {
    *Category::ALL.iter().find(|c| category_name(**c) == name).unwrap()
}

fn content_of(v: &Vault) -> Vec<u8> {
    let mut entries = Vec::new();
    for e in v.entries() {
        let mut m = JsonMap::new();
        m.insert("id".to_string(), Value::from(e.id.to_text()));
        m.insert("name".to_string(), Value::from(e.name.clone()));
        m.insert("username".to_string(), Value::from(e.username.clone()));
        m.insert("password".to_string(), Value::from(e.password.expose()));
        m.insert("url".to_string(), Value::from(e.url.clone()));
        m.insert("notes".to_string(), Value::from(e.notes.clone()));
        m.insert("category".to_string(), Value::from(category_name(e.category)));
        m.insert("created_at".to_string(), Value::from(e.created_at));
        m.insert("updated_at".to_string(), Value::from(e.updated_at));
        entries.push(Value::Object(m));
    }
    let mut doc = JsonMap::new();
    doc.insert("entries".to_string(), Value::Array(entries));
    serde_json::to_vec(&Value::Object(doc)).unwrap()
}

fn data_of(content: &[u8]) -> VaultData {
    let doc: Value = serde_json::from_slice(content).unwrap();
    let text = |v: &Value, k: &str| v.get(k).unwrap().as_str().unwrap().to_string();
    let mut entries = Vec::new();
    for e in doc.get("entries").unwrap().as_array().unwrap() {
        entries.push(Entry {
            id: EntryId::parse(&text(e, "id")).unwrap(),
            name: text(e, "name"),
            username: text(e, "username"),
            password: Secret::new(text(e, "password")),
            url: text(e, "url"),
            notes: text(e, "notes"),
            category: category_of(&text(e, "category")),
            created_at: e.get("created_at").unwrap().as_u64().unwrap(),
            updated_at: e.get("updated_at").unwrap().as_u64().unwrap(),
        });
    }
    VaultData { entries, settings: VaultSettings::default() }
}

fn bytes_of(v: &Vault) -> Vec<u8> {
    let mut content = content_of(v);
    let bytes = v.to_bytes(&mut content).unwrap();
    assert!(content.is_empty(), "the content is wiped");
    bytes
}

fn opened(bytes: &[u8], password: &str) -> Result<Vault, Error> {
    let o: OpenedVault = Vault::from_bytes(bytes, password)?;
    let data = data_of(o.plaintext());
    Ok(o.into_vault(data))
}

// -- vaults -------------------------------------------------------------------

fn fast() -> KdfParams {
    KdfParams { m_cost: 8, t_cost: 1, p_cost: 1 }
}

fn seeded() -> Vault {
    let mut v = Vault::create_with_params("master-correct-horse", fast()).unwrap();
    v.add(
        Entry::new("Northwind Bank", "anna.k@mail.com", "K9#vLm2$pQx7!wRz", Category::Banking)
            .with_url("northwind.bank")
            .with_notes("Ask branch for wire limit increase."),
    );
    v.add(Entry::new("Pixelgram", "@anna.codes", "sunfl0wer-Dune-42", Category::Social));
    v.add(Entry::new("Mailbox Pro", "anna.k@mail.com", "Tr4in-Harbor-Lamp!", Category::Work));
    v
}

#[test]
fn roundtrip_preserves_everything() {
    let v = seeded();
    let bytes = bytes_of(&v);
    let back = opened(&bytes, "master-correct-horse").unwrap();

    assert_eq!(back.len(), 3);
    let bank = back.entries().iter().find(|e| e.name == "Northwind Bank").unwrap();
    assert_eq!(bank.password.expose(), "K9#vLm2$pQx7!wRz");
    assert_eq!(bank.url, "northwind.bank");
    assert_eq!(bank.category, Category::Banking);
    assert_eq!(bank.notes, "Ask branch for wire limit increase.");
}

#[test]
fn wrong_password_fails() {
    let v = seeded();
    let bytes = bytes_of(&v);
    assert!(matches!(
        Vault::from_bytes(&bytes, "master-correct-hors"),
        Err(Error::Unauthenticated)
    ));
}

#[test]
fn plaintext_never_appears_in_the_file() {
    let v = seeded();
    let bytes = bytes_of(&v);
    for needle in [
        "K9#vLm2$pQx7!wRz",
        "Northwind Bank",
        "anna.k@mail.com",
        "northwind.bank",
        "Ask branch for wire limit increase.",
        "master-correct-horse",
    ] {
        assert!(
            !bytes.windows(needle.len()).any(|w| w == needle.as_bytes()),
            "明文 {needle:?} 出现在了保险库文件里"
        );
    }
}

#[test]
fn every_save_produces_different_bytes() {
    let v = seeded();
    let a = bytes_of(&v);
    let b = bytes_of(&v);
    assert_ne!(a, b);
    assert_eq!(a.len(), b.len());
}

#[test]
fn tampering_with_ciphertext_is_detected() {
    let v = seeded();
    let mut bytes = bytes_of(&v);
    let last = bytes.len() - 1;
    bytes[last] ^= 0x01;
    assert!(Vault::from_bytes(&bytes, "master-correct-horse").is_err());
}

#[test]
fn kdf_downgrade_attack_is_detected() {
    let v = Vault::create_with_params(
        "pw-under-test",
        KdfParams { m_cost: 64, t_cost: 2, p_cost: 1 },
    )
    .unwrap();
    let mut bytes = bytes_of(&v);
    bytes[8..12].copy_from_slice(&1u32.to_le_bytes());
    assert!(Vault::from_bytes(&bytes, "pw-under-test").is_err());
    assert!(matches!(
        Vault::from_bytes(&bytes, "pw-under-test"),
        Err(Error::Unauthenticated)
    ));
}

#[test]
fn salt_tampering_is_detected() {
    let v = seeded();
    let mut bytes = bytes_of(&v);
    bytes[20] ^= 0xff;
    assert!(Vault::from_bytes(&bytes, "master-correct-horse").is_err());
}

#[test]
fn bad_magic_and_version_are_reported_clearly() {
    let v = seeded();
    let bytes = bytes_of(&v);

    let mut wrong_magic = bytes.clone();
    wrong_magic[0] = b'X';
    assert!(matches!(Vault::from_bytes(&wrong_magic, "x"), Err(Error::BadMagic)));

    let mut wrong_ver = bytes.clone();
    wrong_ver[6] = 99;
    assert!(matches!(
        Vault::from_bytes(&wrong_ver, "x"),
        Err(Error::UnsupportedVersion { found: 99, supported: 1 })
    ));

    assert!(matches!(Vault::from_bytes(&bytes[..10], "x"), Err(Error::Truncated)));
}

#[test]
fn changing_master_password_rewraps_only_the_key() {
    let mut v = seeded();
    let old = bytes_of(&v);

    v.change_master_password("a-brand-new-master").unwrap();
    let new = bytes_of(&v);

    assert!(Vault::from_bytes(&new, "master-correct-horse").is_err());
    let back = opened(&new, "a-brand-new-master").unwrap();
    assert_eq!(back.len(), 3);
    assert_eq!(
        back.entries().iter().find(|e| e.name == "Pixelgram").unwrap().password.expose(),
        "sunfl0wer-Dune-42"
    );

    assert_ne!(&old[20..36], &new[20..36]);
}

#[test]
fn crud_works() {
    let mut v = seeded();
    let id = v.add(Entry::new("ShopCart", "annak", "meadow77", Category::Shopping));
    assert_eq!(v.len(), 4);

    v.update(id, |e: &mut Entry| e.password = "a-much-better-one".into()).unwrap();
    assert_eq!(v.get(id).unwrap().password.expose(), "a-much-better-one");

    v.delete(id).unwrap();
    assert_eq!(v.len(), 3);
    assert!(matches!(v.delete(id), Err(Error::EntryNotFound)));
}

#[test]
fn search_filters_by_query_and_category() {
    let v = seeded();
    assert_eq!(v.search("", None).len(), 3);
    assert_eq!(v.search("", Some(Category::Work)).len(), 1);
    assert_eq!(v.search("mail", None).len(), 2);
    assert_eq!(v.search("mail", Some(Category::Banking)).len(), 1);
    assert_eq!(v.search("nonexistent", None).len(), 0);
}

// -- where the vault is kept, and backups ------------------------------------

#[test]
fn export_does_not_repoint_the_vault() {
    let mut v = seeded();
    match v.save_target() {
        Err(Error::Io(t)) => assert_eq!(t, "尚未指定保险库路径"),
        _ => panic!("a vault that was never saved has no place"),
    }
    let live = std::path::PathBuf::from("vault.lokal");
    v.finish_save(live.clone(), Ok(())).unwrap();
    let backup = bytes_of(&v);

    v.add(Entry::new("AfterExport", "u", "p", Category::Other));
    assert_eq!(v.save_target().unwrap(), &live);
    let saved = bytes_of(&v);
    assert_eq!(opened(&saved, "master-correct-horse").unwrap().len(), 4, "新条目应写进原库");
    assert_eq!(opened(&backup, "master-correct-horse").unwrap().len(), 3, "备份应停留在导出那一刻");

    let elsewhere = std::path::PathBuf::from("elsewhere.lokal");
    assert!(v.finish_save(elsewhere.clone(), Err(Error::Io("disk full".to_string()))).is_err());
    assert_eq!(v.save_target().unwrap(), &live);
    v.finish_save(elsewhere.clone(), Ok(())).unwrap();
    assert_eq!(v.save_target().unwrap(), &elsewhere);
}

#[test]
fn backup_opens_with_the_same_master_password() {
    let backup = bytes_of(&seeded());
    let back = opened(&backup, "master-correct-horse").unwrap();
    assert_eq!(back.len(), 3);
    assert_eq!(
        back.entries().iter().find(|e| e.name == "Pixelgram").unwrap().password.expose(),
        "sunfl0wer-Dune-42"
    );
    assert!(Vault::from_bytes(&backup, "wrong").is_err());
}

#[test]
fn backup_taken_before_password_change_still_opens_with_the_old_one() {
    let mut v = seeded();
    let backup = bytes_of(&v);
    v.change_master_password("a-brand-new-master").unwrap();

    assert!(Vault::from_bytes(&backup, "a-brand-new-master").is_err(), "新口令开不了旧备份");
    assert!(Vault::from_bytes(&backup, "master-correct-horse").is_ok(), "旧备份仍认旧口令");
}

#[test]
fn full_backup_cycle_restores_exactly() {
    let pw = "cycle-master-pw";
    let mut v = Vault::create_with_params(pw, fast()).unwrap();
    for i in 0..2 {
        v.add(Entry::new(&format!("Site{i}"), "u", "p", Category::Other));
    }
    let backup = bytes_of(&v);
    for i in 0..3 {
        v.add(Entry::new(&format!("Later{i}"), "u", "p", Category::Work));
    }
    assert_eq!(opened(&bytes_of(&v), pw).unwrap().len(), 5);

    let after = opened(&backup, pw).unwrap();
    assert_eq!(after.len(), 2, "应精确回到导出那一刻");
    assert!(after.entries().iter().all(|e| e.name.starts_with("Site")), "不该残留后加的条目");
}

#[test]
fn erasing_everything_does_not_destroy_older_backups() {
    let mut v = Vault::create_with_params("erase-master-pw", fast()).unwrap();
    for i in 0..5 {
        v.add(Entry::new(&format!("Site{i}"), "u", "p", Category::Other));
    }
    v.settings_mut().auto_backup_keep = 3;
    let old = bytes_of(&v);
    v.erase_all();
    assert!(v.is_empty());
    assert_eq!(v.settings().auto_backup_keep, 3);
    assert_eq!(opened(&bytes_of(&v), "erase-master-pw").unwrap().len(), 0);
    assert_eq!(opened(&old, "erase-master-pw").unwrap().len(), 5, "旧备份里的 5 条必须完好");
}

// -- exact values -------------------------------------------------------------

#[test]
fn a_file_is_the_header_and_the_sealed_content() {
    let kek = Key32::from_bytes([1; 32]);
    let key = Key32::from_bytes([2; 32]);
    let v = Vault::from_keys(&kek, fast(), [3; 16], key, [4; 24]).unwrap();
    let mut content = b"content".to_vec();
    let bytes = v.to_bytes_with_nonce(&mut content, [5; 24]).unwrap();
    assert!(content.is_empty());
    assert_eq!(bytes.len(), 132 + 7 + 16);
    assert_eq!(&bytes[0..8], b"LOKAL1\x01\x01");
    assert_eq!(&bytes[8..20], &[8, 0, 0, 0, 1, 0, 0, 0, 1, 0, 0, 0]);
    assert_eq!(&bytes[20..36], &[3; 16]);
    assert_eq!(&bytes[36..60], &[4; 24]);
    assert_eq!(
        lokal::crypto::open(&kek, &[4; 24], &bytes[60..108], &bytes[..36]).unwrap(),
        vec![2; 32]
    );
    assert_eq!(&bytes[108..132], &[5; 24]);
    assert_eq!(
        lokal::crypto::open(&Key32::from_bytes([2; 32]), &[5; 24], &bytes[132..], &bytes[..132]).unwrap(),
        b"content"
    );
}

#[test]
fn every_byte_of_a_file_is_authenticated() {
    let v = Vault::create_with_params("pw", fast()).unwrap();
    let bytes = bytes_of(&v);
    assert!(Vault::from_bytes(&bytes, "pw").is_ok());
    for i in (0..8).chain(20..bytes.len()) {
        let mut altered = bytes.clone();
        altered[i] ^= 0x10;
        assert!(Vault::from_bytes(&altered, "pw").is_err(), "byte {i}");
    }
    assert!(Vault::from_bytes(&bytes[..bytes.len() - 1], "pw").is_err());
}

#[test]
fn an_unknown_key_derivation_is_named() {
    let mut bytes = bytes_of(&seeded());
    bytes[7] = 42;
    match Vault::from_bytes(&bytes, "x") {
        Err(Error::BadKdfParams(t)) => assert_eq!(t, "未知 KDF 标识 42"),
        _ => panic!("the key derivation is not known"),
    }
}

#[test]
fn refused_costs_make_no_vault() {
    match Vault::create_with_params("pw", KdfParams { m_cost: 7, t_cost: 1, p_cost: 1 }) {
        Err(Error::BadKdfParams(t)) => assert_eq!(t, "memory cost is too small"),
        _ => panic!("the costs are refused"),
    }
}

#[test]
fn a_new_vault_is_empty() {
    let v = Vault::create("a long enough password").unwrap();
    assert!(v.is_empty());
    assert_eq!(v.len(), 0);
    assert_eq!(v.settings().auto_backup_dir, None);
    assert_eq!(v.data().settings.auto_backup_keep, 24);
    assert!(v.save_target().is_err());
}

#[test]
fn unwrapped_keys_have_32_bytes() {
    assert_eq!(key_of_unwrapped(&vec![6; 32]).unwrap().as_bytes(), &[6; 32]);
    assert!(matches!(key_of_unwrapped(&vec![6; 31]), Err(Error::Unauthenticated)));
    assert!(matches!(key_of_unwrapped(&Vec::new()), Err(Error::Unauthenticated)));
}

#[test]
fn rewrapping_keeps_the_vault_key() {
    let mut v = Vault::from_keys(&Key32::from_bytes([1; 32]), fast(), [3; 16], Key32::from_bytes([2; 32]), [4; 24]).unwrap();
    let kek = Key32::from_bytes([9; 32]);
    v.rewrap(&kek, [7; 16], [8; 24]).unwrap();
    let bytes = v.to_bytes_with_nonce(&mut b"x".to_vec(), [5; 24]).unwrap();
    assert_eq!(&bytes[20..36], &[7; 16]);
    assert_eq!(
        lokal::crypto::open(&kek, &[8; 24], &bytes[60..108], &bytes[..36]).unwrap(),
        vec![2; 32]
    );
}

#[test]
fn updates_touch_one_entry_and_stamp_it() {
    let mut v = seeded();
    let id = v.entries()[1].id;
    let others: Vec<(EntryId, String)> =
        [0usize, 2].iter().map(|i| (v.entries()[*i].id, v.entries()[*i].name.clone())).collect();
    v.update(id, |e: &mut Entry| {
        e.name = "Renamed".to_string();
        e.updated_at = 0;
    })
    .unwrap();
    assert_eq!(v.entries()[1].name, "Renamed");
    assert!(v.entries()[1].updated_at >= v.entries()[1].created_at);
    for (k, i) in [0usize, 2].iter().enumerate() {
        assert_eq!((v.entries()[*i].id, v.entries()[*i].name.clone()), others[k]);
    }
    let missing = EntryId::random();
    assert!(matches!(v.update(missing, |_e: &mut Entry| ()), Err(Error::EntryNotFound)));
    assert!(v.get(missing).is_none());
}

#[test]
fn deleting_keeps_the_order_of_the_rest() {
    let mut v = seeded();
    let id = v.entries()[0].id;
    let mut twin = Entry::new("Twin", "t", "p", Category::Other);
    twin.id = id;
    v.add(twin);
    v.delete(id).unwrap();
    let names: Vec<&str> = v.entries().iter().map(|e| e.name.as_str()).collect();
    assert_eq!(names, ["Pixelgram", "Mailbox Pro"]);
}

#[test]
fn searches_keep_the_order() {
    let v = seeded();
    let names: Vec<&str> = v.search("ANNA", None).iter().map(|e| e.name.as_str()).collect();
    assert_eq!(names, ["Northwind Bank", "Pixelgram", "Mailbox Pro"]);
}

#[test]
fn messages() {
    for (e, want) in [
        (Error::BadMagic, "不是有效的 Lokal 保险库文件"),
        (
            Error::UnsupportedVersion { found: 99, supported: 1 },
            "保险库格式版本 99 不受支持（本程序支持 1）",
        ),
        (Error::Truncated, "保险库文件已损坏或被截断"),
        (Error::Unauthenticated, "无法解锁保险库：口令错误或文件已被篡改"),
        (Error::BadKdfParams("x".to_string()), "KDF 参数非法：x"),
        (Error::EntryNotFound, "找不到条目"),
        (Error::Random("r".to_string()), "系统随机源不可用：r"),
        (Error::Json("j".to_string()), "保险库内容不是合法 JSON：j"),
        (Error::Io("i".to_string()), "文件读写失败：i"),
    ] {
        assert_eq!(e.message(), want);
    }
}

#[test]
fn altered_costs_look_like_a_wrong_password() {
    let bytes = bytes_of(&seeded());
    assert!(matches!(Vault::from_bytes(&bytes, "wrong"), Err(Error::Unauthenticated)));
    for (at, cost) in [(8usize, 0u32), (8, 1), (8, 7), (12, 0), (16, 0), (16, 0x0100_0000)] {
        let mut altered = bytes.clone();
        altered[at..at + 4].copy_from_slice(&cost.to_le_bytes());
        assert!(
            matches!(
                Vault::from_bytes(&altered, "master-correct-horse"),
                Err(Error::Unauthenticated)
            ),
            "cost {cost} at {at}"
        );
    }
}

#[test]
fn updates_carry_the_given_moment() {
    let mut v = seeded();
    let id = v.entries()[1].id;
    let made = v.entries()[1].created_at;
    v.update_at(id, |e: &mut Entry| e.name = "Renamed".to_string(), 1_753_800_000_123).unwrap();
    assert_eq!(v.entries()[1].name, "Renamed");
    assert_eq!(v.entries()[1].updated_at, 1_753_800_000_123);
    assert_eq!(v.entries()[1].created_at, made);
    let missing = EntryId { value: 0 };
    assert!(matches!(
        v.update_at(missing, |e: &mut Entry| e.name = String::new(), 5),
        Err(Error::EntryNotFound)
    ));
    assert_eq!(v.entries()[1].updated_at, 1_753_800_000_123);
}

#[test]
fn a_new_master_password_has_a_new_salt() {
    let mut v = seeded();
    let before = bytes_of(&v);
    v.change_master_password("another-master-password").unwrap();
    let after = bytes_of(&v);
    assert_eq!(before[..20], after[..20]);
    assert_ne!(before[20..36], after[20..36]);
    assert!(Vault::from_bytes(&after, "another-master-password").is_ok());
    assert!(matches!(
        Vault::from_bytes(&after, "master-correct-horse"),
        Err(Error::Unauthenticated)
    ));
    assert!(Vault::from_bytes(&before, "master-correct-horse").is_ok());
}

#[test]
fn files_of_one_vault_differ_from_the_nonce_on() {
    let v = seeded();
    let (a, b) = (bytes_of(&v), bytes_of(&v));
    assert_eq!(a.len(), b.len());
    assert_eq!(a[..108], b[..108]);
    assert_ne!(a[108..132], b[108..132]);
}
