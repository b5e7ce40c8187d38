use serde_json::{Map as JsonMap, Value};

use lokal::crypto::KdfParams;
use lokal::shell::{
    assess_password, check_input, check_master_password, check_no_vault, create_vault,
    generate_password, parse_id, password_of_line, strength_view, view_of, EntryInput, EntryView, Session,
};
use lokal::strength::assessment_of;
use lokal::{Category, Entry, EntryId, Vault};

fn fields(v: &EntryView) -> Value {
    let mut s = JsonMap::new();
    s.insert("level".to_string(), Value::from(v.strength.level));
    s.insert("percent".to_string(), Value::from(v.strength.percent));
    s.insert("score".to_string(), Value::from(v.strength.score));
    let mut m = JsonMap::new();
    m.insert("id".to_string(), Value::from(v.id.clone()));
    m.insert("name".to_string(), Value::from(v.name.clone()));
    m.insert("username".to_string(), Value::from(v.username.clone()));
    m.insert("url".to_string(), Value::from(v.url.clone()));
    m.insert("notes".to_string(), Value::from(v.notes.clone()));
    m.insert("category".to_string(), Value::from(format!("{:?}", v.category)));
    m.insert("initial".to_string(), Value::from(v.initial.clone()));
    m.insert("strength".to_string(), Value::Object(s));
    Value::Object(m)
}

#[test]
fn entry_view_never_carries_a_password() {
    let e = Entry::new("Site", "user@example.com", "s3cr3t-unique-token", Category::Work);
    let json = serde_json::to_string(&fields(&view_of(&e))).unwrap();

    assert!(!json.contains("s3cr3t-unique-token"), "密码泄漏进了 EntryView：{json}");
    assert!(!json.contains("password"), "EntryView 不应有 password 字段：{json}");
    assert!(json.contains("Site") && json.contains("strength"));
}

#[test]
fn views_show_everything_else() {
    let e = Entry::new("zürich", "u", "password", Category::Banking)
        .with_url("z.example")
        .with_notes("n");
    let v = view_of(&e);
    assert_eq!(v.id, e.id.to_text());
    assert_eq!((v.name.as_str(), v.username.as_str()), ("zürich", "u"));
    assert_eq!((v.url.as_str(), v.notes.as_str()), ("z.example", "n"));
    assert_eq!(v.category, Category::Banking);
    assert_eq!(v.initial, "Z");
    assert_eq!((v.strength.level, v.strength.percent), ("weak", 30));
    assert_eq!(view_of(&Entry::new("ßen", "u", "p", Category::Other)).initial, "SS");
    assert_eq!(view_of(&Entry::new("", "u", "p", Category::Other)).initial, "");
    assert_eq!(view_of(&Entry::new("中文", "u", "p", Category::Other)).initial, "中");
}

#[test]
fn names_of_an_entry_count_against_its_password() {
    let named = view_of(&Entry::new("Zorbulon", "u", "zorbulon7", Category::Other));
    let other = view_of(&Entry::new("Site", "u", "zorbulon7", Category::Other));
    assert!(named.strength.score < other.strength.score);
    assert_eq!(assess_password("zorbulon7", &["Zorbulon", "u", ""]).score, named.strength.score);
}

#[test]
fn grades_have_names() {
    let levels: Vec<(&str, u8, u8)> = (0..5u8)
        .map(|score| strength_view(assessment_of(1, score)))
        .map(|v| (v.level, v.percent, v.score))
        .collect();
    assert_eq!(
        levels,
        [("weak", 30, 0), ("weak", 30, 1), ("fair", 60, 2), ("fair", 60, 3), ("strong", 100, 4)]
    );
}

fn input(id: Option<String>, name: &str, password: &str) -> EntryInput {
    EntryInput {
        id,
        name: name.to_string(),
        username: "user".to_string(),
        password: password.to_string(),
        url: "url".to_string(),
        notes: "notes".to_string(),
        category: Category::Social,
    }
}

#[test]
fn name_and_password_are_required() {
    assert!(check_input(&input(None, "n", "p")).is_ok());
    for (n, p) in [("", "p"), (" \t\u{3000}", "p"), ("n", "")] {
        assert_eq!(check_input(&input(None, n, p)).unwrap_err(), "名称和密码为必填项");
    }
    assert!(check_input(&input(None, "n", " ")).is_ok());
}

#[test]
fn master_passwords_have_eight_characters() {
    assert_eq!(check_master_password("1234567").unwrap_err(), "主口令至少 8 个字符");
    assert_eq!(check_master_password("").unwrap_err(), "主口令至少 8 个字符");
    assert!(check_master_password("12345678").is_ok());
    assert!(check_master_password("口令口令口令口令").is_ok());
    assert!(check_master_password("口令口令口令口").is_err());
    assert!(check_master_password("a rather long master password").is_ok());
}

#[test]
fn there_is_one_vault_only() {
    assert!(check_no_vault(false).is_ok());
    assert_eq!(check_no_vault(true).unwrap_err(), "此设备上已存在保险库");
}

#[test]
fn ids_are_checked() {
    assert_eq!(parse_id("nonsense").unwrap_err(), "条目 id 非法");
    let id = EntryId::random();
    assert_eq!(parse_id(&id.to_text()).unwrap(), id);
}

#[test]
fn passwords_are_read_from_lines() {
    assert_eq!(password_of_line("pw\r\n").expose(), "pw");
    assert_eq!(password_of_line("pw \n\n").expose(), "pw ");
    assert_eq!(password_of_line("\r\n").expose(), "");
    assert_eq!(password_of_line("a\nb").expose(), "a\nb");
}

#[test]
fn passwords_are_generated_on_request() {
    let p = generate_password(12, true, false).unwrap();
    assert_eq!(p.chars().count(), 12);
    assert!(p.chars().any(|c| c.is_ascii_digit()));
    assert!(p.chars().all(|c| c.is_ascii_alphanumeric()));
}

fn session() -> Session {
    let kdf = KdfParams { m_cost: 8, t_cost: 1, p_cost: 1 };
    let mut s = Session::new();
    s.unlock(Vault::create_with_params("master-pw", kdf).unwrap());
    s
}

const LOCKED: &str = "保险库已锁定";

#[test]
fn a_locked_session_gives_nothing() {
    let mut s = session();
    assert!(s.is_unlocked());
    s.lock();
    assert!(!s.is_unlocked());
    let id = EntryId::random();
    assert_eq!(s.list_entries("", None).err().unwrap(), LOCKED);
    assert_eq!(s.get_entry(&id.to_text()).err().unwrap(), LOCKED);
    assert_eq!(s.get_entry("bad").err().unwrap(), "条目 id 非法");
    assert_eq!(s.reveal_password(&id.to_text()).unwrap_err(), LOCKED);
    assert_eq!(s.save_entry(&input(Some("bad".to_string()), "n", "p")).unwrap_err(), LOCKED);
    assert_eq!(s.delete_entry(id).unwrap_err(), LOCKED);
    assert_eq!(s.erase_all().unwrap_err(), LOCKED);
    assert_eq!(s.change_master_password("another-pw").unwrap_err(), LOCKED);
    assert_eq!(s.set_auto_backup(None).unwrap_err(), LOCKED);
    assert_eq!(s.vault_stats(0, &Vec::new(), None).err().unwrap(), LOCKED);
    assert_eq!(s.vault().err().unwrap(), LOCKED);
    assert_eq!(s.vault_mut().err().unwrap(), LOCKED);
}

#[test]
fn entries_are_added_changed_and_removed() {
    let mut s = session();
    let id = s.save_entry(&input(None, "First", "pw-1")).unwrap();
    s.save_entry(&input(None, "Second", "pw-2")).unwrap();
    assert_eq!(s.list_entries("", None).unwrap_or_default().len(), 2);
    assert_eq!(s.reveal_password(&id.to_text()).unwrap(), "pw-1");

    let changed = s.save_entry(&input(Some(id.to_text()), "Changed", "pw-3")).unwrap();
    assert_eq!(changed, id);
    let v = s.get_entry(&id.to_text()).unwrap_or_else(|m| panic!("{m}"));
    assert_eq!(v.name, "Changed");
    assert_eq!(s.reveal_password(&id.to_text()).unwrap(), "pw-3");
    assert_eq!(s.list_entries("second", Some(Category::Social)).unwrap_or_default().len(), 1);
    assert_eq!(s.list_entries("", Some(Category::Work)).unwrap_or_default().len(), 0);

    let missing = EntryId::random();
    for text in [missing.to_text(), "bad".to_string()] {
        let want = if text == "bad" { "条目 id 非法" } else { "找不到条目" };
        assert_eq!(s.save_entry(&input(Some(text.clone()), "n", "p")).unwrap_err(), want);
        assert_eq!(s.get_entry(&text).err().unwrap(), want);
        assert_eq!(s.reveal_password(&text).unwrap_err(), want);
    }
    assert_eq!(s.delete_entry(missing).unwrap_err(), "找不到条目");
    s.delete_entry(id).unwrap();
    assert_eq!(s.list_entries("", None).unwrap_or_default().len(), 1);
    s.erase_all().unwrap();
    assert_eq!(s.list_entries("", None).unwrap_or_default().len(), 0);
}

#[test]
fn a_new_master_password_opens_the_vault() {
    let mut s = session();
    s.change_master_password("another-pw").unwrap();
    let vault = s.vault().unwrap_or_else(|m| panic!("{m}"));
    let bytes = vault.to_bytes(&mut b"{}".to_vec()).unwrap();
    assert!(Vault::from_bytes(&bytes, "another-pw").is_ok());
    assert!(Vault::from_bytes(&bytes, "master-pw").is_err());
}

#[test]
fn statistics() {
    let mut s = session();
    s.save_entry(&input(None, "n", "p")).unwrap();
    let names: Vec<String> = ["lokal-auto-20260729-08Z.lokal", "other", "lokal-auto-20260729-07Z.lokal"]
        .iter()
        .map(|n| n.to_string())
        .collect();
    let off = s.vault_stats(99, &names, None).unwrap_or_else(|m| panic!("{m}"));
    assert_eq!((off.count, off.size_bytes, off.auto_backup_count), (1, 99, 0));
    assert_eq!((off.auto_backup_dir, off.auto_backup_latest), (None, None));

    s.set_auto_backup(Some("/mnt".to_string())).unwrap();
    let on = s.vault_stats(99, &names, Some("e".to_string())).unwrap_or_else(|m| panic!("{m}"));
    assert_eq!(on.auto_backup_dir.as_deref(), Some("/mnt"));
    assert_eq!(on.auto_backup_count, 2);
    assert_eq!(on.auto_backup_latest.as_deref(), Some("20260729-08Z"));
    assert_eq!(on.auto_backup_error.as_deref(), Some("e"));
    let vault = s.vault_mut().unwrap_or_else(|m| panic!("{m}"));
    assert_eq!(vault.settings().auto_backup_keep, 24);
}

#[test]
fn incomplete_entries_are_not_saved() {
    let mut s = session();
    let id = s.save_entry(&input(None, "First", "pw-1")).unwrap();
    for locked in [false, true] {
        for (name, password) in [("", "p"), (" \t\u{3000}", "p"), ("n", "")] {
            for target in [None, Some(id.to_text()), Some("bad".to_string())] {
                let got = s.save_entry(&input(target, name, password));
                assert_eq!(got.unwrap_err(), "名称和密码为必填项");
            }
        }
        assert_eq!(s.is_unlocked(), !locked);
        if !locked {
            assert_eq!(s.list_entries("", None).unwrap_or_default().len(), 1);
            assert_eq!(s.reveal_password(&id.to_text()).unwrap(), "pw-1");
            s.lock();
        }
    }
}

#[test]
fn entries_are_saved_as_of_a_moment() {
    let mut s = session();
    let fresh = EntryId { value: 9 };
    assert_eq!(s.save_entry_at(&input(None, "First", "pw-1"), fresh, 100).unwrap(), fresh);
    let again = input(Some(fresh.to_text()), "Second", "pw-2");
    assert_eq!(s.save_entry_at(&again, EntryId { value: 10 }, 200).unwrap(), fresh);
    let vault = s.vault().unwrap_or_else(|m| panic!("{m}"));
    assert_eq!(vault.len(), 1);
    let e = vault.get(fresh).unwrap();
    assert_eq!((e.created_at, e.updated_at), (100, 200));
    assert_eq!((e.name.as_str(), e.password.expose()), ("Second", "pw-2"));
}

#[test]
fn short_master_passwords_are_refused_first() {
    let mut s = session();
    assert_eq!(s.change_master_password("1234567").unwrap_err(), "主口令至少 8 个字符");
    let vault = s.vault().unwrap_or_else(|m| panic!("{m}"));
    let bytes = vault.to_bytes(&mut b"{}".to_vec()).unwrap();
    assert!(Vault::from_bytes(&bytes, "master-pw").is_ok());
    s.lock();
    assert_eq!(s.change_master_password("1234567").unwrap_err(), "主口令至少 8 个字符");
    assert_eq!(s.change_master_password("12345678").unwrap_err(), LOCKED);
}

#[test]
fn a_vault_is_made_once() {
    assert_eq!(create_vault("1234567", true).err().unwrap(), "主口令至少 8 个字符");
    assert_eq!(create_vault("12345678", true).err().unwrap(), "此设备上已存在保险库");
    let vault = create_vault("12345678", false).unwrap_or_else(|m| panic!("{m}"));
    assert_eq!(vault.len(), 0);
}
