use lokal::clock::{millis_at, millis_of, now_secs, secs_at};
use lokal::model::{default_keep, now_millis};
use lokal::{Category, Entry, EntryId, Key32, Secret, VaultData, VaultSettings};

#[test]
fn search_matches_name_and_username_case_insensitively() {
    let e = Entry::new("Northwind Bank", "anna.k@mail.com", "pw", Category::Banking);
    assert!(e.matches("northwind"));
    assert!(e.matches("BANK"));
    assert!(e.matches("anna.k"));
    assert!(e.matches(""));
    assert!(!e.matches("pixelgram"));
}

#[test]
fn search_never_matches_the_password() {
    let e = Entry::new("Site", "user", "s3cr3t-unique-token", Category::Other);
    assert!(!e.matches("s3cr3t-unique-token"));
}

#[test]
fn ids_are_unique() {
    let a = Entry::new("a", "u", "p", Category::Other);
    let b = Entry::new("a", "u", "p", Category::Other);
    assert_ne!(a.id, b.id);
}

#[test]
fn a_query_is_trimmed_and_matched_without_regard_to_case() {
    let e = Entry::new("ÄPFEL Straße", "ann", "pw", Category::Shopping);
    assert!(e.matches("  äpfel \t"));
    assert!(e.matches("STRASSE") == false);
    assert!(e.matches("straße"));
    assert!(e.matches(" \u{3000}\n "));
    assert!(!e.matches("ann b"));
}

#[test]
fn a_new_entry_has_what_it_was_given() {
    let e = Entry::new("Site", "user", String::from("pw"), Category::Work)
        .with_url("site.example")
        .with_notes("note");
    assert_eq!(e.name, "Site");
    assert_eq!(e.username, "user");
    assert_eq!(e.password.expose(), "pw");
    assert_eq!(e.url, "site.example");
    assert_eq!(e.notes, "note");
    assert_eq!(e.category, Category::Work);
    assert_eq!(e.created_at, e.updated_at);
    assert!(e.created_at > 1_600_000_000_000);
    let c = e.clone();
    assert_eq!(c.id, e.id);
    assert!(c.password == e.password);
}

#[test]
fn random_ids_are_version_four() {
    for _ in 0..20 {
        let v = EntryId::random().value;
        assert_eq!((v >> 76) & 0xf, 4);
        assert_eq!((v >> 62) & 3, 2);
    }
}

#[test]
fn ids_are_written_and_read() {
    let id = EntryId { value: 0x67e55044_10b1_426f_9247_bb680e5fe0c8 };
    assert_eq!(id.to_text(), "67e55044-10b1-426f-9247-bb680e5fe0c8");
    assert_eq!(EntryId::parse(&id.to_text()), Some(id));
    assert_eq!(EntryId::parse("67E5504410B1426F9247BB680E5FE0C8"), Some(id));
    assert_eq!(EntryId::parse("67e55044"), None);
    assert_eq!(EntryId::parse(""), None);
}

#[test]
fn secrets_are_compared_and_not_printed() {
    let s = Secret::new("pw".to_string());
    assert!(s == Secret::from("pw"));
    assert!(s != Secret::from("pX".to_string()));
    assert!(!s.is_empty());
    assert!(Secret::from("").is_empty());
    assert_eq!(s.redacted(), "Secret(***)");
    assert_eq!(s.clone().expose(), "pw");
    let k = Key32::from_bytes([9; 32]);
    assert_eq!(k.clone().as_bytes(), &[9; 32]);
    assert_eq!(k.redacted(), "Key32(***)");
}

#[test]
fn categories_and_defaults() {
    assert_eq!(
        Category::ALL,
        [Category::Social, Category::Banking, Category::Work, Category::Shopping, Category::Other]
    );
    assert_eq!(default_keep(), 24);
    let s = VaultSettings::default();
    assert_eq!(s.auto_backup_dir, None);
    assert_eq!(s.auto_backup_keep, 24);
    let d = VaultData::default();
    assert!(d.entries.is_empty());
    assert_eq!(d.settings.clone().auto_backup_keep, 24);
}

#[test]
fn milliseconds() {
    assert_eq!(millis_of(0, 0), 0);
    assert_eq!(millis_of(1, 999_999_999), 1999);
    assert_eq!(millis_of(1_753_800_000, 123_456_789), 1_753_800_000_123);
    assert_eq!(millis_of(u64::MAX, 0), 0u64.wrapping_sub(1000));
    let secs = now_secs();
    let millis = now_millis();
    assert!(millis / 1000 >= secs && millis / 1000 <= secs + 5);
}

#[test]
fn a_clock_before_1970_says_zero() {
    assert_eq!(millis_at(None), 0);
    assert_eq!(millis_at(Some((1_753_800_000, 123_456_789))), 1_753_800_000_123);
    assert_eq!(secs_at(None), 0);
    assert_eq!(secs_at(Some(1_753_800_000)), 1_753_800_000);
}

#[test]
fn entries_are_made_of_their_parts() {
    let id = EntryId { value: 7 };
    let e = Entry::made_at(id, 1_753_800_000_123, "Site", "user", "pw", Category::Work);
    assert_eq!(e.id, id);
    assert_eq!((e.created_at, e.updated_at), (1_753_800_000_123, 1_753_800_000_123));
    assert_eq!((e.name.as_str(), e.username.as_str()), ("Site", "user"));
    assert_eq!(e.password.expose(), "pw");
    assert_eq!((e.url.as_str(), e.notes.as_str()), ("", ""));
    assert_eq!(e.category, Category::Work);
}

#[test]
fn texts_are_taken_in_any_form() {
    let borrowed = Entry::new("Site", "user", "pw", Category::Work).with_url("u").with_notes("n");
    let owned = Entry::new("Site".to_string(), "user".to_string(), "pw".to_string(), Category::Work)
        .with_url("u".to_string())
        .with_notes("n".to_string());
    assert_eq!((&borrowed.name, &borrowed.username), (&owned.name, &owned.username));
    assert_eq!((&borrowed.url, &borrowed.notes), (&owned.url, &owned.notes));
    assert!(borrowed.password == owned.password);
    assert!(Secret::new("pw") == Secret::new("pw".to_string()));
}

#[test]
fn case_makes_no_difference_to_a_search() {
    let e = Entry::new("NorthWind", "Anna.K", "pw", Category::Banking);
    for query in ["northwind", "NORTHWIND", " nOrThW\t", "ANNA.k", "thwi"] {
        assert!(e.matches(query), "{query}");
        assert!(e.matches(&query.to_ascii_uppercase()), "{query}");
    }
    assert!(!e.matches("banking"));
}

#[test]
fn content_is_cloned() {
    let d = VaultData {
        entries: vec![Entry::new("Site", "user", "pw", Category::Work)],
        settings: VaultSettings { auto_backup_dir: Some("/mnt".to_string()), auto_backup_keep: 7 },
    };
    let c = d.clone();
    assert_eq!(c.entries.len(), 1);
    assert_eq!((c.entries[0].id, &c.entries[0].name), (d.entries[0].id, &d.entries[0].name));
    assert_eq!(c.entries[0].password.expose(), "pw");
    assert_eq!(format!("{:?}", c.settings), format!("{:?}", d.settings));
}
