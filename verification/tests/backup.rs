use lokal::backup::{
    auto_backup_name, backup_label, backup_summary, export_name, list_auto_backups,
    prune_auto_backups, rank_auto_backups,
};
use lokal::calendar::stamp;

#[test]
fn stamp_matches_known_utc_values() {
    for (secs, want) in [
        (0u64, "19700101-000000Z"),
        (951_782_400, "20000229-000000Z"),
        (1_709_164_800, "20240229-000000Z"),
        (1_234_567_890, "20090213-233130Z"),
        (4_102_444_799, "20991231-235959Z"),
        (1_753_800_000, "20250729-144000Z"),
    ] {
        assert_eq!(stamp(secs), want, "secs={secs}");
    }
}

#[test]
fn stamp_is_lexicographically_sortable() {
    let a = stamp(1_700_000_000);
    let b = stamp(1_800_000_000);
    assert!(a < b, "{a} 应排在 {b} 之前");
}

#[test]
fn auto_backup_name_is_hourly_and_sorts_by_time() {
    let h = 3600;
    let a = auto_backup_name(1_753_800_000);
    let b = auto_backup_name(1_753_800_000 + 600);
    let c = auto_backup_name(1_753_800_000 + h);

    assert_eq!(a, b, "同一小时内必须是同一个文件名——这就是去抖机制");
    assert_ne!(a, c, "跨小时必须换文件,否则没有时间深度");
    assert!(a < c, "字典序必须等于时间序：{a} vs {c}");
    assert_eq!(a, "lokal-auto-20250729-14Z.lokal");
}

fn hours(n: u32) -> Vec<String> {
    (0..n).map(|h| format!("lokal-auto-20260729-{h:02}Z.lokal")).collect()
}

fn left(names: &Vec<String>, keep: usize) -> Vec<String> {
    let doomed = prune_auto_backups(names, keep);
    names
        .iter()
        .enumerate()
        .filter(|(i, _)| !doomed.contains(i))
        .map(|(_, n)| n.clone())
        .collect()
}

#[test]
fn prune_keeps_the_newest_and_never_touches_other_files() {
    let mut names = hours(10);
    names.reverse();
    let bystanders = [
        "vault.lokal",
        "lokal-backup-20260729-000000Z.lokal",
        "lokal-auto-notes.txt",
        "important.txt",
    ];
    for f in bystanders {
        names.insert(names.len() / 2, f.to_string());
    }

    let rest = left(&names, 3);
    let kept = list_auto_backups(&rest);
    assert_eq!(kept.len(), 3, "应只保留 3 份");
    assert_eq!(
        kept,
        vec![
            "lokal-auto-20260729-07Z.lokal".to_string(),
            "lokal-auto-20260729-08Z.lokal".to_string(),
            "lokal-auto-20260729-09Z.lokal".to_string(),
        ],
        "保留的必须是最新的三份"
    );
    for f in bystanders {
        assert!(rest.iter().any(|n| n == f), "误删了不属于我们的文件：{f}");
    }
}

#[test]
fn prune_is_a_noop_when_under_the_limit() {
    let names = hours(3);
    assert_eq!(list_auto_backups(&left(&names, 24)).len(), 3);
    assert!(prune_auto_backups(&names, 3).is_empty());
}

#[test]
fn the_oldest_go_first() {
    let mut names = hours(5);
    names.swap(0, 3);
    names.swap(1, 4);
    assert_eq!(rank_auto_backups(&names), [3, 4, 2, 0, 1]);
    assert_eq!(prune_auto_backups(&names, 2), [3, 4, 2]);
    assert_eq!(prune_auto_backups(&names, 0).len(), 5);
    let same = vec!["lokal-auto-x.lokal".to_string(), "lokal-auto-x.lokal".to_string()];
    assert_eq!(prune_auto_backups(&same, 1), [0]);
}

#[test]
fn days_around_leap_days() {
    for (secs, want) in [
        (951_868_799u64, "20000229-235959Z"),
        (951_868_800, "20000301-000000Z"),
        (1_709_251_200, "20240301-000000Z"),
        (4_107_542_399, "21000228-235959Z"),
        (4_107_542_400, "21000301-000000Z"),
        (68_169_599, "19720228-235959Z"),
        (68_169_600, "19720229-000000Z"),
        (253_402_300_799, "99991231-235959Z"),
        (253_402_300_800, "100000101-000000Z"),
    ] {
        assert_eq!(stamp(secs), want, "secs={secs}");
    }
    assert!(stamp(u64::MAX).ends_with('Z'));
}

#[test]
fn names_from_the_year_10000_on_lose_the_hour() {
    assert_eq!(auto_backup_name(253_402_300_800), "lokal-auto-100000101-0Z.lokal");
    assert_eq!(auto_backup_name(253_402_300_800), auto_backup_name(253_402_300_800 + 3600));
}

#[test]
fn labels_are_the_moment_in_the_name() {
    assert_eq!(backup_label(&auto_backup_name(1_753_800_000)), "20250729-14Z");
    assert_eq!(backup_label("lokal-auto-lokal-auto-x.lokal.lokal"), "x");
    assert_eq!(backup_label("lokal-auto-.lokal"), "");
    assert_eq!(backup_label("other"), "other");
}

#[test]
fn the_newest_backup_is_shown() {
    let mut names = hours(4);
    names.swap(0, 3);
    names.push("zzz.lokal".to_string());
    assert_eq!(backup_summary(&names), (4, Some("20260729-03Z".to_string())));
    assert_eq!(backup_summary(&vec!["zzz.lokal".to_string()]), (0, None));
}

#[test]
fn exported_backups_are_named_to_the_second() {
    assert_eq!(export_name(1_753_800_000), "lokal-backup-20250729-144000Z.lokal");
}
