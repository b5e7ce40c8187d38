use std::collections::HashMap;

use lokal::backup::{auto_backup_name, prune_auto_backups};
use lokal::persist::{
    after_export, after_install, after_look, after_make_directory, after_prune, after_put_back,
    after_save, after_set_aside, after_verify, backup_plan, enable_report, save_report,
    write_next, AfterSave, BackupStep, RestoreStep, WriteStep,
};
use lokal::VaultSettings;

#[test]
fn writing_goes_by_way_of_a_temporary_file() {
    let mut step = WriteStep::Create;
    let mut seen = Vec::new();
    while step != WriteStep::Done {
        seen.push(step);
        step = write_next(step, true);
    }
    assert_eq!(
        seen,
        [WriteStep::Create, WriteStep::Restrict, WriteStep::Write, WriteStep::Sync, WriteStep::Rename]
    );
    for s in seen {
        assert_eq!(write_next(s, false), WriteStep::Failed);
    }
    assert_eq!(write_next(WriteStep::Done, false), WriteStep::Done);
    assert_eq!(write_next(WriteStep::Failed, true), WriteStep::Failed);
}

/// Files by name, and the steps that fail.
struct Disk {
    files: HashMap<&'static str, &'static str>,
    write_fails: bool,
    rename_fails: bool,
}

impl Disk {
    fn rename(&mut self, from: &'static str, to: &'static str) -> Result<(), String> {
        if self.rename_fails {
            return Err("denied".to_string());
        }
        let content = self.files.remove(from).ok_or("not found".to_string())?;
        self.files.insert(to, content);
        Ok(())
    }

    fn restore(&mut self, verified: Result<(), String>) -> Result<(), String> {
        let mut step = after_verify(verified);
        loop {
            step = match step {
                RestoreStep::Verify => unreachable!(),
                RestoreStep::Look => after_look(self.files.contains_key("vault.lokal")),
                RestoreStep::SetAside => {
                    after_set_aside(self.rename("vault.lokal", "vault.lokal.prev"))
                }
                RestoreStep::Install { had_old } => {
                    let written = if self.write_fails {
                        Err("no space".to_string())
                    } else {
                        self.files.insert("vault.lokal", "new");
                        Ok(())
                    };
                    after_install(had_old, written)
                }
                RestoreStep::PutBack { message } => {
                    let _ = self.rename("vault.lokal.prev", "vault.lokal");
                    after_put_back(message)
                }
                RestoreStep::Installed => return Ok(()),
                RestoreStep::Failed { message } => return Err(message),
            };
        }
    }
}

fn disk(files: &[(&'static str, &'static str)]) -> Disk {
    Disk { files: files.iter().copied().collect(), write_fails: false, rename_fails: false }
}

#[test]
fn install_keeps_the_old_vault_as_prev() {
    let mut d = disk(&[("vault.lokal", "old")]);
    d.restore(Ok(())).unwrap();
    assert_eq!(d.files["vault.lokal"], "new");
    assert_eq!(d.files["vault.lokal.prev"], "old");

    let mut empty = disk(&[]);
    empty.restore(Ok(())).unwrap();
    assert_eq!(empty.files["vault.lokal"], "new");
    assert_eq!(empty.files.len(), 1);
}

#[test]
fn install_rolls_back_when_the_write_fails() {
    let mut d = disk(&[("vault.lokal", "old")]);
    d.write_fails = true;
    let err = d.restore(Ok(())).unwrap_err();
    assert!(err.contains("已还原"), "错误信息应说明已还原：{err}");
    assert_eq!(err, "写入失败，已还原原保险库：no space");
    assert_eq!(d.files["vault.lokal"], "old");

    let mut empty = disk(&[]);
    empty.write_fails = true;
    assert_eq!(empty.restore(Ok(())).unwrap_err(), "写入失败，已还原原保险库：no space");
    assert!(empty.files.is_empty());
}

#[test]
fn a_bad_backup_touches_nothing() {
    let mut d = disk(&[("vault.lokal", "old")]);
    assert_eq!(d.restore(Err("wrong password".to_string())).unwrap_err(), "wrong password");
    assert_eq!(d.files, disk(&[("vault.lokal", "old")]).files);
}

#[test]
fn a_vault_that_cannot_be_set_aside_stays() {
    let mut d = disk(&[("vault.lokal", "old")]);
    d.rename_fails = true;
    assert_eq!(d.restore(Ok(())).unwrap_err(), "无法备份当前保险库：denied");
    assert_eq!(d.files["vault.lokal"], "old");
}

#[test]
fn backups_are_pruned_only_after_a_new_one() {
    assert!(matches!(after_make_directory(5, Ok(())), BackupStep::Export { keep: 5 }));
    match after_make_directory(5, Err("ro".to_string())) {
        BackupStep::Done { outcome: Err(m) } => assert_eq!(m, "无法创建备份目录：ro"),
        _ => panic!("the directory could not be made"),
    }
    assert!(matches!(after_export(5, Ok(())), BackupStep::Prune { keep: 5 }));
    assert!(matches!(after_export(0, Ok(())), BackupStep::Prune { keep: 1 }));
    match after_export(5, Err("full".to_string())) {
        BackupStep::Done { outcome: Err(m) } => assert_eq!(m, "写备份失败：full"),
        _ => panic!("the backup could not be written"),
    }
    assert!(matches!(after_prune(), BackupStep::Done { outcome: Ok(()) }));
}

#[test]
fn a_failed_backup_does_not_fail_the_save() {
    assert_eq!(save_report(Some(Err("gone".to_string()))), (Ok(()), Some("gone".to_string())));
    assert_eq!(save_report(Some(Ok(()))), (Ok(()), None));
    assert_eq!(save_report(None), (Ok(()), None));
}

#[test]
fn saving_leads_to_a_backup_where_one_is_wanted() {
    let off = VaultSettings::default();
    let on = VaultSettings { auto_backup_dir: Some("/mnt".to_string()), auto_backup_keep: 7 };
    assert!(backup_plan(&off).is_none());
    assert_eq!(backup_plan(&on), Some((&"/mnt".to_string(), 7)));
    assert!(matches!(after_save(Ok(()), &off), AfterSave::Nothing));
    assert!(matches!(after_save(Ok(()), &on), AfterSave::Backup));
    match after_save(Err("e".to_string()), &on) {
        AfterSave::Report { message } => assert_eq!(message, "e"),
        _ => panic!("saving failed"),
    }
}

#[test]
fn a_failed_first_backup_is_told_and_shown() {
    let failed = enable_report(Err("ro".to_string()));
    assert_eq!(failed, (Err("ro".to_string()), Some("ro".to_string())));
    assert_eq!(enable_report(Ok(())), (Ok(()), None));
}

fn back_up(dir: &mut HashMap<String, String>, secs: u64, file: &str, keep: usize) {
    let mut step = after_make_directory(keep, Ok(()));
    loop {
        step = match step {
            BackupStep::Export { keep } => {
                dir.insert(auto_backup_name(secs), file.to_string());
                after_export(keep, Ok(()))
            }
            BackupStep::Prune { keep } => {
                let names: Vec<String> = dir.keys().cloned().collect();
                for i in prune_auto_backups(&names, keep) {
                    dir.remove(&names[i]);
                }
                after_prune()
            }
            BackupStep::Done { outcome } => return outcome.unwrap(),
            BackupStep::MakeDirectory { .. } => panic!("the directory is there"),
        };
    }
}

#[test]
fn a_backup_leaves_the_newest() {
    let mut dir = HashMap::new();
    dir.insert("lokal-20200101.lokal".to_string(), "exported".to_string());
    dir.insert("notes.txt".to_string(), "mine".to_string());
    for hour in 0..5u64 {
        back_up(&mut dir, 1_753_800_000 + hour * 3600, &format!("file {hour}"), 3);
    }
    assert_eq!(dir.len(), 5);
    assert_eq!(dir["notes.txt"], "mine");
    assert_eq!(dir["lokal-20200101.lokal"], "exported");
    for hour in 2..5u64 {
        assert_eq!(dir[&auto_backup_name(1_753_800_000 + hour * 3600)], format!("file {hour}"));
    }
    back_up(&mut dir, 1_753_800_000 + 4 * 3600 + 1, "again", 3);
    assert_eq!(dir.len(), 5);
    assert_eq!(dir[&auto_backup_name(1_753_800_000 + 4 * 3600)], "again");
    back_up(&mut dir, 1_753_800_000 + 9 * 3600, "last", 0);
    assert_eq!(dir.len(), 3);
    assert_eq!(dir[&auto_backup_name(1_753_800_000 + 9 * 3600)], "last");
}
