//! Decisions about files, taken step by step.
//!
//! The caller touches the disk; these machines say what to do next. Each takes
//! the step that was performed and how it ended, and gives the next one. What
//! must never happen to the user's passwords is proved of the machines, over a
//! small model of the disk: renaming within a directory is atomic, and a step
//! that fails leaves the files that it does not write as they were.

use vstd::prelude::*;

use crate::backup::{
    auto_backup_text, doomed, is_auto_backup, is_ranking, names_carry_the_hour, older,
    older_is_an_order, own_names_are_recognised, rankings_list_our_backups,
    rotation_keeps_the_newest, same_hour_same_name,
};
use crate::model::VaultSettings;
use crate::text::{before, before_is_total, joined};

verus! {

// ---------------------------------------------------------------------------
// Writing a file atomically
// ---------------------------------------------------------------------------

/// The steps of writing a file by way of a temporary one next to it.
#[derive(Debug, Clone, Copy, PartialEq, Eq, Structural)]
pub enum WriteStep {
    /// Create the temporary file, empty.
    Create,
    /// Let only its owner read and write it.
    Restrict,
    /// Write all bytes into it.
    Write,
    /// Wait until they are on the disk.
    Sync,
    /// Rename it to the name of the file.
    Rename,
    /// The file is written.
    Done,
    /// A step failed; the file is as it was.
    Failed,
}

/// The step that follows a step.
pub open spec fn write_follows(step: WriteStep, ok: bool) -> WriteStep {
    match step {
        WriteStep::Done => WriteStep::Done,
        WriteStep::Failed => WriteStep::Failed,
        _ => if !ok {
            WriteStep::Failed
        } else {
            match step {
                WriteStep::Create => WriteStep::Restrict,
                WriteStep::Restrict => WriteStep::Write,
                WriteStep::Write => WriteStep::Sync,
                WriteStep::Sync => WriteStep::Rename,
                _ => WriteStep::Done,
            }
        },
    }
}

/// What to do after a step of writing a file; the first is `Create`.
pub fn write_next(step: WriteStep, ok: bool) -> (r: WriteStep)
    ensures
        r == write_follows(step, ok),
{
    match (step, ok) {
        (WriteStep::Done, _) => WriteStep::Done,
        (_, false) => WriteStep::Failed,
        (WriteStep::Create, true) => WriteStep::Restrict,
        (WriteStep::Restrict, true) => WriteStep::Write,
        (WriteStep::Write, true) => WriteStep::Sync,
        (WriteStep::Sync, true) => WriteStep::Rename,
        (WriteStep::Rename, true) => WriteStep::Done,
        (WriteStep::Failed, true) => WriteStep::Failed,
    }
}

/// The two files, as they would be found after a power failure: the file itself
/// and the temporary one; which of them only the owner can read and write; and
/// whether the temporary one is on the disk.
pub struct WriteDisk {
    pub file: Option<Seq<u8>>,
    pub file_private: bool,
    pub temporary: Option<Seq<u8>>,
    pub temporary_private: bool,
    pub synced: bool,
}

impl WriteDisk {
    /// The file itself is the same in both.
    pub open spec fn same_file(self, other: WriteDisk) -> bool {
        self.file == other.file && self.file_private == other.file_private
    }
}

/// What a step can make of the files.
pub open spec fn write_effect(
    step: WriteStep,
    ok: bool,
    bytes: Seq<u8>,
    before: WriteDisk,
    after: WriteDisk,
) -> bool {
    match step {
        WriteStep::Create => after.same_file(before) && (ok ==> after.temporary == Some(
            Seq::<u8>::empty(),
        )),
        WriteStep::Restrict => after.same_file(before) && after.temporary == before.temporary && (ok
            ==> after.temporary_private),
        WriteStep::Write => after.same_file(before) && after.temporary_private
            == before.temporary_private && (ok ==> after.temporary == Some(bytes)),
        WriteStep::Sync => after.same_file(before) && after.temporary == before.temporary
            && after.temporary_private == before.temporary_private && (ok ==> after.synced),
        WriteStep::Rename => if ok {
            &&& after.file == before.temporary
            &&& after.file_private == before.temporary_private
            &&& after.temporary is None
        } else {
            after == before
        },
        WriteStep::Done | WriteStep::Failed => after == before,
    }
}

/// What is true of the files when a step is about to be performed, where they
/// were `old` at the start.
pub open spec fn write_safe(
    step: WriteStep,
    old: WriteDisk,
    bytes: Seq<u8>,
    disk: WriteDisk,
) -> bool {
    match step {
        WriteStep::Create | WriteStep::Failed => disk.same_file(old),
        WriteStep::Restrict => disk.same_file(old) && disk.temporary == Some(Seq::<u8>::empty()),
        WriteStep::Write => disk.same_file(old) && disk.temporary_private,
        WriteStep::Sync => disk.same_file(old) && disk.temporary_private && disk.temporary == Some(
            bytes,
        ),
        WriteStep::Rename => disk.same_file(old) && disk.temporary_private && disk.temporary
            == Some(bytes) && disk.synced,
        WriteStep::Done => disk.file == Some(bytes) && disk.file_private && disk.temporary is None,
    }
}

/// The file is never half written: whatever step fails, and wherever the power
/// goes, it holds what it held before or all of the new bytes, and the new
/// bytes only once they are on the disk. Bytes are only ever written into a file
/// that its owner alone can read. Once the file is written it is its owner's
/// alone, and the temporary name is gone.
pub proof fn writing_is_atomic(
    step: WriteStep,
    ok: bool,
    old: WriteDisk,
    bytes: Seq<u8>,
    before: WriteDisk,
    after: WriteDisk,
)
    requires
        write_safe(step, old, bytes, before),
        write_effect(step, ok, bytes, before, after),
    ensures
        after.file == old.file || after.file == Some(bytes),
        write_safe(write_follows(step, ok), old, bytes, after),
        after.file != before.file ==> step == WriteStep::Rename && before.synced,
        step == WriteStep::Write ==> before.temporary_private && after.temporary_private,
        write_follows(step, ok) == WriteStep::Done ==> after.file == Some(bytes)
            && after.file_private && after.temporary is None,
        write_follows(step, ok) == WriteStep::Failed ==> after.same_file(old),
{
}

// ---------------------------------------------------------------------------
// Replacing the vault by a backup
// ---------------------------------------------------------------------------

/// The steps of replacing the vault by a backup. Their order is what matters: a
/// backup that does not open must not cost the user the vault.
pub enum RestoreStep {
    /// Read the backup and open it with its password.
    Verify,
    /// See whether there is a vault to be replaced.
    Look,
    /// Rename the vault, so that it can be had back.
    SetAside,
    /// Write the backup's content in the place of the vault.
    Install { had_old: bool },
    /// Rename the old vault back; whether or not it works, then fail.
    PutBack { message: String },
    /// The backup is in place.
    Installed,
    /// The vault was not replaced.
    Failed { message: String },
}

/// The step that follows a step, but for its message. Of `Look`, `ok` says
/// whether there is a vault.
pub open spec fn restore_follows(step: RestoreStep, ok: bool, next: RestoreStep) -> bool {
    match step {
        RestoreStep::Verify => if ok {
            next is Look
        } else {
            next is Failed
        },
        RestoreStep::Look => if ok {
            next is SetAside
        } else {
            next matches RestoreStep::Install { had_old } && !had_old
        },
        RestoreStep::SetAside => if ok {
            next matches RestoreStep::Install { had_old } && had_old
        } else {
            next is Failed
        },
        RestoreStep::Install { had_old } => if ok {
            next is Installed
        } else if had_old {
            next is PutBack
        } else {
            next is Failed
        },
        RestoreStep::PutBack { message } => next is Failed,
        RestoreStep::Installed => next is Installed,
        RestoreStep::Failed { message } => next is Failed,
    }
}

/// What to do once the backup was opened, or was not.
pub fn after_verify(opened: Result<(), String>) -> (r: RestoreStep)
    ensures
        restore_follows(RestoreStep::Verify, opened is Ok, r),
        r matches RestoreStep::Failed { message } ==> opened matches Err(e) && message@ == e@,
{
    match opened {
        Ok(_) => RestoreStep::Look,
        Err(message) => RestoreStep::Failed { message },
    }
}

/// What to do once it is known whether there is a vault.
pub fn after_look(present: bool) -> (r: RestoreStep)
    ensures
        restore_follows(RestoreStep::Look, present, r),
{
    if present {
        RestoreStep::SetAside
    } else {
        RestoreStep::Install { had_old: false }
    }
}

/// What to do once the vault was renamed, or could not be.
pub fn after_set_aside(renamed: Result<(), String>) -> (r: RestoreStep)
    ensures
        restore_follows(RestoreStep::SetAside, renamed is Ok, r),
        r matches RestoreStep::Failed { message } ==> renamed matches Err(e) && message@
            == "无法备份当前保险库："@ + e@,
{
    match renamed {
        Ok(_) => RestoreStep::Install { had_old: true },
        Err(e) => RestoreStep::Failed {
            message: joined("无法备份当前保险库：", e.as_str()),
        },
    }
}

/// What to do once the backup's content was written, or could not be.
pub fn after_install(had_old: bool, written: Result<(), String>) -> (r: RestoreStep)
    ensures
        restore_follows(RestoreStep::Install { had_old }, written is Ok, r),
        r matches RestoreStep::Failed { message } ==> written matches Err(e) && message@
            == "写入失败，已还原原保险库："@ + e@,
        r matches RestoreStep::PutBack { message } ==> written matches Err(e) && message@
            == "写入失败，已还原原保险库："@ + e@,
{
    match written {
        Ok(_) => RestoreStep::Installed,
        Err(e) => {
            let message = joined("写入失败，已还原原保险库：", e.as_str());
            if had_old {
                RestoreStep::PutBack { message }
            } else {
                RestoreStep::Failed { message }
            }
        },
    }
}

/// What to do once the old vault was renamed back, as far as that worked.
pub fn after_put_back(message: String) -> (r: RestoreStep)
    ensures
        r == (RestoreStep::Failed { message }),
{
    RestoreStep::Failed { message }
}

/// The vault's file and the file that it is renamed to.
pub struct RestoreDisk {
    pub live: Option<Seq<u8>>,
    pub aside: Option<Seq<u8>>,
}

/// What a step makes of the files; writing is atomic.
pub open spec fn restore_effect(
    step: RestoreStep,
    ok: bool,
    new: Seq<u8>,
    before: RestoreDisk,
    after: RestoreDisk,
) -> bool {
    match step {
        RestoreStep::Look => after == before && ok == (before.live is Some),
        RestoreStep::SetAside => if ok {
            after.aside == before.live && after.live is None
        } else {
            after == before
        },
        RestoreStep::Install { had_old } => if ok {
            after.live == Some(new) && after.aside == before.aside
        } else {
            after == before
        },
        RestoreStep::PutBack { message } => if ok {
            after.live == before.aside && after.aside is None
        } else {
            after == before
        },
        _ => after == before,
    }
}

/// What is true of the files when a step is about to be performed, where the
/// vault was `old` at the start.
pub open spec fn restore_safe(
    step: RestoreStep,
    old: Option<Seq<u8>>,
    new: Seq<u8>,
    disk: RestoreDisk,
) -> bool {
    match step {
        RestoreStep::Verify | RestoreStep::Look => disk.live == old,
        RestoreStep::SetAside => disk.live == old && old is Some,
        RestoreStep::Install { had_old } => if had_old {
            disk.aside == old && old is Some && disk.live is None
        } else {
            disk.live == old && old is None
        },
        RestoreStep::PutBack { message } => disk.aside == old && old is Some && disk.live is None,
        RestoreStep::Installed => disk.live == Some(new) && (old is Some ==> disk.aside == old),
        RestoreStep::Failed { message } => disk.live == old || (disk.aside == old && old is Some),
    }
}

/// The old vault is never lost: at every moment it is in its place or set
/// aside. Nothing is touched before the backup was opened. What a failed
/// attempt leaves is the old vault in its place, unless renaming it back fails
/// too; and what a successful one leaves is the backup in its place and the old
/// vault set aside.
pub proof fn restoring_never_loses_the_vault(
    step: RestoreStep,
    ok: bool,
    next: RestoreStep,
    old: Option<Seq<u8>>,
    new: Seq<u8>,
    before: RestoreDisk,
    after: RestoreDisk,
)
    requires
        restore_safe(step, old, new, before),
        restore_effect(step, ok, new, before, after),
        restore_follows(step, ok, next),
    ensures
        restore_safe(next, old, new, after),
        old is Some ==> after.live == old || after.aside == old,
        step is Verify ==> after == before,
        next is Installed ==> after.live == Some(new),
        next is Failed && !(step is Failed) && !(step is PutBack && !ok) ==> after.live == old,
{
}

// ---------------------------------------------------------------------------
// Backing up
// ---------------------------------------------------------------------------

/// The steps of an automatic backup.
pub enum BackupStep {
    /// Make sure that the directory is there.
    MakeDirectory { keep: usize },
    /// Write a backup into it.
    Export { keep: usize },
    /// Delete the oldest backups so that `keep` are left.
    Prune { keep: usize },
    /// The backup ended so.
    Done { outcome: Result<(), String> },
}

/// What to do once the directory was made, or could not be.
pub fn after_make_directory(keep: usize, made: Result<(), String>) -> (r: BackupStep)
    ensures
        match made {
            Ok(_) => r == (BackupStep::Export { keep }),
            Err(e) => r matches BackupStep::Done { outcome: Err(m) } && m@ == "无法创建备份目录："@
                + e@,
        },
{
    match made {
        Ok(_) => BackupStep::Export { keep },
        Err(e) => BackupStep::Done {
            outcome: Err(joined("无法创建备份目录：", e.as_str())),
        },
    }
}

/// What to do once the backup was written, or could not be. Only then are old
/// ones deleted, and one is always kept.
pub fn after_export(keep: usize, written: Result<(), String>) -> (r: BackupStep)
    ensures
        match written {
            Ok(_) => r == (BackupStep::Prune {
                keep: if keep == 0 {
                    1
                } else {
                    keep
                },
            }),
            Err(e) => r matches BackupStep::Done { outcome: Err(m) } && m@ == "写备份失败："@ + e@,
        },
{
    match written {
        Ok(_) => BackupStep::Prune {
            keep: if keep == 0 {
                1
            } else {
                keep
            },
        },
        Err(e) => BackupStep::Done { outcome: Err(joined("写备份失败：", e.as_str())) },
    }
}

/// What to do once old backups were deleted. That some could not be is no
/// failure.
pub fn after_prune() -> (r: BackupStep)
    ensures
        r == (BackupStep::Done { outcome: Ok(()) }),
{
    BackupStep::Done { outcome: Ok(()) }
}

/// What a directory holds: the files by their names.
pub type Directory = Map<Seq<char>, Seq<u8>>;

/// `names` are the names of the files in a directory, each once.
pub open spec fn lists(dir: Directory, names: Seq<Seq<char>>) -> bool {
    &&& names.no_duplicates()
    &&& forall|n: Seq<char>| #[trigger] dir.contains_key(n) <==> names.contains(n)
}

/// The directory once the backup of a moment was written.
pub open spec fn exported(dir: Directory, secs: nat, file: Seq<u8>) -> Directory {
    dir.insert(auto_backup_text(secs), file)
}

/// One of the listed positions is that of the name.
pub open spec fn is_at(names: Seq<Seq<char>>, positions: Seq<usize>, n: Seq<char>) -> bool {
    exists|k: int| 0 <= k < positions.len() && names[(#[trigger] positions[k]) as int] == n
}

/// The directory once the files at these positions were deleted.
pub open spec fn pruned(dir: Directory, names: Seq<Seq<char>>, gone: Seq<usize>) -> Directory {
    Map::new(|n: Seq<char>| dir.contains_key(n) && !is_at(names, gone, n), |n: Seq<char>| dir[n])
}

/// How many automatic backups are kept: as many as asked for, but at least one.
pub open spec fn kept(keep: nat) -> nat {
    if keep == 0 {
        1
    } else {
        keep
    }
}

/// The directory once an automatic backup is done: the backup is written, the
/// directory is read as `names`, which rank as `rank`, and the oldest that are
/// too many are deleted.
pub open spec fn backed_up(
    dir: Directory,
    secs: nat,
    file: Seq<u8>,
    names: Seq<Seq<char>>,
    rank: Seq<usize>,
    keep: nat,
) -> Directory {
    pruned(exported(dir, secs, file), names, doomed(rank, kept(keep)))
}

/// The names of the automatic backups in a directory.
pub open spec fn backups_in(dir: Directory) -> Set<Seq<char>> {
    Set::new(|n: Seq<char>| dir.contains_key(n) && is_auto_backup(n))
}

/// An automatic backup leaves the backup of this hour, and of the automatic
/// backups the newest, at most as many as are to be kept but always this one.
/// Those that stay are as they were, byte for byte, and so is every other file.
/// The clock must not be behind the backups that are there.
pub proof fn automatic_backup_leaves_the_newest(
    dir: Directory,
    secs: nat,
    file: Seq<u8>,
    names: Seq<Seq<char>>,
    rank: Seq<usize>,
    keep: nat,
)
    requires
        lists(exported(dir, secs, file), names),
        names.len() <= usize::MAX,
        is_ranking(names, rank),
        forall|n: Seq<char>| #[trigger]
            dir.contains_key(n) && is_auto_backup(n) ==> n == auto_backup_text(secs) || before(
                n,
                auto_backup_text(secs),
            ),
    ensures
        ({
            let name = auto_backup_text(secs);
            let after = backed_up(dir, secs, file, names, rank, keep);
            &&& after.contains_key(name) && after[name] == file
            &&& forall|n: Seq<char>| #[trigger]
                after.contains_key(n) && n != name ==> dir.contains_key(n) && after[n] == dir[n]
            &&& forall|n: Seq<char>| #[trigger]
                dir.contains_key(n) && !is_auto_backup(n) ==> after.contains_key(n)
            &&& backups_in(after).finite()
            &&& backups_in(after).len() == if rank.len() <= kept(keep) {
                rank.len()
            } else {
                kept(keep)
            }
            &&& forall|n: Seq<char>, m: Seq<char>|
                #![trigger dir.contains_key(n), after.contains_key(m)]
                dir.contains_key(n) && !after.contains_key(n) && after.contains_key(m)
                    && is_auto_backup(m) ==> before(n, m)
        }),
{
    let name = auto_backup_text(secs);
    let full = exported(dir, secs, file);
    let gone = doomed(rank, kept(keep));
    let after = backed_up(dir, secs, file, names, rank, keep);
    own_names_are_recognised(secs);
    rotation_keeps_the_newest(names, rank, kept(keep));
    assert forall|n: Seq<char>, m: Seq<char>|
        #![trigger dir.contains_key(n), after.contains_key(m)]
        full.contains_key(n) && !after.contains_key(n) && after.contains_key(m) && is_auto_backup(
            m,
        ) implies before(n, m) && is_auto_backup(n) by {
        let k = choose|k: int| 0 <= k < gone.len() && names[(#[trigger] gone[k]) as int] == n;
        assert(full.contains_key(m));
        let i = choose|i: int| 0 <= i < names.len() && names[i] == m;
        if gone.contains(i as usize) {
            let l = choose|l: int| 0 <= l < gone.len() && gone[l] == i as usize;
            assert(is_at(names, gone, m));
        }
        assert(older(names, gone[k] as int, i));
        assert(is_auto_backup(names[gone[k] as int]));
        assert(gone[k] == rank[k]);
        if n == m {
            assert(is_at(names, gone, m));
        }
    }
    let last = rank.len() - 1;
    assert(full.contains_key(name));
    let at = choose|i: int| 0 <= i < names.len() && names[i] == name;
    assert(rank.contains(at as usize));
    assert(after.contains_key(name)) by {
        if is_at(names, gone, name) {
            let k = choose|k: int|
                0 <= k < gone.len() && names[(#[trigger] gone[k]) as int] == name;
            assert(gone[k] == rank[k]);
            assert(k < last);
            let m = names[rank[last] as int];
            assert(older(names, rank[k] as int, rank[last] as int));
            assert(names.contains(m));
            assert(full.contains_key(m));
            before_is_total(name, m);
        }
    }
    assert forall|n: Seq<char>| #[trigger]
        dir.contains_key(n) && !is_auto_backup(n) implies after.contains_key(n) by {
        if is_at(names, gone, n) {
            let k = choose|k: int| 0 <= k < gone.len() && names[(#[trigger] gone[k]) as int] == n;
            assert(is_auto_backup(names[gone[k] as int]));
        }
    }
    backups_are_counted(full, names, rank, kept(keep));
    assert(backups_in(after) =~= backups_in(pruned(full, names, gone)));
}

/// How many automatic backups are left.
proof fn backups_are_counted(
    dir: Directory,
    names: Seq<Seq<char>>,
    rank: Seq<usize>,
    keep: nat,
)
    requires
        lists(dir, names),
        names.len() <= usize::MAX,
        is_ranking(names, rank),
    ensures
        backups_in(pruned(dir, names, doomed(rank, keep))).finite(),
        backups_in(pruned(dir, names, doomed(rank, keep))).len() == if rank.len() <= keep {
            rank.len()
        } else {
            keep
        },
{
    let gone = doomed(rank, keep);
    let after = pruned(dir, names, gone);
    let left = Seq::new(
        (rank.len() - gone.len()) as nat,
        |k: int| names[rank[gone.len() + k] as int],
    );
    assert(left.no_duplicates()) by {
        assert forall|k: int, l: int| 0 <= k < l < left.len() implies left[k] != left[l] by {
            older_is_an_order(
                names,
                rank[gone.len() + k] as int,
                rank[gone.len() + l] as int,
                0,
            );
        }
    }
    assert forall|n: Seq<char>| #[trigger] left.contains(n) <==> backups_in(after).contains(n) by {
        if left.contains(n) {
            let k = choose|k: int| 0 <= k < left.len() && left[k] == n;
            let i = rank[gone.len() + k] as int;
            assert(names[i] == n);
            assert(names.contains(n));
            assert(dir.contains_key(n));
            if is_at(names, gone, n) {
                let l = choose|l: int|
                    0 <= l < gone.len() && names[(#[trigger] gone[l]) as int] == n;
                assert(gone[l] == rank[l]);
                older_is_an_order(names, rank[l] as int, i, 0);
            }
        }
        if backups_in(after).contains(n) {
            assert(dir.contains_key(n));
            let i = choose|i: int| 0 <= i < names.len() && names[i] == n;
            assert(rank.contains(i as usize));
            let l = choose|l: int| 0 <= l < rank.len() && rank[l] == i as usize;
            if l < gone.len() {
                assert(gone[l] == rank[l]);
                assert(is_at(names, gone, n));
            }
            assert(left[l - gone.len()] == n);
        }
    }
    left.unique_seq_to_set();
    assert(left.to_set() =~= backups_in(after));
}

/// A second backup within the hour takes the place of the first and adds no file.
pub proof fn second_backup_of_the_hour_adds_no_file(
    dir: Directory,
    secs: nat,
    later: nat,
    file: Seq<u8>,
)
    requires
        dir.contains_key(auto_backup_text(secs)),
        secs / 3600 == later / 3600,
    ensures
        exported(dir, later, file).dom() == dir.dom(),
        exported(dir, later, file) == dir.insert(auto_backup_text(secs), file),
{
    same_hour_same_name(secs, later);
    assert(exported(dir, later, file).dom() =~= dir.dom());
}

/// The directory and the number of the automatic backups; `None` where there
/// are none.
pub fn backup_plan(settings: &VaultSettings) -> (r: Option<(&String, usize)>)
    ensures
        match settings.auto_backup_dir {
            Some(d) => r matches Some(p) && *p.0 == d && p.1 == settings.auto_backup_keep,
            None => r is None,
        },
{
    match &settings.auto_backup_dir {
        Some(d) => Some((d, settings.auto_backup_keep)),
        None => None,
    }
}

/// What to do after saving the vault.
pub enum AfterSave {
    /// Saving failed: report it, and leave the last backup's error as it is.
    Report { message: String },
    /// Back up, and take note of how it ends.
    Backup,
    /// Nothing: there are no backups, and so no error of one.
    Nothing,
}

/// What to do after saving the vault.
pub fn after_save(saved: Result<(), String>, settings: &VaultSettings) -> (r: AfterSave)
    ensures
        match saved {
            Err(e) => r matches AfterSave::Report { message } && message@ == e@,
            Ok(_) => if settings.auto_backup_dir is Some {
                r is Backup
            } else {
                r is Nothing
            },
        },
{
    match saved {
        Err(message) => AfterSave::Report { message },
        Ok(_) => match &settings.auto_backup_dir {
            Some(_) => AfterSave::Backup,
            None => AfterSave::Nothing,
        },
    }
}

/// The result of a save, and the error to show of the last backup.
///
/// A failed backup never makes a save fail: the user must be able to store
/// passwords while the backup disk is unplugged. Its error is kept and shown,
/// for a backup that fails unnoticed is worse than none.
pub fn save_report(backup: Option<Result<(), String>>) -> (r: (Result<(), String>, Option<String>))
    ensures
        r.0 is Ok,
        match backup {
            Some(Err(e)) => r.1 == Some(e),
            _ => r.1 is None,
        },
{
    match backup {
        Some(Err(e)) => (Ok(()), Some(e)),
        _ => (Ok(()), None),
    }
}

/// The result of turning automatic backups on, and the error to show of the last
/// backup, where the first backup ended so.
///
/// Unlike after a save, the user is told at once where it fails; and what is
/// shown is about the last backup, so an earlier error goes when it succeeds.
pub fn enable_report(backup: Result<(), String>) -> (r: (Result<(), String>, Option<String>))
    ensures
        match backup {
            Ok(_) => r.0 is Ok && r.1 is None,
            Err(e) => (r.0 matches Err(m) && m@ == e@) && (r.1 matches Some(m) && m@ == e@),
        },
{
    match backup {
        Ok(_) => (Ok(()), None),
        Err(e) => (Err(e.clone()), Some(e)),
    }
}

// ---------------------------------------------------------------------------
// The steps from the first to the last
// ---------------------------------------------------------------------------

/// Writing a file takes five steps that succeed, in this order: the temporary file is
/// made, restricted, written, synced and renamed. One that fails ends it.
pub proof fn writing_takes_five_steps(step: WriteStep)
    ensures
        write_follows(WriteStep::Create, true) == WriteStep::Restrict,
        write_follows(WriteStep::Restrict, true) == WriteStep::Write,
        write_follows(WriteStep::Write, true) == WriteStep::Sync,
        write_follows(WriteStep::Sync, true) == WriteStep::Rename,
        write_follows(WriteStep::Rename, true) == WriteStep::Done,
        step != WriteStep::Done ==> write_follows(step, false) == WriteStep::Failed,
        write_follows(WriteStep::Failed, true) == WriteStep::Failed,
        write_follows(WriteStep::Done, true) == WriteStep::Done,
        write_follows(WriteStep::Done, false) == WriteStep::Done,
{
}

/// Where every step succeeds, the backup takes the place of the vault: it is opened, then
/// it is seen whether there is a vault, which is set aside, and then the backup is written.
/// A backup that does not open ends it before anything is touched, and so does a vault that
/// cannot be set aside; where writing fails, the vault is put back.
pub proof fn restoring_goes_by_steps(ok: bool, had_old: bool, next: RestoreStep)
    ensures
        restore_follows(RestoreStep::Verify, ok, next) ==> if ok {
            next is Look
        } else {
            next is Failed
        },
        restore_follows(RestoreStep::Look, ok, next) ==> if ok {
            next is SetAside
        } else {
            next == (RestoreStep::Install { had_old: false })
        },
        restore_follows(RestoreStep::SetAside, ok, next) ==> if ok {
            next == (RestoreStep::Install { had_old: true })
        } else {
            next is Failed
        },
        restore_follows(RestoreStep::Install { had_old }, ok, next) ==> if ok {
            next is Installed
        } else if had_old {
            next is PutBack
        } else {
            next is Failed
        },
{
}

/// An automatic backup touches no file whose name does not begin with `lokal-auto-` and end
/// with `.lokal`, whatever the clock says; and it leaves at most as many of the others as
/// are to be kept, but at least one.
pub proof fn other_files_stay(
    dir: Directory,
    secs: nat,
    file: Seq<u8>,
    names: Seq<Seq<char>>,
    rank: Seq<usize>,
    keep: nat,
    n: Seq<char>,
)
    requires
        lists(exported(dir, secs, file), names),
        names.len() <= usize::MAX,
        is_ranking(names, rank),
    ensures
        dir.contains_key(n) && (n.len() < 17 || n.take(11) != "lokal-auto-"@ || n.skip(n.len() - 6)
            != ".lokal"@) ==> {
            let after = backed_up(dir, secs, file, names, rank, keep);
            after.contains_key(n) && after[n] == dir[n]
        },
        kept(keep) == if keep >= 1 {
            keep
        } else {
            1
        },
        backed_up(dir, secs, file, names, rank, keep).dom().subset_of(
            dir.dom().insert(auto_backup_text(secs)),
        ),
{
    let gone = doomed(rank, kept(keep));
    let name = auto_backup_text(secs);
    rankings_list_our_backups(names, rank);
    names_carry_the_hour(secs);
    reveal_strlit("lokal-auto-");
    reveal_strlit("Z.lokal");
    reveal_strlit(".lokal");
    if dir.contains_key(n) && (n.len() < 17 || n.take(11) != "lokal-auto-"@ || n.skip(n.len() - 6)
        != ".lokal"@) {
        if is_at(names, gone, n) {
            let k = choose|k: int| 0 <= k < gone.len() && names[(#[trigger] gone[k]) as int] == n;
            assert(gone[k] == rank[k]);
        }
        assert(n != name) by {
            assert(name.skip(22).len() == 7);
            assert(name.skip(name.len() - 6) =~= ".lokal"@) by {
                assert(name.skip(22).skip(1) =~= name.skip(name.len() - 6));
                assert("Z.lokal"@.skip(1) =~= ".lokal"@);
            }
        }
    }
}

} // verus!
