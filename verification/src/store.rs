//! The crash-safe durable store, modeled at the file level: the disk state a
//! store owns (primary, backup and temporary file), the recovery step of
//! `open`, the backup-then-replace commit protocol, and the proofs that a
//! crash at any instant of a commit loses nothing but the uncommitted write.
//! The real file system calls live outside the library and follow these
//! functions step for step.

use vstd::prelude::*;

verus! {

/// The files a durable store owns. `None` is an absent file; `Some` holds
/// the file's full content.
pub struct DiskState {
    /// The store's own file: the current snapshot.
    pub primary: Option<Vec<u8>>,
    /// The hidden sibling that exists only during (or after a crash of) a
    /// commit; it then holds the last fully committed snapshot.
    pub backup: Option<Vec<u8>>,
    /// The randomly named scratch file a commit copies the primary to
    /// before renaming it onto the backup path.
    pub temp: Option<Vec<u8>>,
}

pub open spec fn file_view(f: Option<Vec<u8>>) -> Option<Seq<u8>> {
    match f {
        Some(v) => Some(v@),
        None => None,
    }
}

impl DiskState {
    pub open spec fn primary_view(self) -> Option<Seq<u8>> {
        file_view(self.primary)
    }

    pub open spec fn backup_view(self) -> Option<Seq<u8>> {
        file_view(self.backup)
    }
}

/// How `recover` relates the disk before and after: a backup present means
/// the previous session crashed mid-commit, so the backup replaces the
/// primary; otherwise nothing changes.
pub open spec fn recovered(s: DiskState, r: DiskState) -> bool {
    match s.backup {
        Some(b) => r.primary == Some(b) && r.backup is None && r.temp == s.temp,
        None => r == s,
    }
}

/// The bytes `open` ends up loading from a disk state, after recovery: the
/// backup if one exists, else the primary, else nothing (a brand-new store).
pub open spec fn loaded_of(s: DiskState) -> Option<Seq<u8>> {
    match s.backup {
        Some(b) => Some(b@),
        None => match s.primary {
            Some(p) => Some(p@),
            None => None,
        },
    }
}

/// The recovery step of `open`: if the backup file exists, the previous
/// session aborted mid-commit; the partial primary is deleted and the
/// backup is renamed into its place, making the last fully committed
/// snapshot current again.
pub fn recover(disk: DiskState) -> (r: DiskState)
    ensures
        recovered(disk, r),
        loaded_of(r) == loaded_of(disk),
        r.backup is None,
{
    match disk.backup {
        Some(b) => DiskState { primary: Some(b), backup: None, temp: disk.temp },
        None => disk,
    }
}

/// An element-for-element copy of a byte string, standing for the file copy
/// in the commit's first step.
fn copy_bytes(v: &Vec<u8>) -> (r: Vec<u8>)
    ensures
        r@ == v@,
{
    let mut out: Vec<u8> = Vec::new();
    let n = v.len();
    for i in 0..n
        invariant
            n == v@.len(),
            out@ == v@.take(i as int),
    {
        out.push(v[i]);
        proof {
            assert(out@ =~= v@.take(i + 1));
        }
    }
    proof {
        assert(v@.take(n as int) == v@);
    }
    out
}

/// The commit protocol run to completion: copy the current primary to a
/// fresh temporary file, rename the temporary onto the backup path (the
/// durability checkpoint), rewrite the primary in place with the new bytes,
/// and delete the backup. The result holds exactly the new snapshot and no
/// leftover files.
pub fn commit_apply(disk: DiskState, new_bytes: Vec<u8>) -> (r: DiskState)
    requires
        disk.primary is Some,
    ensures
        r.primary == Some(new_bytes),
        r.backup is None,
        r.temp is None,
{
    let mut d = disk;
    // copy the on-disk primary to a fresh temporary file
    let cur = match &d.primary {
        Some(p) => copy_bytes(p),
        None => Vec::new(),
    };
    d.temp = Some(cur);
    // rename the temporary onto the backup path: the durability checkpoint
    d.backup = d.temp;
    d.temp = None;
    // truncate the primary and write the new snapshot in place, then flush
    d.primary = Some(new_bytes);
    // delete the backup: the commit has fully succeeded
    d.backup = None;
    d
}

/// The disk states a crash can leave behind at any instant of a commit that
/// started from a primary holding `old_primary` and was writing
/// `new_bytes`: before the backup rename lands only the primary matters;
/// once the backup exists the primary may hold anything at all (a torn or
/// partial write); after the backup is deleted the commit is complete. The
/// temporary file never matters to recovery.
pub open spec fn commit_crash_state(old_primary: Seq<u8>, new_bytes: Seq<u8>, s: DiskState) -> bool {
    ||| (s.primary_view() == Some(old_primary) && s.backup_view() is None)
    ||| s.backup_view() == Some(old_primary)
    ||| (s.primary_view() == Some(new_bytes) && s.backup_view() is None)
}

/// Commit is all-or-nothing: whatever instant a crash hits, the next open
/// loads either the previous snapshot or the new one in full, never a
/// mixture and never a torn primary.
pub proof fn lemma_commit_all_or_nothing(old_primary: Seq<u8>, new_bytes: Seq<u8>, s: DiskState)
    requires
        commit_crash_state(old_primary, new_bytes, s),
    ensures
        loaded_of(s) == Some(old_primary) || loaded_of(s) == Some(new_bytes),
{
}

/// Crash between the durability checkpoint (backup written) and the
/// backup's deletion: the recovering open yields exactly the pre-commit
/// snapshot, and once it has run the backup file is gone.
pub proof fn lemma_recovery_restores_snapshot(old_primary: Seq<u8>, s: DiskState, r: DiskState)
    requires
        s.backup_view() == Some(old_primary),
        recovered(s, r),
    ensures
        r.primary_view() == Some(old_primary),
        r.backup is None,
        loaded_of(r) == Some(old_primary),
{
}

/// Round trip: committing a value and reopening the store loads exactly the
/// committed bytes, and recovery finds nothing to do.
pub proof fn lemma_commit_open_roundtrip(committed: DiskState, reopened: DiskState, new_bytes: Vec<u8>)
    requires
        committed.primary == Some(new_bytes),
        committed.backup is None,
        recovered(committed, reopened),
    ensures
        reopened == committed,
        loaded_of(reopened) == Some(new_bytes@),
{
}

/// The backup file's name: a dot, the primary file's own name, and a fixed
/// suffix, so the backup sits hidden beside the primary.
pub fn backup_file_name(name: &str) -> (r: String)
    ensures
        r@ == "."@ + name@ + ".bck"@,
{
    let mut r = String::from_str(".");
    r.append(name);
    r.append(".bck");
    r
}

/// One symbol of the temporary-name alphabet: A-Z, a-z, 0-9, '+' and '-',
/// as an ASCII byte.
pub open spec fn radix64_byte(v: int) -> u8 {
    if v < 26 {
        (65 + v) as u8
    } else if v < 52 {
        (97 + v - 26) as u8
    } else if v < 62 {
        (48 + v - 52) as u8
    } else if v == 62 {
        43u8
    } else {
        45u8
    }
}

/// The `k` least significant base-64 digits of `r`, least significant
/// first, in the temporary-name alphabet.
pub open spec fn temp_digits(r: int, k: nat) -> Seq<u8>
    decreases k,
{
    if k == 0 {
        Seq::empty()
    } else {
        seq![radix64_byte(r % 64)] + temp_digits(r / 64, (k - 1) as nat)
    }
}

/// The temporary file's name derived from a random value: a dot, ten
/// base-64 digits of the value, and a fixed suffix, as ASCII bytes.
pub open spec fn temp_name_spec(r: u64) -> Seq<u8> {
    seq![46u8] + temp_digits(r as int, 10) + seq![46u8, 116u8, 109u8, 112u8]
}

/// Builds the temporary file name for one random draw. A caller retries
/// with a fresh draw while the name is taken.
pub fn temp_file_name(r: u64) -> (out: Vec<u8>)
    ensures
        out@ == temp_name_spec(r),
{
    let mut v: Vec<u8> = Vec::new();
    v.push(46);
    let mut x = r;
    for i in 0..10u32
        invariant
            seq![46u8] + temp_digits(r as int, 10) == v@ + temp_digits(x as int, (10 - i) as nat),
            v@.len() == i + 1,
    {
        let d = x % 64;
        let b: u8 = if d < 26 {
            65 + d as u8
        } else if d < 52 {
            97 + d as u8 - 26
        } else if d < 62 {
            48 + d as u8 - 52
        } else if d == 62 {
            43
        } else {
            45
        };
        proof {
            assert(b == radix64_byte(x as int % 64));
            assert(temp_digits(x as int, (10 - i) as nat) == seq![b] + temp_digits(
                x as int / 64,
                (10 - (i + 1)) as nat,
            ));
            assert(v@ + temp_digits(x as int, (10 - i) as nat) == v@.push(b) + temp_digits(
                x as int / 64,
                (10 - (i + 1)) as nat,
            ));
        }
        v.push(b);
        x = x / 64;
    }
    proof {
        assert(temp_digits(x as int, 0) == Seq::<u8>::empty());
        assert(v@ + temp_digits(x as int, 0) =~= v@);
        assert(v@ == seq![46u8] + temp_digits(r as int, 10));
    }
    v.push(46);
    v.push(116);
    v.push(109);
    v.push(112);
    proof {
        assert(v@ =~= temp_name_spec(r));
    }
    v
}

} // verus!
