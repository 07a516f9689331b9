//! End-to-end catalogue scenarios over a real store on disk.

use wfiles::db::{DataBase, DBTransaction, DbEntryHasher, DupFile, FileMetadata,
    IdentifyDupsStatement, StashError};
use wfiles::dup_prune::{collect_dup_path_rules, pick_dups_for_rules, KeepStrategy};

/// A canned strong hasher: answers with the digest recorded for each
/// (directory, name) pair.
struct CannedHasher {
    entries: Vec<(String, String, String)>,
}

impl DbEntryHasher for CannedHasher {
    fn hash_dbentry(&mut self, dir: &str, name: &str, _size: u64) -> Result<String, StashError> {
        for (d, n, digest) in &self.entries {
            if d == dir && n == name {
                return Ok(digest.clone());
            }
        }
        Err(StashError::FileAccess)
    }
}

fn tmp_db(tag: &str) -> String {
    let nanos = std::time::SystemTime::now()
        .duration_since(std::time::UNIX_EPOCH)
        .unwrap()
        .as_nanos();
    format!("/tmp/wfiles_test_{}_{}.db", tag, nanos)
}

fn raw_rows(path: &str) -> Vec<(String, String, Option<String>, Option<String>, i64)> {
    let conn = rusqlite::Connection::open(path).unwrap();
    let mut st = conn
        .prepare("SELECT path, fname, fasthash, slowhash, size FROM files ORDER BY path, fname")
        .unwrap();
    let rows = st
        .query_map([], |r| {
            Ok((r.get(0)?, r.get(1)?, r.get(2)?, r.get(3)?, r.get(4)?))
        })
        .unwrap();
    rows.map(|r| r.unwrap()).collect()
}

#[test]
fn s1_no_collisions() {
    let path = tmp_db("s1");
    let mut db = DataBase::new(&path, false, false).unwrap();
    let mut hasher = CannedHasher { entries: vec![] };
    {
        let mut tx = DBTransaction::new(&mut db).unwrap();
        tx.try_add_medium("filesystem", "my computer").unwrap();
        let c1 = tx
            .index_file_two_tier(&mut hasher, "filesystem", "/a", "x", 5, "1111111111111111".to_string())
            .unwrap();
        let c2 = tx
            .index_file_two_tier(&mut hasher, "filesystem", "/a", "y", 5, "2222222222222222".to_string())
            .unwrap();
        assert!(!c1);
        assert!(!c2);
        tx.commit().unwrap();
    }
    let rows = raw_rows(&path);
    assert_eq!(rows.len(), 2);
    for (_, _, fast, slow, _) in &rows {
        assert!(fast.is_some());
        assert!(slow.is_none());
    }
    let store = DataBase::for_reading(&path).unwrap();
    let mut scan = IdentifyDupsStatement::new(&store);
    let dups = scan.get_dups().unwrap();
    assert!(dups.is_empty());
}

#[test]
fn s2_fast_collision_promotes_both() {
    let path = tmp_db("s2");
    let mut db = DataBase::new(&path, false, false).unwrap();
    let mut hasher = CannedHasher {
        entries: vec![
            ("/a".to_string(), "x".to_string(), "aaaa0001".to_string()),
            ("/a".to_string(), "y".to_string(), "aaaa0002".to_string()),
        ],
    };
    {
        let mut tx = DBTransaction::new(&mut db).unwrap();
        tx.try_add_medium("filesystem", "my computer").unwrap();
        let c1 = tx
            .index_file_two_tier(&mut hasher, "filesystem", "/a", "x", 7, "cafecafecafecafe".to_string())
            .unwrap();
        let c2 = tx
            .index_file_two_tier(&mut hasher, "filesystem", "/a", "y", 9, "cafecafecafecafe".to_string())
            .unwrap();
        assert!(!c1);
        assert!(c2);
        tx.commit().unwrap();
    }
    let rows = raw_rows(&path);
    assert_eq!(rows.len(), 2);
    let slow_x = rows[0].3.clone().unwrap();
    let slow_y = rows[1].3.clone().unwrap();
    assert_ne!(slow_x, slow_y);
    let store = DataBase::for_reading(&path).unwrap();
    let mut scan = IdentifyDupsStatement::new(&store);
    let dups = scan.get_dups().unwrap();
    assert!(dups.is_empty());
}

#[test]
fn s3_true_duplicates_one_group() {
    let path = tmp_db("s3");
    let mut db = DataBase::new(&path, false, false).unwrap();
    let shared = "feedbeeffeedbeeffeedbeeffeedbeef".to_string();
    let mut hasher = CannedHasher {
        entries: vec![
            ("/a".to_string(), "dup1".to_string(), shared.clone()),
            ("/b".to_string(), "dup2".to_string(), shared.clone()),
        ],
    };
    {
        let mut tx = DBTransaction::new(&mut db).unwrap();
        tx.try_add_medium("filesystem", "my computer").unwrap();
        tx.index_file_two_tier(&mut hasher, "filesystem", "/a", "dup1", 4096, "f00df00df00df00d".to_string())
            .unwrap();
        let c2 = tx
            .index_file_two_tier(&mut hasher, "filesystem", "/b", "dup2", 4096, "f00df00df00df00d".to_string())
            .unwrap();
        assert!(c2);
        tx.commit().unwrap();
    }
    let store = DataBase::for_reading(&path).unwrap();
    let mut scan = IdentifyDupsStatement::new(&store);
    let dups = scan.get_dups().unwrap();
    assert_eq!(dups.len(), 1);
    assert_eq!(dups[0].num_dups, 2);
    assert_eq!(dups[0].hash, shared);
    assert_eq!(dups[0].size, 4096);
    assert_eq!(dups[0].one_path, "/a/dup1");
    assert_eq!(dups[0].other_paths, vec!["/b/dup2".to_string()]);
}

fn group(one: &str, others: &[&str], hash: &str) -> DupFile {
    DupFile {
        one_path: one.to_string(),
        other_paths: others.iter().map(|s| s.to_string()).collect(),
        hash: hash.to_string(),
        num_dups: 1 + others.len() as u64,
        size: 10,
    }
}

#[test]
fn s4_prune_planner_consolidates_one_signature() {
    let dups = vec![
        group("/a/one", &["/b/one"], "h1"),
        group("/a/two", &["/b/two"], "h2"),
        group("/a/three", &["/b/three"], "h3"),
    ];
    let cases = pick_dups_for_rules(&dups);
    assert_eq!(cases.len(), 1);
    assert_eq!(cases[0].hash, "h1");
    let decisions = vec![KeepStrategy::KEEP_AS_IS];
    let rules = collect_dup_path_rules(&dups, &decisions);
    let entries = rules.entries();
    assert_eq!(entries.len(), 1);
    assert_eq!(entries[0].0, "/a,/b");
    assert_eq!(entries[0].1.verdict(), KeepStrategy::KEEP_AS_IS);
    assert_eq!(entries[0].1.describe(), "--- Keep as is\n+-- /a\n+-- /b\n");
}

#[test]
fn s5_configuration_lock_refuses_mismatch() {
    let path = tmp_db("s5");
    {
        let db = DataBase::new(&path, false, false).unwrap();
        drop(db);
    }
    let reopened = DataBase::new(&path, false, true);
    assert!(matches!(reopened, Err(StashError::OnlySlowConfigMismatch)));
    let sha_mismatch = DataBase::new(&path, true, false);
    assert!(matches!(sha_mismatch, Err(StashError::Sha512ConfigMismatch)));
    // the catalogue itself is unchanged and still opens under its own flags
    let again = DataBase::new(&path, false, false);
    assert!(again.is_ok());
}

#[test]
fn s6_strong_only_mode() {
    let path = tmp_db("s6");
    let mut db = DataBase::new(&path, false, true).unwrap();
    let shared = "00aa00aa00aa00aa00aa00aa00aa00aa".to_string();
    {
        let mut tx = DBTransaction::new(&mut db).unwrap();
        tx.try_add_medium("filesystem", "my computer").unwrap();
        tx.record_strong_only("filesystem", "/a", "same1", 12, shared.clone()).unwrap();
        tx.record_strong_only("filesystem", "/b", "same2", 12, shared.clone()).unwrap();
        tx.commit().unwrap();
    }
    let rows = raw_rows(&path);
    assert_eq!(rows.len(), 2);
    for (_, _, fast, slow, _) in &rows {
        assert!(fast.is_none());
        assert_eq!(slow.as_deref(), Some(shared.as_str()));
    }
    let store = DataBase::for_reading(&path).unwrap();
    let mut scan = IdentifyDupsStatement::new(&store);
    let dups = scan.get_dups().unwrap();
    assert_eq!(dups.len(), 1);
    assert_eq!(dups[0].num_dups, 2);
}

#[test]
fn reopen_read_only_then_writable_is_no_op() {
    let path = tmp_db("reopen");
    let mut db = DataBase::new(&path, false, false).unwrap();
    let mut hasher = CannedHasher { entries: vec![] };
    {
        let mut tx = DBTransaction::new(&mut db).unwrap();
        tx.try_add_medium("filesystem", "my computer").unwrap();
        tx.index_file_two_tier(&mut hasher, "filesystem", "/a", "x", 5, "1234123412341234".to_string())
            .unwrap();
        tx.commit().unwrap();
    }
    let before = raw_rows(&path);
    {
        let ro = DataBase::for_reading(&path).unwrap();
        drop(ro);
    }
    {
        let rw = DataBase::new(&path, false, false).unwrap();
        drop(rw);
    }
    let after = raw_rows(&path);
    assert_eq!(before, after);
}

#[test]
fn unknown_medium_is_a_store_error() {
    let path = tmp_db("badmedium");
    let mut db = DataBase::new(&path, false, false).unwrap();
    let mut tx = DBTransaction::new(&mut db).unwrap();
    let fm = FileMetadata {
        medium: "never-added",
        directory: "/a",
        name: "x",
        fasthash: Some("1111111111111111".to_string()),
        slowhash: None,
        size: 1,
    };
    let r = tx.add_file(fm);
    assert!(matches!(r, Err(StashError::Sql(_))));
}

#[test]
fn read_only_open_needs_initialised_catalogue() {
    let path = tmp_db("uninit");
    // create an empty SQLite file that was never initialised
    {
        let conn = rusqlite::Connection::open(&path).unwrap();
        drop(conn);
    }
    let r = DataBase::for_reading(&path);
    assert!(matches!(r, Err(StashError::NotInitialized)));
}

#[test]
fn incompatible_major_version_is_refused() {
    let path = tmp_db("version");
    {
        let db = DataBase::new(&path, false, false).unwrap();
        drop(db);
    }
    {
        let conn = rusqlite::Connection::open(&path).unwrap();
        conn.execute("UPDATE config SET value='999' WHERE key='version'", [])
            .unwrap();
    }
    let rw = DataBase::new(&path, false, false);
    assert!(matches!(rw, Err(StashError::VersionMismatch)));
    let ro = DataBase::for_reading(&path);
    assert!(matches!(ro, Err(StashError::VersionMismatch)));
}

#[test]
fn minor_version_is_accepted_forward() {
    let path = tmp_db("minor");
    {
        let db = DataBase::new(&path, false, false).unwrap();
        drop(db);
    }
    {
        let conn = rusqlite::Connection::open(&path).unwrap();
        // major byte 0x01, minor byte 0x05: decimal 261
        conn.execute("UPDATE config SET value='261' WHERE key='version'", [])
            .unwrap();
    }
    assert!(DataBase::new(&path, false, false).is_ok());
    assert!(DataBase::for_reading(&path).is_ok());
}

#[test]
fn promotion_reread_failure_is_fatal_to_the_call() {
    let path = tmp_db("promofail");
    let mut db = DataBase::new(&path, false, false).unwrap();
    // the canned hasher knows no entries, so re-reading the partner fails
    let mut hasher = CannedHasher { entries: vec![] };
    let mut tx = DBTransaction::new(&mut db).unwrap();
    tx.try_add_medium("filesystem", "my computer").unwrap();
    tx.index_file_two_tier(&mut hasher, "filesystem", "/a", "x", 5, "abcdabcdabcdabcd".to_string())
        .unwrap();
    let r = tx.index_file_two_tier(&mut hasher, "filesystem", "/a", "y", 5, "abcdabcdabcdabcd".to_string());
    assert!(matches!(r, Err(StashError::FileAccess)));
}

#[test]
fn unreadable_config_value_is_refused() {
    let path = tmp_db("badconfig");
    {
        let db = DataBase::new(&path, false, false).unwrap();
        drop(db);
    }
    {
        let conn = rusqlite::Connection::open(&path).unwrap();
        conn.execute("UPDATE config SET value='banana' WHERE key='force_sha512'", [])
            .unwrap();
    }
    let rw = DataBase::new(&path, false, false);
    assert!(matches!(rw, Err(StashError::BadConfig)));
    let ro = DataBase::for_reading(&path);
    assert!(matches!(ro, Err(StashError::BadConfig)));
}

#[test]
fn appending_session_promotes_rows_of_an_earlier_pass() {
    let path = tmp_db("append");
    let mut hasher = CannedHasher {
        entries: vec![
            ("/a".to_string(), "x".to_string(), "1212121212121212".to_string()),
            ("/b".to_string(), "y".to_string(), "3434343434343434".to_string()),
        ],
    };
    {
        let mut db = DataBase::new(&path, false, false).unwrap();
        let mut tx = DBTransaction::new(&mut db).unwrap();
        tx.try_add_medium("filesystem", "my computer").unwrap();
        tx.index_file_two_tier(&mut hasher, "filesystem", "/a", "x", 3, "5656565656565656".to_string())
            .unwrap();
        tx.commit().unwrap();
    }
    {
        let mut db = DataBase::new(&path, false, false).unwrap();
        let mut tx = DBTransaction::new(&mut db).unwrap();
        let collided = tx
            .index_file_two_tier(&mut hasher, "filesystem", "/b", "y", 3, "5656565656565656".to_string())
            .unwrap();
        assert!(collided);
        tx.commit().unwrap();
    }
    let rows = raw_rows(&path);
    assert_eq!(rows.len(), 2);
    for (_, _, _, slow, _) in &rows {
        assert!(slow.is_some());
    }
}

#[test]
fn duplicate_groups_come_out_fingerprint_sorted() {
    let path = tmp_db("sorted");
    let mut db = DataBase::new(&path, false, false).unwrap();
    let later = "bbbbbbbbbbbbbbbbbbbbbbbbbbbbbbbb".to_string();
    let earlier = "aaaaaaaaaaaaaaaaaaaaaaaaaaaaaaaa".to_string();
    let mut hasher = CannedHasher {
        entries: vec![
            ("/a".to_string(), "p".to_string(), later.clone()),
            ("/b".to_string(), "p".to_string(), later.clone()),
            ("/a".to_string(), "q".to_string(), earlier.clone()),
            ("/b".to_string(), "q".to_string(), earlier.clone()),
        ],
    };
    {
        let mut tx = DBTransaction::new(&mut db).unwrap();
        tx.try_add_medium("filesystem", "my computer").unwrap();
        // the group with the larger fingerprint is indexed first
        tx.index_file_two_tier(&mut hasher, "filesystem", "/a", "p", 1, "9999000099990000".to_string())
            .unwrap();
        tx.index_file_two_tier(&mut hasher, "filesystem", "/b", "p", 1, "9999000099990000".to_string())
            .unwrap();
        tx.index_file_two_tier(&mut hasher, "filesystem", "/a", "q", 2, "8888000088880000".to_string())
            .unwrap();
        tx.index_file_two_tier(&mut hasher, "filesystem", "/b", "q", 2, "8888000088880000".to_string())
            .unwrap();
        tx.commit().unwrap();
    }
    let store = DataBase::for_reading(&path).unwrap();
    let mut scan = IdentifyDupsStatement::new(&store);
    let dups = scan.get_dups().unwrap();
    assert_eq!(dups.len(), 2);
    assert_eq!(dups[0].hash, earlier);
    assert_eq!(dups[1].hash, later);
}
