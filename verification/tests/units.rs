//! Unit tests for the text, hashing and planning layers.

use wfiles::db::{assemble_groups, DupFile, DupRow};
use wfiles::dup_prune::{list_and_highlight, pick_dups_for_rules, KeepStrategy};
use wfiles::filehash::{more_to_read, FileHasher};
use wfiles::hasher::{ByteHasher, QuickHasher, SlowHasher};
use wfiles::hexnum::{bool_to_str, parse_bool, parse_u16, parse_u64, u64_to_dec};
use wfiles::ops::parse_buffer_megabytes;
use wfiles::strutil::{canonical_dirs, join_path, join_with_commas, parent_dir, sort_strings};
use wfiles::db::{check_stored_config, is_compatible, StashError};

#[test]
fn decimal_rendering_and_parsing_round_trip() {
    assert_eq!(u64_to_dec(0), "0");
    assert_eq!(u64_to_dec(256), "256");
    assert_eq!(u64_to_dec(18446744073709551615), "18446744073709551615");
    assert_eq!(parse_u64("256"), Some(256));
    assert_eq!(parse_u64(""), None);
    assert_eq!(parse_u64("12a"), None);
    assert_eq!(parse_u64("18446744073709551616"), None);
    assert_eq!(parse_u16("65535"), Some(65535));
    assert_eq!(parse_u16("65536"), None);
    assert_eq!(parse_bool("true"), Some(true));
    assert_eq!(parse_bool("false"), Some(false));
    assert_eq!(parse_bool("yes"), None);
    assert_eq!(bool_to_str(true), "true");
}

#[test]
fn version_gate() {
    assert!(is_compatible(0x0100));
    assert!(is_compatible(0x0105));
    assert!(!is_compatible(0x0200));
    assert!(check_stored_config(0x0100, false, false, false, false).is_ok());
    assert!(check_stored_config(0x0101, true, true, true, true).is_ok());
    assert!(check_stored_config(0x0200, false, false, false, false).is_err());
    assert!(check_stored_config(0x0100, true, false, false, false).is_err());
    assert!(check_stored_config(0x0100, false, true, false, false).is_err());
}

#[test]
fn empty_input_digests() {
    let mut fast = FileHasher::new(QuickHasher::new(), 16, true);
    assert_eq!(fast.finish_digest(), "2d06800538d394c2");
    let mut md5 = FileHasher::new(SlowHasher::MD5(), 16, true);
    assert_eq!(md5.finish_digest(), "d41d8cd98f00b204e9800998ecf8427e");
    let mut sha = FileHasher::new(SlowHasher::SHA512(), 16, true);
    assert_eq!(
        sha.finish_digest(),
        "cf83e1357eefb8bdf1542850d66d8007d620e4050b5715dc83f4a921d36ce9ce\
         47d0d13c5d85f2b0ff8318d2877eec2f63b931bd47417a81a538327af927da3e"
    );
}

#[test]
fn known_md5_digest() {
    let mut h = FileHasher::new(SlowHasher::MD5(), 16, true);
    h.feed(b"hello");
    assert_eq!(h.finish_digest(), "5d41402abc4b2a76b9719d911017c592");
}

#[test]
fn digests_are_deterministic_and_incremental() {
    let mut a = FileHasher::new(QuickHasher::new(), 16, true);
    a.feed(b"hello world");
    let whole = a.finish_digest();
    let mut b = FileHasher::new(QuickHasher::new(), 16, true);
    b.feed(b"hello ");
    b.feed(b"world");
    let chunked = b.finish_digest();
    assert_eq!(whole, chunked);
    assert_eq!(whole.len(), 16);
    // the hasher resets: a second file gets its own digest
    a.feed(b"hello world");
    assert_eq!(a.finish_digest(), whole);
    // direct trait use agrees with the driver
    let mut raw = QuickHasher::new();
    raw.update(b"hello world");
    raw.finish();
    assert_eq!(raw.digest(), whole);
}

#[test]
fn strong_variants_differ() {
    let mut short = FileHasher::new(SlowHasher::MD5(), 16, true);
    short.feed(b"payload");
    let s = short.finish_digest();
    let mut long = FileHasher::new(SlowHasher::SHA512(), 16, true);
    long.feed(b"payload");
    let l = long.finish_digest();
    assert_eq!(s.len(), 32);
    assert_eq!(l.len(), 128);
}

#[test]
fn read_loop_decision() {
    assert!(more_to_read(512, 512, 1024));
    assert!(!more_to_read(0, 512, 1024));
    assert!(!more_to_read(512, 1024, 1024));
    // a file that grew past its declared size still stops at the size
    assert!(!more_to_read(512, 2048, 2048));
}

#[test]
fn path_helpers() {
    assert_eq!(join_path("/a", "x"), "/a/x");
    assert_eq!(parent_dir("/a/x"), "/a");
    assert_eq!(parent_dir("/x"), "/");
    assert_eq!(parent_dir("x"), "");
    assert_eq!(parent_dir(""), "/");
    assert_eq!(parent_dir("/a/b/c.txt"), "/a/b");
}

#[test]
fn sorting_and_joining_are_canonical() {
    let v = vec!["/b".to_string(), "/a".to_string(), "/b".to_string(), "/a".to_string()];
    let sorted = sort_strings(v);
    assert_eq!(sorted, vec!["/a", "/a", "/b", "/b"]);
    let canon = canonical_dirs(vec!["/b".to_string(), "/a".to_string(), "/b".to_string()]);
    assert_eq!(canon, vec!["/a", "/b"]);
    assert_eq!(join_with_commas(&canon), "/a,/b");
}

fn group(one: &str, others: &[&str], hash: &str) -> DupFile {
    DupFile {
        one_path: one.to_string(),
        other_paths: others.iter().map(|s| s.to_string()).collect(),
        hash: hash.to_string(),
        num_dups: 1 + others.len() as u64,
        size: 10,
    }
}

#[test]
fn path_sig_is_order_insensitive() {
    let a = group("/a/x", &["/b/y", "/c/z"], "h");
    let b = group("/c/z", &["/a/x", "/b/y"], "h");
    assert_eq!(a.path_sig(), b.path_sig());
    assert_eq!(a.path_sig(), "/a,/b,/c");
}

#[test]
fn same_directory_group_is_excluded_from_planning() {
    let dups = vec![group("/a/x", &["/a/y"], "h")];
    assert_eq!(dups[0].path_sig(), "/a");
    let cases = pick_dups_for_rules(&dups);
    assert!(cases.is_empty());
}

#[test]
fn format_minimal_lists_paths() {
    let d = group("/a/x", &["/b/y"], "h");
    assert_eq!(d.format_minimal(false), "/a/x\n/b/y");
    assert_eq!(d.format_minimal(true), "1. /a/x\n2. /b/y");
}

#[test]
fn list_and_highlight_marks_position() {
    let paths = vec!["/a".to_string(), "/b".to_string()];
    assert_eq!(list_and_highlight(&paths, None), "+-- /a\n+-- /b\n");
    assert_eq!(list_and_highlight(&paths, Some(2)), "+-- /a\n(*) /b\n");
}

#[test]
fn keep_strategy_parsing() {
    let none: Option<KeepStrategy> = None;
    assert_eq!(KeepStrategy::from_str("a", 3, none), Ok(KeepStrategy::KEEP_AS_IS));
    assert_eq!(KeepStrategy::from_str("b 2", 3, none), Ok(KeepStrategy::KEEP_THIS_OF_THESE(2)));
    assert_eq!(KeepStrategy::from_str("c 3", 3, none), Ok(KeepStrategy::KEEP_THIS_OF_ANY(3)));
    assert_eq!(KeepStrategy::from_str("d", 3, none), Ok(KeepStrategy::KEEP_ANY_ONE));
    assert_eq!(KeepStrategy::from_str("e", 3, none), Ok(KeepStrategy::KEEP_OLDEST));
    assert_eq!(KeepStrategy::from_str("f", 3, none), Ok(KeepStrategy::KEEP_NEWEST));
    assert!(KeepStrategy::from_str("b 4", 3, none).is_err());
    assert!(KeepStrategy::from_str("b 0", 3, none).is_err());
    assert!(KeepStrategy::from_str("b x", 3, none).is_err());
    assert!(KeepStrategy::from_str("z", 3, none).is_err());
    assert_eq!(
        KeepStrategy::from_str("z", 3, Some(KeepStrategy::KEEP_AS_IS)),
        Ok(KeepStrategy::KEEP_AS_IS)
    );
    assert!(KeepStrategy::from_str("a", 3, Some(KeepStrategy::KEEP_THIS_OF_THESE(1))).is_err());
    assert!(KeepStrategy::from_str("a", 3, Some(KeepStrategy::KEEP_THIS_OF_ANY(1))).is_err());
}

#[test]
fn strategy_descriptions() {
    assert_eq!(KeepStrategy::KEEP_AS_IS.describe(), "Keep all versions");
    assert_eq!(KeepStrategy::KEEP_OLDEST.describe(), "Keep oldest version");
}

#[test]
fn error_messages_are_stable() {
    assert_eq!(
        StashError::VersionMismatch.message(),
        "stash file cannot be processed by this version of wfiles"
    );
    assert_eq!(
        StashError::Sha512ConfigMismatch.message(),
        "stash file was generated under different force_sha512 setting (see -s option)"
    );
}

#[test]
fn buffer_size_parsing() {
    assert_eq!(parse_buffer_megabytes("8"), Some(8 * 1024 * 1024));
    assert_eq!(parse_buffer_megabytes("0"), Some(0));
    assert_eq!(parse_buffer_megabytes(""), None);
    assert_eq!(parse_buffer_megabytes("abc"), None);
    assert_eq!(parse_buffer_megabytes("99999999999999999999"), None);
}

fn dup_row(dir: &str, name: &str, hash: &str, count: u64, size: u64) -> DupRow {
    DupRow {
        dir: dir.to_string(),
        name: name.to_string(),
        hash: hash.to_string(),
        count,
        size,
    }
}

#[test]
fn assembling_grouped_rows() {
    let rows = vec![
        dup_row("/a", "x", "h1", 2, 7),
        dup_row("/b", "x", "h1", 2, 7),
        dup_row("/a", "y", "h2", 3, 9),
        dup_row("/b", "y", "h2", 3, 9),
        dup_row("/c", "y", "h2", 3, 9),
    ];
    let groups = assemble_groups(&rows);
    assert_eq!(groups.len(), 2);
    assert_eq!(groups[0].one_path, "/a/x");
    assert_eq!(groups[0].other_paths, vec!["/b/x".to_string()]);
    assert_eq!(groups[0].num_dups, 2);
    assert_eq!(groups[0].size, 7);
    assert_eq!(groups[1].one_path, "/a/y");
    assert_eq!(groups[1].other_paths, vec!["/b/y".to_string(), "/c/y".to_string()]);
    assert_eq!(groups[1].hash, "h2");
}
