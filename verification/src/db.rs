//! The persistent catalogue.
//!
//! A single-file embedded SQLite store holds three tables: `config`
//! (schema version and the two mode flags, written once at creation),
//! `media` (named origins) and `files` (one row per indexed file with
//! its optional fast and strong fingerprints). Opening an existing
//! catalogue is gated: the stored major version must equal this
//! implementation's, and the two mode flags must match exactly.
//!
//! A write transaction carries a ghost model of the rows it has
//! inserted, and the lazy-promotion protocol is verified against that
//! model: in two-tier mode a row acquires a strong fingerprint only
//! together with a fast-fingerprint sibling.

use vstd::prelude::*;
use crate::hexnum::{parse_u16, parse_bool, bool_chars, u64_to_dec, bool_to_str, dec_digits};
use crate::strutil::{joined_path, join_path, views_of, canon_sig, canonical_dirs, join_with_commas, parent_of, parent_dir, lemma_map_to_multiset, lemma_canon_sig_permutation, chars_leq};

verus! {

/// Default catalogue file name.
pub const DEFAULT_DB: &'static str = "stash.db";

/// Schema version as a 16-bit major.minor pair: high byte major, low
/// byte minor.
pub const DB_VERSION: u16 = 0x0100;

#[verifier::external_type_specification]
#[verifier::external_body]
pub struct ExConnection(rusqlite::Connection);

#[verifier::external_type_specification]
#[verifier::external_body]
pub struct ExSqlTransaction<'conn>(rusqlite::Transaction<'conn>);

#[verifier::external_type_specification]
#[verifier::external_body]
pub struct ExSqlError(rusqlite::Error);

/// Everything that can go wrong in the catalogue layer, and the file
/// access failure an injected hasher can report.
#[derive(Debug)]
pub enum StashError {
    /// The stored major version differs from this implementation's.
    VersionMismatch,
    /// The catalogue was created under the other strong-hash variant.
    Sha512ConfigMismatch,
    /// The catalogue was created under the other fast-tier setting.
    OnlySlowConfigMismatch,
    /// A read-only open found no initialised catalogue.
    NotInitialized,
    /// A configuration value was missing or unreadable.
    BadConfig,
    /// A file could not be opened or read back for hashing.
    FileAccess,
    /// The underlying store reported an error.
    Sql(rusqlite::Error),
}

/// The fixed diagnostic line of each failure.
pub open spec fn message_text(e: StashError) -> Seq<char> {
    match e {
        StashError::VersionMismatch => "stash file cannot be processed by this version of wfiles"@,
        StashError::Sha512ConfigMismatch => "stash file was generated under different force_sha512 setting (see -s option)"@,
        StashError::OnlySlowConfigMismatch => "stash file was generated under different only_slowhash setting (see -l option)"@,
        StashError::NotInitialized => "non initialized stash file found"@,
        StashError::BadConfig => "did not find expected configuration in stash file"@,
        StashError::FileAccess => "error while accessing file for hashing"@,
        StashError::Sql(_) => "error reported by the catalogue store"@,
    }
}

impl StashError {
    /// A fixed diagnostic line for each failure, per `message_text`.
    pub fn message(&self) -> (r: &'static str)
        ensures
            r@ == message_text(*self),
    {
        match self {
            StashError::VersionMismatch => "stash file cannot be processed by this version of wfiles",
            StashError::Sha512ConfigMismatch => "stash file was generated under different force_sha512 setting (see -s option)",
            StashError::OnlySlowConfigMismatch => "stash file was generated under different only_slowhash setting (see -l option)",
            StashError::NotInitialized => "non initialized stash file found",
            StashError::BadConfig => "did not find expected configuration in stash file",
            StashError::FileAccess => "error while accessing file for hashing",
            StashError::Sql(_) => "error reported by the catalogue store",
        }
    }
}

/// The catalogue handle: a connection plus the two mode flags it was
/// opened under, and whether this very open created the catalogue (so
/// its `files` table started empty).
pub struct DataBase {
    conn: rusqlite::Connection,
    pub force_sha512: bool,
    pub only_slowhash: bool,
    pub fresh: bool,
}

impl DataBase {
    /// Whether the long (SHA-512) strong variant is configured.
    pub closed spec fn sha512_mode(&self) -> bool {
        self.force_sha512
    }

    /// Whether the fast tier is disabled (strong-only mode).
    pub closed spec fn only_slow_mode(&self) -> bool {
        self.only_slowhash
    }

    /// Whether this open created the catalogue, so the files table
    /// started empty.
    pub closed spec fn is_fresh(&self) -> bool {
        self.fresh
    }
}

/// Two catalogue versions are compatible when their major bytes agree;
/// the minor byte is accepted forward.
pub fn is_compatible(file_version: u16) -> (r: bool)
    ensures
        r == ((file_version & 0xff00) == (DB_VERSION & 0xff00)),
{
    (file_version & 0xff00) == (DB_VERSION & 0xff00)
}

/// The configuration gate: exactly which stored triple a session with
/// the wanted flags may open. Major version bytes must agree and both
/// flags must match bit for bit; the first difference names the error.
pub fn check_stored_config(
    stored_version: u16,
    stored_sha512: bool,
    stored_only: bool,
    want_sha512: bool,
    want_only: bool,
) -> (r: Result<(), StashError>)
    ensures
        r == (if (stored_version & 0xff00) != (DB_VERSION & 0xff00) {
            Result::<(), StashError>::Err(StashError::VersionMismatch)
        } else if stored_sha512 != want_sha512 {
            Result::<(), StashError>::Err(StashError::Sha512ConfigMismatch)
        } else if stored_only != want_only {
            Result::<(), StashError>::Err(StashError::OnlySlowConfigMismatch)
        } else {
            Result::<(), StashError>::Ok(())
        }),
{
    if !is_compatible(stored_version) {
        Err(StashError::VersionMismatch)
    } else if stored_sha512 != want_sha512 {
        Err(StashError::Sha512ConfigMismatch)
    } else if stored_only != want_only {
        Err(StashError::OnlySlowConfigMismatch)
    } else {
        Ok(())
    }
}

/// Relies on rusqlite's Connection::open_with_flags with read-write and
/// create flags: opens or creates the file at the path.
#[verifier::external_body]
fn sql_open_rw(path: &str) -> Result<rusqlite::Connection, rusqlite::Error> {
    rusqlite::Connection::open_with_flags(
        path,
        rusqlite::OpenFlags::SQLITE_OPEN_READ_WRITE | rusqlite::OpenFlags::SQLITE_OPEN_CREATE,
    )
}

/// Relies on rusqlite's Connection::open_with_flags with the read-only
/// flag: opens an existing file without write access.
#[verifier::external_body]
fn sql_open_ro(path: &str) -> Result<rusqlite::Connection, rusqlite::Error> {
    rusqlite::Connection::open_with_flags(path, rusqlite::OpenFlags::SQLITE_OPEN_READ_ONLY)
}

/// Relies on rusqlite's Connection::query_row: true exactly when the
/// config table exists and has a first row, i.e. the schema was
/// installed and populated by an earlier session.
#[verifier::external_body]
fn sql_is_initialized(conn: &rusqlite::Connection) -> bool {
    let res: rusqlite::Result<String> = conn.query_row("SELECT * from config", [], |r| r.get(1));
    res.is_ok()
}

/// Relies on rusqlite's Connection::execute_batch: runs the statements
/// of the script in order, stopping at the first error.
#[verifier::external_body]
fn sql_execute_batch(conn: &rusqlite::Connection, sql: &str) -> Result<(), rusqlite::Error> {
    conn.execute_batch(sql)
}

/// Relies on rusqlite's Connection::query_row: the stored value text
/// for the configuration key, or the error when there is none.
#[verifier::external_body]
fn sql_query_config(conn: &rusqlite::Connection, key: &str) -> Result<String, rusqlite::Error> {
    conn.query_row("SELECT value from config where key=?1", [key], |row| row.get(0))
}

/// One INSERT statement of the config script.
pub open spec fn config_insert_sql(key: Seq<char>, value: Seq<char>) -> Seq<char> {
    "INSERT INTO config (key, value) VALUES('"@ + key + "', '"@ + value + "')"@
}

/// Builds one INSERT statement of the config script, matching
/// `config_insert_sql`.
pub fn config_db_sql(key: &str, value: &str) -> (r: String)
    ensures
        r@ == config_insert_sql(key@, value@),
{
    let mut s = "INSERT INTO config (key, value) VALUES('".to_owned();
    s.append(key);
    s.append("', '");
    s.append(value);
    s.append("')");
    s
}

/// The schema: the three tables, their indexes, and nothing else. The
/// version and flag values are appended as config inserts.
pub const SCHEMA_SQL: &'static str = "CREATE TABLE config\
            (config_id INTEGER NOT NULL,\
             key TEXT NOT NULL UNIQUE,\
             value TEXT,\
             PRIMARY KEY (config_id));\
            CREATE TABLE media\
            (medium_id INTEGER NOT NULL,\
            medium text NOT NULL UNIQUE,\
            medium_comment text,\
            PRIMARY KEY (medium_id));\
            CREATE TABLE files\
            (medium_id INTEGER NOT NULL,\
            path text NOT NULL,\
            fname text NOT NULL,\
            fasthash text,\
            slowhash text,\
            size INTEGER NOT NULL,\
            CONSTRAINT files_id PRIMARY KEY (medium_id, path, fname),\
            FOREIGN KEY(medium_id) REFERENCES media(medium_id));\
            CREATE INDEX idx_fasthash ON files (fasthash);\
            CREATE INDEX idx_slowhash ON files (slowhash);\
            CREATE INDEX idx_size ON files (size);\
            CREATE INDEX idx_fname ON files (fname);\
            CREATE INDEX idx_medium ON media (medium);\
            CREATE INDEX idx_config ON config (key);";

/// The whole initialisation script: schema, then the version and the
/// two mode flags as decimal and boolean text.
pub open spec fn init_sql(version: u16, force_sha512: bool, only_slowhash: bool) -> Seq<char> {
    SCHEMA_SQL@ + config_insert_sql("version"@, dec_digits(version as int)) + ";"@
        + config_insert_sql("force_sha512"@, bool_chars(force_sha512)) + ";"@
        + config_insert_sql("only_slowhash"@, bool_chars(only_slowhash))
}

/// Builds the initialisation script, matching `init_sql`.
fn build_init_sql(version: u16, force_sha512: bool, only_slowhash: bool) -> (r: String)
    ensures
        r@ == init_sql(version, force_sha512, only_slowhash),
{
    let version_text = u64_to_dec(version as u64);
    let mut s = SCHEMA_SQL.to_owned();
    s.append(config_db_sql("version", version_text.as_str()).as_str());
    s.append(";");
    s.append(config_db_sql("force_sha512", bool_to_str(force_sha512)).as_str());
    s.append(";");
    s.append(config_db_sql("only_slowhash", bool_to_str(only_slowhash)).as_str());
    s
}

/// Reads and parses one 16-bit configuration value; a missing or
/// non-decimal value is a configuration error.
fn read_config_u16(conn: &rusqlite::Connection, key: &str) -> (r: Result<u16, StashError>)
    ensures
        r is Err ==> r->Err_0 is BadConfig,
{
    match sql_query_config(conn, key) {
        Ok(text) => match parse_u16(text.as_str()) {
            Some(v) => Ok(v),
            None => Err(StashError::BadConfig),
        },
        Err(_) => Err(StashError::BadConfig),
    }
}

/// Reads and parses one boolean configuration value; a missing or
/// non-boolean value is a configuration error.
fn read_config_bool(conn: &rusqlite::Connection, key: &str) -> (r: Result<bool, StashError>)
    ensures
        r is Err ==> r->Err_0 is BadConfig,
{
    match sql_query_config(conn, key) {
        Ok(text) => match parse_bool(text.as_str()) {
            Some(v) => Ok(v),
            None => Err(StashError::BadConfig),
        },
        Err(_) => Err(StashError::BadConfig),
    }
}

impl DataBase {
    /// Opens or creates a writable catalogue. A file that has never
    /// been initialised gets the schema and the three config values; an
    /// initialised one is gated by `check_stored_config`. The returned
    /// handle carries exactly the requested flags.
    ///
    /// An existing catalogue that should be overwritten must be removed
    /// by the caller beforehand; this function never deletes anything.
    pub fn new(path: &str, force_sha512: bool, only_slowhash: bool) -> (r: Result<
        DataBase,
        StashError,
    >)
        ensures
            match r {
                Ok(db) => db.sha512_mode() == force_sha512 && db.only_slow_mode()
                    == only_slowhash,
                Err(e) => e is Sql || e is BadConfig || e is VersionMismatch
                    || e is Sha512ConfigMismatch || e is OnlySlowConfigMismatch,
            },
    {
        let conn = match sql_open_rw(path) {
            Ok(c) => c,
            Err(e) => {
                return Err(StashError::Sql(e));
            },
        };
        if !sql_is_initialized(&conn) {
            let script = build_init_sql(DB_VERSION, force_sha512, only_slowhash);
            match sql_execute_batch(&conn, script.as_str()) {
                Ok(()) => {},
                Err(e) => {
                    return Err(StashError::Sql(e));
                },
            }
            Ok(DataBase { conn, force_sha512, only_slowhash, fresh: true })
        } else {
            let stored_version = match read_config_u16(&conn, "version") {
                Ok(v) => v,
                Err(e) => {
                    return Err(e);
                },
            };
            let stored_sha512 = match read_config_bool(&conn, "force_sha512") {
                Ok(v) => v,
                Err(e) => {
                    return Err(e);
                },
            };
            let stored_only = match read_config_bool(&conn, "only_slowhash") {
                Ok(v) => v,
                Err(e) => {
                    return Err(e);
                },
            };
            match check_stored_config(
                stored_version,
                stored_sha512,
                stored_only,
                force_sha512,
                only_slowhash,
            ) {
                Ok(()) => {},
                Err(e) => {
                    return Err(e);
                },
            }
            Ok(DataBase { conn, force_sha512, only_slowhash, fresh: false })
        }
    }

    /// Opens an existing catalogue read-only. It must be initialised
    /// and of a compatible major version; the stored mode flags are
    /// read out into the returned handle.
    ///
    /// A read-only open never installs a schema and never writes: the
    /// handle it returns does not claim a fresh files table, and the
    /// only refusals are the store's own error, an uninitialised
    /// catalogue, an unreadable configuration value, or a version
    /// mismatch — never a flag mismatch, since the flags are read out
    /// rather than gated. The version test and the flag parsing are
    /// exact one call down (`is_compatible`, `parse_bool`).
    pub fn for_reading(path: &str) -> (r: Result<DataBase, StashError>)
        ensures
            match r {
                Ok(db) => !db.is_fresh(),
                Err(e) => e is Sql || e is NotInitialized || e is BadConfig
                    || e is VersionMismatch,
            },
    {
        let conn = match sql_open_ro(path) {
            Ok(c) => c,
            Err(e) => {
                return Err(StashError::Sql(e));
            },
        };
        if !sql_is_initialized(&conn) {
            return Err(StashError::NotInitialized);
        }
        let stored_version = match read_config_u16(&conn, "version") {
            Ok(v) => v,
            Err(e) => {
                return Err(e);
            },
        };
        if !is_compatible(stored_version) {
            return Err(StashError::VersionMismatch);
        }
        let force_sha512 = match read_config_bool(&conn, "force_sha512") {
            Ok(v) => v,
            Err(e) => {
                return Err(e);
            },
        };
        let only_slowhash = match read_config_bool(&conn, "only_slowhash") {
            Ok(v) => v,
            Err(e) => {
                return Err(e);
            },
        };
        Ok(DataBase { conn, force_sha512, only_slowhash, fresh: false })
    }
}

/// One `files` row, as the transaction's model sees it.
pub ghost struct FileRec {
    pub rowid: int,
    pub medium: Seq<char>,
    pub dir: Seq<char>,
    pub name: Seq<char>,
    pub fast: Option<Seq<char>>,
    pub strong: Option<Seq<char>>,
    pub size: u64,
}

/// One file to record, as plain values.
pub struct FileMetadata<'a> {
    pub medium: &'a str,
    pub directory: &'a str,
    pub name: &'a str,
    pub fasthash: Option<String>,
    pub slowhash: Option<String>,
    pub size: u64,
}

impl<'a> FileMetadata<'a> {
    /// The model row this metadata becomes under a given rowid.
    pub open spec fn to_rec(&self, rowid: int) -> FileRec {
        FileRec {
            rowid,
            medium: self.medium@,
            dir: self.directory@,
            name: self.name@,
            fast: self.fasthash.deep_view(),
            strong: self.slowhash.deep_view(),
            size: self.size,
        }
    }
}

/// No two model rows share a rowid.
pub open spec fn distinct_rowids(files: Seq<FileRec>) -> bool {
    forall|i: int, j: int|
        0 <= i < j < files.len() ==> (#[trigger] files[i]).rowid != (#[trigger] files[j]).rowid
}

/// The lazy-promotion shape of a two-tier catalogue: a row carries a
/// strong fingerprint only if it also carries a fast fingerprint and
/// some other row shares that fast fingerprint.
pub open spec fn two_tier_promoted(files: Seq<FileRec>) -> bool {
    forall|i: int|
        0 <= i < files.len() && (#[trigger] files[i]).strong.is_some() ==> files[i].fast.is_some()
            && exists|j: int|
            0 <= j < files.len() && j != i && (#[trigger] files[j]).fast == files[i].fast
}

/// In strong-only mode every row has a strong fingerprint and none has
/// a fast one.
pub open spec fn strong_only_rows(files: Seq<FileRec>) -> bool {
    forall|i: int|
        0 <= i < files.len() ==> (#[trigger] files[i]).fast.is_none() && files[i].strong.is_some()
}

/// In two-tier mode every row has a fast fingerprint.
pub open spec fn fast_rows(files: Seq<FileRec>) -> bool {
    forall|i: int| 0 <= i < files.len() ==> (#[trigger] files[i]).fast.is_some()
}

/// `after` is `before` with at most strong fingerprints filled in:
/// same rows, in order, each unchanged or promoted.
pub open spec fn promoted_only(before: Seq<FileRec>, after: Seq<FileRec>) -> bool {
    &&& after.len() == before.len()
    &&& forall|i: int|
        0 <= i < before.len() ==> ((#[trigger] after[i]) == before[i] || (after[i] == (FileRec {
            strong: after[i].strong,
            ..before[i]
        }) && after[i].strong.is_some()))
}

/// At most one row of `before` differs in `after`: a promotion step
/// touches a single partner, never several rows at once.
pub open spec fn at_most_one_changed(before: Seq<FileRec>, after: Seq<FileRec>) -> bool {
    forall|i: int, j: int|
        0 <= i < before.len() && 0 <= j < before.len() && i != j && (#[trigger] after[i])
            != before[i] ==> (#[trigger] after[j]) == before[j]
}

/// A collision partner returned by the fast-fingerprint probe.
pub struct CollisionPartner {
    pub rowid: i64,
    pub dir: String,
    pub name: String,
    pub size: u64,
}

/// Whether a model row is the probe answer for a fast fingerprint.
pub open spec fn partner_matches(rec: FileRec, p: CollisionPartner, fast: Seq<char>) -> bool {
    &&& rec.fast == Some(fast)
    &&& rec.rowid == p.rowid as int
    &&& rec.dir == p.dir@
    &&& rec.name == p.name@
    &&& rec.size == p.size
}

/// Computes a strong digest for a catalogue entry named by directory,
/// file name and size. The indexing session is handed one of these;
/// how the bytes are read back is the implementer's business.
pub trait DbEntryHasher {
    fn hash_dbentry(&mut self, dir: &str, name: &str, size: u64) -> Result<String, StashError>;
}

/// A write transaction on the catalogue, carrying the model of the
/// rows it has inserted and the media labels it has ensured.
pub struct DBTransaction<'conn> {
    trans: rusqlite::Transaction<'conn>,
    pub force_sha512: bool,
    pub only_slowhash: bool,
    pub fresh: bool,
    files: Ghost<Seq<FileRec>>,
    media: Ghost<Set<Seq<char>>>,
}

impl<'conn> DBTransaction<'conn> {
    /// The rows this transaction has inserted, in order.
    pub closed spec fn model(&self) -> Seq<FileRec> {
        self.files@
    }

    /// The media labels this transaction has ensured.
    pub closed spec fn media_model(&self) -> Set<Seq<char>> {
        self.media@
    }

    /// Whether the fast tier is disabled.
    pub closed spec fn only_slow(&self) -> bool {
        self.only_slowhash
    }

    /// Whether the long strong variant is configured.
    pub closed spec fn sha512(&self) -> bool {
        self.force_sha512
    }

    /// Whether the catalogue's files table was empty when the owning
    /// handle was opened, so this transaction's rows are all there are.
    pub closed spec fn is_fresh(&self) -> bool {
        self.fresh
    }

    /// What every public operation preserves: rowids stay distinct and
    /// the mode discipline holds — strong-only rows in strong-only
    /// mode; in two-tier mode every row has a fast fingerprint, and on
    /// a fresh catalogue the lazy-promotion shape holds.
    pub open spec fn inv(&self) -> bool {
        &&& distinct_rowids(self.model())
        &&& (self.only_slow() ==> strong_only_rows(self.model()))
        &&& (!self.only_slow() ==> fast_rows(self.model()))
        &&& (self.is_fresh() && !self.only_slow() ==> two_tier_promoted(self.model()))
    }
}

/// Relies on rusqlite's Connection::transaction: begins a write
/// transaction; the handle's flags are untouched.
#[verifier::external_body]
fn sql_begin<'a>(db: &'a mut DataBase) -> (r: Result<rusqlite::Transaction<'a>, rusqlite::Error>)
    ensures
        final(db).sha512_mode() == old(db).sha512_mode(),
        final(db).only_slow_mode() == old(db).only_slow_mode(),
        final(db).is_fresh() == old(db).is_fresh(),
{
    db.conn.transaction()
}

/// Relies on rusqlite's Transaction::commit: makes the transaction's
/// writes durable.
#[verifier::external_body]
fn sql_commit(t: rusqlite::Transaction<'_>) -> Result<(), rusqlite::Error> {
    t.commit()
}

/// Relies on rusqlite prepare_cached/execute: INSERT OR IGNORE of one
/// media row by label; on success the label is present.
#[verifier::external_body]
fn sql_insert_medium(t: &mut DBTransaction<'_>, medium: &str, descr: &str) -> (r: Result<
    (),
    rusqlite::Error,
>)
    ensures
        final(t).files@ == old(t).files@,
        final(t).only_slowhash == old(t).only_slowhash,
        final(t).force_sha512 == old(t).force_sha512,
        final(t).fresh == old(t).fresh,
        match r {
            Ok(()) => final(t).media@ == old(t).media@.insert(medium@),
            Err(_) => final(t).media@ == old(t).media@,
        },
{
    let mut st = t.trans.prepare_cached(
        "INSERT OR IGNORE INTO media (medium, medium_comment) VALUES (?1, ?2)",
    )?;
    st.execute((medium, descr))?;
    Ok(())
}

/// Relies on rusqlite prepare_cached/execute and SQLite rowids: INSERT
/// of one files row (the medium id resolved from the media table by
/// label); on success exactly that row is appended, under a rowid no
/// earlier inserted row carries, and the new rowid is returned.
#[verifier::external_body]
fn sql_insert_file(
    t: &mut DBTransaction<'_>,
    medium: &str,
    dir: &str,
    name: &str,
    fast: &Option<String>,
    strong: &Option<String>,
    size: u64,
) -> (r: Result<i64, rusqlite::Error>)
    ensures
        final(t).media@ == old(t).media@,
        final(t).only_slowhash == old(t).only_slowhash,
        final(t).force_sha512 == old(t).force_sha512,
        final(t).fresh == old(t).fresh,
        match r {
            Ok(rid) => {
                &&& forall|i: int|
                    0 <= i < old(t).files@.len() ==> (#[trigger] old(t).files@[i]).rowid
                        != rid as int
                &&& final(t).files@ == old(t).files@.push(
                    FileRec {
                        rowid: rid as int,
                        medium: medium@,
                        dir: dir@,
                        name: name@,
                        fast: fast.deep_view(),
                        strong: strong.deep_view(),
                        size: size,
                    },
                )
            },
            Err(_) => final(t).files@ == old(t).files@,
        },
{
    let mut st = t.trans.prepare_cached(
        "INSERT into files (medium_id, path, fname, fasthash, slowhash, size) \
         values ((select medium_id from media where medium = ?1), ?2, ?3, ?4, ?5, ?6)",
    )?;
    st.execute((medium, dir, name, fast, strong, size as i64))?;
    Ok(t.trans.last_insert_rowid())
}

/// Relies on rusqlite prepare_cached/query: SELECT of one files row
/// whose fasthash equals the given text. On a fresh catalogue the rows
/// of this transaction are all there are, so the answer is faithful to
/// the model: a partner is returned exactly when a row matches, and the
/// partner's fields are that row's. This rests on the catalogue having
/// a single writer: no other connection writes the file between its
/// creation and this transaction.
#[verifier::external_body]
fn sql_probe_fast(t: &mut DBTransaction<'_>, fast: &str) -> (r: Result<
    Option<CollisionPartner>,
    rusqlite::Error,
>)
    ensures
        final(t).files@ == old(t).files@,
        final(t).media@ == old(t).media@,
        final(t).only_slowhash == old(t).only_slowhash,
        final(t).force_sha512 == old(t).force_sha512,
        final(t).fresh == old(t).fresh,
        match r {
            Ok(found) => match found {
                Some(p) => old(t).fresh ==> exists|i: int|
                    0 <= i < old(t).files@.len() && partner_matches(
                        #[trigger] old(t).files@[i],
                        p,
                        fast@,
                    ),
                None => old(t).fresh ==> forall|i: int|
                    0 <= i < old(t).files@.len() ==> (#[trigger] old(t).files@[i]).fast != Some(
                        fast@,
                    ),
            },
            Err(_) => true,
        },
{
    let mut st = t.trans.prepare_cached("SELECT rowid, path, fname, size from files where fasthash = ?1")?;
    let mut rows = st.query([fast])?;
    match rows.next()? {
        Some(row) => Ok(Some(CollisionPartner {
            rowid: row.get(0)?,
            dir: row.get(1)?,
            name: row.get(2)?,
            size: row.get::<_, i64>(3)? as u64,
        })),
        None => Ok(None),
    }
}

/// Relies on rusqlite prepare_cached/execute: UPDATE of the slowhash
/// column by rowid; among this transaction's rows, exactly those with
/// that rowid get the new strong text, everything else is untouched.
#[verifier::external_body]
fn sql_set_strong(t: &mut DBTransaction<'_>, rowid: i64, digest: &str) -> (r: Result<
    (),
    rusqlite::Error,
>)
    ensures
        final(t).media@ == old(t).media@,
        final(t).only_slowhash == old(t).only_slowhash,
        final(t).force_sha512 == old(t).force_sha512,
        final(t).fresh == old(t).fresh,
        match r {
            Ok(()) => {
                &&& final(t).files@.len() == old(t).files@.len()
                &&& forall|i: int|
                    0 <= i < old(t).files@.len() ==> (#[trigger] final(t).files@[i]) == (if old(
                        t,
                    ).files@[i].rowid == rowid as int {
                        FileRec { strong: Some(digest@), ..old(t).files@[i] }
                    } else {
                        old(t).files@[i]
                    })
            },
            Err(_) => final(t).files@ == old(t).files@,
        },
{
    let mut st = t.trans.prepare_cached("UPDATE files set slowhash=?1 where rowid=?2")?;
    st.execute((digest, rowid))?;
    Ok(())
}

impl<'conn> DBTransaction<'conn> {
    /// Begins a write transaction on the catalogue. The model starts
    /// empty: it tracks exactly this transaction's work.
    ///
    /// The handle's freshness passes to the first transaction alone:
    /// rows the transaction writes stay in the table, so a later
    /// transaction no longer sees an empty one.
    pub fn new(db: &'conn mut DataBase) -> (r: Result<DBTransaction<'conn>, StashError>)
        ensures
            match r {
                Ok(t) => {
                    &&& t.model() == Seq::<FileRec>::empty()
                    &&& t.media_model() == Set::<Seq<char>>::empty()
                    &&& t.only_slow() == old(db).only_slow_mode()
                    &&& t.sha512() == old(db).sha512_mode()
                    &&& t.is_fresh() == old(db).is_fresh()
                    &&& t.inv()
                },
                Err(_) => true,
            },
    {
        let force_sha512 = db.force_sha512;
        let only_slowhash = db.only_slowhash;
        let fresh = db.fresh;
        db.fresh = false;
        match sql_begin(db) {
            Ok(trans) => Ok(
                DBTransaction {
                    trans,
                    force_sha512,
                    only_slowhash,
                    fresh,
                    files: Ghost(Seq::empty()),
                    media: Ghost(Set::empty()),
                },
            ),
            Err(e) => Err(StashError::Sql(e)),
        }
    }

    /// Commits the transaction's writes. Dropping the transaction
    /// without committing rolls everything back.
    pub fn commit(self) -> Result<(), StashError> {
        let DBTransaction { trans, .. } = self;
        match sql_commit(trans) {
            Ok(()) => Ok(()),
            Err(e) => Err(StashError::Sql(e)),
        }
    }

    /// Ensures a medium row exists for the label (insert-or-ignore).
    pub fn try_add_medium(&mut self, medium: &str, descr: &str) -> (r: Result<(), StashError>)
        ensures
            final(self).model() == old(self).model(),
            final(self).only_slow() == old(self).only_slow(),
            final(self).sha512() == old(self).sha512(),
            final(self).is_fresh() == old(self).is_fresh(),
            match r {
                Ok(()) => final(self).media_model() == old(self).media_model().insert(medium@),
                Err(_) => final(self).media_model() == old(self).media_model(),
            },
    {
        match sql_insert_medium(self, medium, descr) {
            Ok(()) => Ok(()),
            Err(e) => Err(StashError::Sql(e)),
        }
    }

    /// Writes one file row exactly as given, fingerprints included.
    pub fn add_file(&mut self, fm: FileMetadata<'_>) -> (r: Result<(), StashError>)
        ensures
            final(self).media_model() == old(self).media_model(),
            final(self).only_slow() == old(self).only_slow(),
            final(self).sha512() == old(self).sha512(),
            final(self).is_fresh() == old(self).is_fresh(),
            match r {
                Ok(()) => exists|rid: int|
                    #![auto]
                    (forall|i: int|
                        0 <= i < old(self).model().len() ==> old(self).model()[i].rowid != rid)
                        && final(self).model() == old(self).model().push(fm.to_rec(rid)),
                Err(_) => final(self).model() == old(self).model(),
            },
    {
        match sql_insert_file(
            self,
            fm.medium,
            fm.directory,
            fm.name,
            &fm.fasthash,
            &fm.slowhash,
            fm.size,
        ) {
            Ok(rid) => {
                proof {
                    assert(final(self).model() == old(self).model().push(fm.to_rec(rid as int)));
                }
                Ok(())
            },
            Err(e) => Err(StashError::Sql(e)),
        }
    }

    /// Records one file in strong-only mode: no fast fingerprint, the
    /// strong digest stored eagerly.
    pub fn record_strong_only(
        &mut self,
        medium: &str,
        dir: &str,
        name: &str,
        size: u64,
        strong: String,
    ) -> (r: Result<(), StashError>)
        requires
            old(self).inv(),
            old(self).only_slow(),
        ensures
            final(self).inv(),
            final(self).media_model() == old(self).media_model(),
            final(self).only_slow() == old(self).only_slow(),
            final(self).sha512() == old(self).sha512(),
            final(self).is_fresh() == old(self).is_fresh(),
            match r {
                Ok(()) => {
                    &&& final(self).model().len() == old(self).model().len() + 1
                    &&& final(self).model().take(old(self).model().len() as int) == old(
                        self,
                    ).model()
                    &&& {
                        let rec = final(self).model().last();
                        &&& rec.medium == medium@
                        &&& rec.dir == dir@
                        &&& rec.name == name@
                        &&& rec.size == size
                        &&& rec.fast.is_none()
                        &&& rec.strong == Some(strong@)
                    }
                },
                Err(_) => final(self).model() == old(self).model(),
            },
    {
        let strong_opt = Some(strong);
        match sql_insert_file(self, medium, dir, name, &None, &strong_opt, size) {
            Ok(_rid) => {
                proof {
                    assert(final(self).model().take(old(self).model().len() as int) =~= old(
                        self,
                    ).model());
                }
                Ok(())
            },
            Err(e) => Err(StashError::Sql(e)),
        }
    }

    /// Records one file in two-tier mode, running the lazy-promotion
    /// protocol: probe for a fast-fingerprint collision; without one,
    /// store the row with only its fast fingerprint; with one, compute
    /// and store the partner's strong fingerprint, then the newcomer's,
    /// and insert the newcomer with both tiers filled.
    ///
    /// Returns whether a collision was handled. On a fresh catalogue
    /// that answer is exact: a collision is reported precisely when an
    /// earlier row of this pass carries the same fast fingerprint.
    pub fn index_file_two_tier<H: DbEntryHasher>(
        &mut self,
        rehash: &mut H,
        medium: &str,
        dir: &str,
        name: &str,
        size: u64,
        fast: String,
    ) -> (r: Result<bool, StashError>)
        requires
            old(self).inv(),
            !old(self).only_slow(),
        ensures
            final(self).media_model() == old(self).media_model(),
            final(self).only_slow() == old(self).only_slow(),
            final(self).sha512() == old(self).sha512(),
            final(self).is_fresh() == old(self).is_fresh(),
            match r {
                Ok(collided) => {
                    &&& final(self).inv()
                    &&& final(self).model().len() == old(self).model().len() + 1
                    &&& promoted_only(
                        old(self).model(),
                        final(self).model().take(old(self).model().len() as int),
                    )
                    &&& {
                        let rec = final(self).model().last();
                        &&& rec.medium == medium@
                        &&& rec.dir == dir@
                        &&& rec.name == name@
                        &&& rec.size == size
                        &&& rec.fast == Some(fast@)
                        &&& rec.strong.is_some() == collided
                    }
                    &&& !collided ==> final(self).model().take(old(self).model().len() as int)
                        == old(self).model()
                    &&& old(self).is_fresh() ==> (collided <==> exists|j: int|
                        0 <= j < old(self).model().len() && (#[trigger] old(
                            self,
                        ).model()[j]).fast == Some(fast@))
                    &&& (collided && old(self).is_fresh()) ==> exists|j: int|
                        0 <= j < old(self).model().len() && (#[trigger] old(
                            self,
                        ).model()[j]).fast == Some(fast@) && final(self).model()[j].strong.is_some()
                    &&& at_most_one_changed(
                        old(self).model(),
                        final(self).model().take(old(self).model().len() as int),
                    )
                    &&& (collided && old(self).is_fresh()) ==> forall|i: int|
                        0 <= i < old(self).model().len() && (#[trigger] final(self).model()[i])
                            != old(self).model()[i] ==> old(self).model()[i].fast == Some(fast@)
                },
                Err(_) => promoted_only(old(self).model(), final(self).model())
                    && at_most_one_changed(old(self).model(), final(self).model()),
            },
    {
        proof {
            assert(promoted_only(old(self).model(), old(self).model()));
            assert(at_most_one_changed(old(self).model(), old(self).model()));
        }
        let probe = match sql_probe_fast(self, fast.as_str()) {
            Ok(p) => p,
            Err(e) => {
                return Err(StashError::Sql(e));
            },
        };
        match probe {
            None => {
                let fast_opt = Some(fast);
                match sql_insert_file(self, medium, dir, name, &fast_opt, &None, size) {
                    Ok(_rid) => {
                        proof {
                            let before = old(self).model();
                            let now = final(self).model();
                            assert(now.take(before.len() as int) =~= before);
                            assert(at_most_one_changed(before, now.take(before.len() as int)));
                            assert(now.last().strong.is_none());
                            if old(self).is_fresh() {
                                assert forall|i: int|
                                    0 <= i < now.len() && (#[trigger] now[i]).strong.is_some() implies
                                    now[i].fast.is_some() && exists|j: int|
                                        0 <= j < now.len() && j != i && (#[trigger] now[j]).fast
                                            == now[i].fast by {
                                    if i < before.len() {
                                        assert(before[i].strong.is_some());
                                        let j = choose|j: int|
                                            0 <= j < before.len() && j != i && (#[trigger] before[j]).fast
                                                == before[i].fast;
                                        assert(now[j].fast == now[i].fast);
                                    } else {
                                        assert(false);
                                    }
                                }
                            }
                        }
                        Ok(false)
                    },
                    Err(e) => Err(StashError::Sql(e)),
                }
            },
            Some(p) => {
                let ghost pre = self.files@;
                let pdigest = match rehash.hash_dbentry(p.dir.as_str(), p.name.as_str(), p.size) {
                    Ok(d) => d,
                    Err(e) => {
                        return Err(e);
                    },
                };
                match sql_set_strong(self, p.rowid, pdigest.as_str()) {
                    Ok(()) => {},
                    Err(e) => {
                        return Err(StashError::Sql(e));
                    },
                }
                let ghost mid = self.files@;
                proof {
                    assert(promoted_only(pre, mid));
                    assert(at_most_one_changed(pre, mid)) by {
                        assert forall|i: int, j: int|
                            0 <= i < pre.len() && 0 <= j < pre.len() && i != j && (
                            #[trigger] mid[i]) != pre[i] implies (#[trigger] mid[j]) == pre[j] by {
                            if mid[j] != pre[j] {
                                assert(pre[i].rowid == p.rowid as int);
                                assert(pre[j].rowid == p.rowid as int);
                                if i < j {
                                    assert(pre[i].rowid != pre[j].rowid);
                                } else {
                                    assert(pre[j].rowid != pre[i].rowid);
                                }
                            }
                        }
                    }
                }
                let own = match rehash.hash_dbentry(dir, name, size) {
                    Ok(d) => d,
                    Err(e) => {
                        return Err(e);
                    },
                };
                let fast_opt = Some(fast);
                let own_opt = Some(own);
                match sql_insert_file(self, medium, dir, name, &fast_opt, &own_opt, size) {
                    Ok(_rid) => {
                        proof {
                            let before = old(self).model();
                            let now = final(self).model();
                            let n = before.len() as int;
                            assert(now.take(n) =~= mid);
                            assert(promoted_only(before, now.take(n)));
                            assert(at_most_one_changed(before, now.take(n)));
                            assert(now.last().fast == Some(fast@));
                            assert(now.last().strong.is_some());
                            if old(self).is_fresh() {
                                let w = choose|i: int|
                                    0 <= i < pre.len() && partner_matches(
                                        #[trigger] pre[i],
                                        p,
                                        fast@,
                                    );
                                assert(mid[w].strong.is_some());
                                assert(mid[w].fast == Some(fast@));
                                assert(now[w].fast == Some(fast@));
                                assert(now[w].strong.is_some());
                                assert forall|i: int|
                                    0 <= i < n && (#[trigger] now[i]) != before[i] implies
                                    before[i].fast == Some(fast@) by {
                                    assert(now[i] == mid[i]);
                                    assert(pre[i].rowid == p.rowid as int);
                                    if i != w {
                                        if i < w {
                                            assert(pre[i].rowid != pre[w].rowid);
                                        } else {
                                            assert(pre[w].rowid != pre[i].rowid);
                                        }
                                        assert(false);
                                    }
                                }
                                assert forall|i: int|
                                    0 <= i < now.len() && (#[trigger] now[i]).strong.is_some() implies
                                    now[i].fast.is_some() && exists|j: int|
                                        0 <= j < now.len() && j != i && (#[trigger] now[j]).fast
                                            == now[i].fast by {
                                    if i < n {
                                        if before[i].rowid == p.rowid as int {
                                            assert(i == w) by {
                                                if i != w {
                                                    assert(before[i].rowid != before[w].rowid);
                                                }
                                            }
                                            assert(now[n as int].fast == now[i].fast);
                                        } else {
                                            assert(now[i] == before[i]);
                                            assert(before[i].strong.is_some());
                                            let j = choose|j: int|
                                                0 <= j < before.len() && j != i && (#[trigger] before[j]).fast
                                                    == before[i].fast;
                                            assert(now[j].fast == before[j].fast);
                                        }
                                    } else {
                                        assert(i == n);
                                        assert(now[w].fast == now[i].fast);
                                    }
                                }
                            }
                        }
                        Ok(true)
                    },
                    Err(e) => Err(StashError::Sql(e)),
                }
            },
        }
    }
}

/// Law: on a catalogue created by this pass in two-tier mode, a row
/// carries a strong fingerprint only because of a fast-fingerprint
/// collision: some other row of the pass shares its fast fingerprint,
/// and it has one itself. Strong-only catalogues are exempt.
pub proof fn lemma_lazy_promotion_shape(t: &DBTransaction<'_>)
    requires
        t.inv(),
        t.is_fresh(),
        !t.only_slow(),
    ensures
        two_tier_promoted(t.model()),
{
}

/// One raw row of the duplicate query: a file whose strong fingerprint
/// is shared, with the cardinality of its group.
pub struct DupRow {
    pub dir: String,
    pub name: String,
    pub hash: String,
    pub count: u64,
    pub size: u64,
}

/// The path a row denotes: directory, separator, name.
pub open spec fn path_of_row(r: DupRow) -> Seq<char> {
    joined_path(r.dir@, r.name@)
}

/// Whether index `i` begins a run of equal fingerprints.
pub open spec fn is_run_start(rows: Seq<DupRow>, i: int) -> bool {
    0 <= i < rows.len() && (i == 0 || rows[i - 1].hash@ != rows[i].hash@)
}

/// The shape of one run: its count column is at least 2, exactly that
/// many rows from here share the fingerprint and the count, and the
/// row after the run (if any) differs.
pub open spec fn run_ok(rows: Seq<DupRow>, i: int) -> bool {
    let c = rows[i].count as int;
    &&& c >= 2
    &&& i + c <= rows.len()
    &&& (forall|j: int|
        i <= j < i + c ==> (#[trigger] rows[j]).hash@ == rows[i].hash@ && rows[j].count
            == rows[i].count)
    &&& (i + c < rows.len() ==> rows[i + c].hash@ != rows[i].hash@)
}

/// What the grouped duplicate query returns: the stream is ascending
/// by fingerprint, rows of one fingerprint are contiguous, and each
/// run's count column is its length.
pub open spec fn dup_rows_wf(rows: Seq<DupRow>) -> bool {
    &&& (forall|i: int| #[trigger] is_run_start(rows, i) ==> run_ok(rows, i))
    &&& (forall|i: int, j: int, k: int|
        0 <= i < j < k < rows.len() && (#[trigger] rows[i]).hash@ == (#[trigger] rows[k]).hash@
            ==> (#[trigger] rows[j]).hash@ == rows[i].hash@)
    &&& (forall|i: int, j: int|
        0 <= i < j < rows.len() ==> chars_leq((#[trigger] rows[i]).hash@, (#[trigger] rows[j]).hash@))
}

/// One assembled duplicate group, abstractly.
pub ghost struct GroupModel {
    pub hash: Seq<char>,
    pub paths: Seq<Seq<char>>,
    pub count: int,
    pub size: u64,
}

/// The groups a well-formed row stream denotes: one per run, carrying
/// the run's fingerprint, size of its first row, and all its paths.
pub open spec fn spec_groups(rows: Seq<DupRow>) -> Seq<GroupModel>
    decreases rows.len(),
{
    if rows.len() == 0 {
        Seq::empty()
    } else {
        let c = rows[0].count as int;
        if 1 <= c <= rows.len() {
            seq![
                GroupModel {
                    hash: rows[0].hash@,
                    count: c,
                    size: rows[0].size,
                    paths: rows.take(c).map_values(|r: DupRow| path_of_row(r)),
                },
            ] + spec_groups(rows.skip(c))
        } else {
            Seq::empty()
        }
    }
}

/// A duplicate group as handed to callers: a pivot path, the
/// alternates, the shared fingerprint, the cardinality and the size.
pub struct DupFile {
    pub one_path: String,
    pub other_paths: Vec<String>,
    pub hash: String,
    pub num_dups: u64,
    pub size: u64,
}

/// The abstract group a `DupFile` carries.
pub open spec fn group_view(d: DupFile) -> GroupModel {
    GroupModel {
        hash: d.hash@,
        count: d.num_dups as int,
        size: d.size,
        paths: seq![d.one_path@] + views_of(d.other_paths@),
    }
}

/// A run's worth of well-formedness carries over to the rest of the
/// stream after the run is cut off.
proof fn lemma_wf_suffix(rows: Seq<DupRow>, c: int)
    requires
        dup_rows_wf(rows),
        rows.len() > 0,
        c == rows[0].count as int,
        1 <= c <= rows.len(),
    ensures
        dup_rows_wf(rows.skip(c)),
    decreases rows.len(),
{
    let s = rows.skip(c);
    assert(is_run_start(rows, 0));
    assert(run_ok(rows, 0));
    assert forall|i: int| #[trigger] is_run_start(s, i) implies run_ok(s, i) by {
        assert(s[i] == rows[c + i]);
        if i > 0 {
            assert(s[i - 1] == rows[c + i - 1]);
        }
        assert(is_run_start(rows, c + i));
        assert(run_ok(rows, c + i));
        let rc = rows[c + i].count as int;
        assert forall|j: int| i <= j < i + rc implies (#[trigger] s[j]).hash@ == s[i].hash@
            && s[j].count == s[i].count by {
            assert(s[j] == rows[c + j]);
        }
        if i + rc < s.len() {
            assert(s[i + rc] == rows[c + i + rc]);
        }
    }
    assert forall|i: int, j: int, k: int|
        0 <= i < j < k < s.len() && (#[trigger] s[i]).hash@ == (#[trigger] s[k]).hash@ implies (
    #[trigger] s[j]).hash@ == s[i].hash@ by {
        assert(s[i] == rows[c + i]);
        assert(s[j] == rows[c + j]);
        assert(s[k] == rows[c + k]);
    }
    assert forall|i: int, j: int|
        0 <= i < j < s.len() implies chars_leq((#[trigger] s[i]).hash@, (#[trigger] s[j]).hash@) by {
        assert(s[i] == rows[c + i]);
        assert(s[j] == rows[c + j]);
    }
}

/// Every assembled group has at least two paths, exactly as many as
/// its count says.
proof fn lemma_groups_basic(rows: Seq<DupRow>)
    requires
        dup_rows_wf(rows),
    ensures
        forall|g: int|
            0 <= g < spec_groups(rows).len() ==> (#[trigger] spec_groups(rows)[g]).count >= 2
                && spec_groups(rows)[g].paths.len() == spec_groups(rows)[g].count,
    decreases rows.len(),
{
    if rows.len() > 0 {
        assert(is_run_start(rows, 0));
        assert(run_ok(rows, 0));
        let c = rows[0].count as int;
        let s = rows.skip(c);
        lemma_wf_suffix(rows, c);
        lemma_groups_basic(s);
        let gs = spec_groups(rows);
        let tail = spec_groups(s);
        assert(gs[0].paths.len() == rows.take(c).map_values(|r: DupRow| path_of_row(r)).len());
        assert forall|g: int|
            0 <= g < gs.len() implies (#[trigger] gs[g]).count >= 2 && gs[g].paths.len()
            == gs[g].count by {
            if g > 0 {
                assert(gs[g] == tail[g - 1]);
            }
        }
    }
}

/// Every assembled group's fingerprint is some row's fingerprint.
proof fn lemma_groups_hash_from_rows(rows: Seq<DupRow>)
    requires
        dup_rows_wf(rows),
    ensures
        forall|g: int|
            0 <= g < spec_groups(rows).len() ==> exists|i: int|
                0 <= i < rows.len() && (#[trigger] rows[i]).hash@ == (#[trigger] spec_groups(
                    rows,
                )[g]).hash,
    decreases rows.len(),
{
    if rows.len() > 0 {
        assert(is_run_start(rows, 0));
        assert(run_ok(rows, 0));
        let c = rows[0].count as int;
        let s = rows.skip(c);
        lemma_wf_suffix(rows, c);
        lemma_groups_hash_from_rows(s);
        let gs = spec_groups(rows);
        let tail = spec_groups(s);
        assert forall|g: int|
            0 <= g < gs.len() implies exists|i: int|
                0 <= i < rows.len() && (#[trigger] rows[i]).hash@ == (#[trigger] gs[g]).hash by {
            if g == 0 {
                assert(rows[0].hash@ == gs[0].hash);
            } else {
                assert(gs[g] == tail[g - 1]);
                let i = choose|i: int|
                    0 <= i < s.len() && (#[trigger] s[i]).hash@ == tail[g - 1].hash;
                assert(s[i] == rows[c + i]);
                assert(rows[c + i].hash@ == gs[g].hash);
            }
        }
    }
}

/// No fingerprint of the first run reappears after it.
proof fn lemma_first_run_hash_gone(rows: Seq<DupRow>)
    requires
        dup_rows_wf(rows),
        rows.len() > 0,
    ensures
        forall|i: int|
            rows[0].count as int <= i < rows.len() ==> (#[trigger] rows[i]).hash@
                != rows[0].hash@,
{
    assert(is_run_start(rows, 0));
    assert(run_ok(rows, 0));
    let c = rows[0].count as int;
    assert forall|i: int| c <= i < rows.len() implies (#[trigger] rows[i]).hash@
        != rows[0].hash@ by {
        if i == c {
        } else {
            if rows[i].hash@ == rows[0].hash@ {
                assert(rows[c].hash@ == rows[0].hash@);
            }
        }
    }
}

/// Assembled groups carry pairwise distinct fingerprints.
proof fn lemma_groups_distinct(rows: Seq<DupRow>)
    requires
        dup_rows_wf(rows),
    ensures
        forall|g: int, h: int|
            0 <= g < h < spec_groups(rows).len() ==> (#[trigger] spec_groups(rows)[g]).hash != (
            #[trigger] spec_groups(rows)[h]).hash,
    decreases rows.len(),
{
    if rows.len() > 0 {
        assert(is_run_start(rows, 0));
        assert(run_ok(rows, 0));
        let c = rows[0].count as int;
        let s = rows.skip(c);
        lemma_wf_suffix(rows, c);
        lemma_groups_distinct(s);
        lemma_groups_hash_from_rows(s);
        lemma_first_run_hash_gone(rows);
        let gs = spec_groups(rows);
        let tail = spec_groups(s);
        assert forall|g: int, h: int|
            0 <= g < h < gs.len() implies (#[trigger] gs[g]).hash != (#[trigger] gs[h]).hash by {
            assert(gs[h] == tail[h - 1]);
            if g == 0 {
                let i = choose|i: int|
                    0 <= i < s.len() && (#[trigger] s[i]).hash@ == tail[h - 1].hash;
                assert(s[i] == rows[c + i]);
                assert(rows[c + i].hash@ != rows[0].hash@);
            } else {
                assert(gs[g] == tail[g - 1]);
            }
        }
    }
}

/// Assembled groups come out in ascending fingerprint order.
proof fn lemma_groups_sorted(rows: Seq<DupRow>)
    requires
        dup_rows_wf(rows),
    ensures
        forall|g: int, h: int|
            0 <= g < h < spec_groups(rows).len() ==> chars_leq(
                (#[trigger] spec_groups(rows)[g]).hash,
                (#[trigger] spec_groups(rows)[h]).hash,
            ),
    decreases rows.len(),
{
    if rows.len() > 0 {
        assert(is_run_start(rows, 0));
        assert(run_ok(rows, 0));
        let c = rows[0].count as int;
        let s = rows.skip(c);
        lemma_wf_suffix(rows, c);
        lemma_groups_sorted(s);
        lemma_groups_hash_from_rows(s);
        let gs = spec_groups(rows);
        let tail = spec_groups(s);
        assert forall|g: int, h: int|
            0 <= g < h < gs.len() implies chars_leq(
            (#[trigger] gs[g]).hash,
            (#[trigger] gs[h]).hash,
        ) by {
            assert(gs[h] == tail[h - 1]);
            if g == 0 {
                let i = choose|i: int|
                    0 <= i < s.len() && (#[trigger] s[i]).hash@ == tail[h - 1].hash;
                assert(s[i] == rows[c + i]);
                if c + i > 0 {
                    assert(chars_leq(rows[0].hash@, rows[c + i].hash@));
                }
            } else {
                assert(gs[g] == tail[g - 1]);
            }
        }
    }
}

/// Every row's fingerprint appears in some assembled group.
proof fn lemma_groups_complete(rows: Seq<DupRow>)
    requires
        dup_rows_wf(rows),
    ensures
        forall|i: int|
            0 <= i < rows.len() ==> exists|g: int|
                0 <= g < spec_groups(rows).len() && (#[trigger] spec_groups(rows)[g]).hash == (
                #[trigger] rows[i]).hash@,
    decreases rows.len(),
{
    if rows.len() > 0 {
        assert(is_run_start(rows, 0));
        assert(run_ok(rows, 0));
        let c = rows[0].count as int;
        let s = rows.skip(c);
        lemma_wf_suffix(rows, c);
        lemma_groups_complete(s);
        let gs = spec_groups(rows);
        let tail = spec_groups(s);
        assert forall|i: int|
            0 <= i < rows.len() implies exists|g: int|
                0 <= g < gs.len() && (#[trigger] gs[g]).hash == (#[trigger] rows[i]).hash@ by {
            if i < c {
                assert(rows[i].hash@ == rows[0].hash@);
                assert(gs[0].hash == rows[i].hash@);
            } else {
                assert(s[i - c] == rows[i]);
                let g = choose|g: int|
                    0 <= g < tail.len() && (#[trigger] tail[g]).hash == s[i - c].hash@;
                assert(gs[g + 1] == tail[g]);
                assert(gs[g + 1].hash == rows[i].hash@);
            }
        }
    }
}

/// What the assembled groups of a well-formed stream look like: every
/// group has at least two paths and as many as its count says; group
/// fingerprints are pairwise distinct and all drawn from the rows; and
/// every row's fingerprint appears in some group.
pub proof fn lemma_spec_groups_props(rows: Seq<DupRow>)
    requires
        dup_rows_wf(rows),
    ensures
        forall|g: int|
            0 <= g < spec_groups(rows).len() ==> (#[trigger] spec_groups(rows)[g]).count >= 2
                && spec_groups(rows)[g].paths.len() == spec_groups(rows)[g].count,
        forall|g: int|
            0 <= g < spec_groups(rows).len() ==> exists|i: int|
                0 <= i < rows.len() && (#[trigger] rows[i]).hash@ == (#[trigger] spec_groups(
                    rows,
                )[g]).hash,
        forall|g: int, h: int|
            0 <= g < h < spec_groups(rows).len() ==> (#[trigger] spec_groups(rows)[g]).hash != (
            #[trigger] spec_groups(rows)[h]).hash,
        forall|i: int|
            0 <= i < rows.len() ==> exists|g: int|
                0 <= g < spec_groups(rows).len() && (#[trigger] spec_groups(rows)[g]).hash == (
                #[trigger] rows[i]).hash@,
{
    lemma_groups_basic(rows);
    lemma_groups_hash_from_rows(rows);
    lemma_groups_distinct(rows);
    lemma_groups_complete(rows);
}

/// Relies on rusqlite and the semantics of the grouped SQL query: each
/// returned row joins a files row (with a non-null strong fingerprint
/// shared by at least two rows) to its group's cardinality; ORDER BY
/// under SQLite's default BINARY collation sorts the UTF-8 fingerprint
/// text bytewise, which for UTF-8 coincides with ascending code-point
/// order, so the stream is sorted, rows of one group are contiguous,
/// and each run's length is its count column.
#[verifier::external_body]
fn sql_query_dups(db: &DataBase) -> (r: Result<Vec<DupRow>, rusqlite::Error>)
    ensures
        match r {
            Ok(rows) => dup_rows_wf(rows@),
            Err(_) => true,
        },
{
    let mut st = db.conn.prepare_cached(
        "SELECT files.path, files.fname, files.slowhash, T2.P, files.size \
         from files join (select slowhash, COUNT(*) AS P FROM files \
         WHERE slowhash is NOT NULL GROUP BY slowhash HAVING COUNT(*) > 1) T2 \
         ON files.slowhash = T2.slowhash ORDER BY files.slowhash",
    )?;
    let mut raw = st.query([])?;
    let mut rows: Vec<DupRow> = Vec::new();
    while let Some(row) = raw.next()? {
        let (count, size) = (row.get::<_, i64>(3)? as u64, row.get::<_, i64>(4)? as u64);
        rows.push(DupRow { dir: row.get(0)?, name: row.get(1)?, hash: row.get(2)?, count, size });
    }
    Ok(rows)
}

/// Assembles the grouped row stream into duplicate groups: one group
/// per run of equal fingerprints, its first row the pivot, the rest
/// alternates, consuming exactly `count` rows per group.
pub fn assemble_groups(rows: &Vec<DupRow>) -> (v: Vec<DupFile>)
    requires
        dup_rows_wf(rows@),
    ensures
        v@.map_values(|d: DupFile| group_view(d)) == spec_groups(rows@),
{
    let all_len = rows.len();
    let mut v: Vec<DupFile> = Vec::new();
    let mut i: usize = 0;
    proof {
        assert(v@.map_values(|d: DupFile| group_view(d)) =~= Seq::<GroupModel>::empty());
        assert(rows@.skip(0) =~= rows@);
    }
    while i < all_len
        invariant
            0 <= i <= all_len,
            all_len == rows@.len(),
            dup_rows_wf(rows@),
            i < all_len ==> is_run_start(rows@, i as int),
            spec_groups(rows@) == v@.map_values(|d: DupFile| group_view(d)) + spec_groups(
                rows@.skip(i as int),
            ),
        decreases all_len - i,
    {
        let ghost suffix = rows@.skip(i as int);
        proof {
            assert(is_run_start(rows@, i as int));
            assert(run_ok(rows@, i as int));
            assert(suffix[0] == rows@[i as int]);
            assert(is_run_start(suffix, 0)) by {
                assert(suffix.len() > 0);
            }
            assert(run_ok(suffix, 0)) by {
                assert forall|j: int|
                    0 <= j < (suffix[0].count as int) implies (#[trigger] suffix[j]).hash@
                    == suffix[0].hash@ && suffix[j].count == suffix[0].count by {
                    assert(suffix[j] == rows@[i + j]);
                }
                if (suffix[0].count as int) < suffix.len() {
                    assert(suffix[suffix[0].count as int] == rows@[i + suffix[0].count as int]);
                }
            }
        }
        let count64 = rows[i].count;
        let cnt = count64 as usize;
        proof {
            assert(cnt as int == count64 as int);
            assert(2 <= cnt as int <= suffix.len());
        }
        let one_path = join_path(rows[i].dir.as_str(), rows[i].name.as_str());
        let hash = rows[i].hash.clone();
        let size = rows[i].size;
        let mut others: Vec<String> = Vec::new();
        let mut j: usize = i + 1;
        while j < i + cnt
            invariant
                all_len == rows@.len(),
                0 <= i < all_len,
                i + cnt <= all_len,
                i + 1 <= j <= i + cnt,
                views_of(others@) =~= rows@.subrange(i as int + 1, j as int).map_values(
                    |r: DupRow| path_of_row(r),
                ),
            decreases i + cnt - j,
        {
            let ghost prev_others = others@;
            let next_path = join_path(rows[j].dir.as_str(), rows[j].name.as_str());
            others.push(next_path);
            proof {
                let f = |r: DupRow| path_of_row(r);
                let sub1 = rows@.subrange(i as int + 1, j as int);
                let sub2 = rows@.subrange(i as int + 1, j as int + 1);
                assert(views_of(prev_others) =~= sub1.map_values(f));
                assert(views_of(prev_others).len() == prev_others.len());
                assert(sub1.map_values(f).len() == sub1.len());
                assert(prev_others.len() == sub1.len());
                assert(others@.len() == sub2.len());
                assert forall|k: int| 0 <= k < sub2.len() implies #[trigger] sub2.map_values(f)[k]
                    == views_of(others@)[k] by {
                    assert(views_of(others@)[k] == others@[k]@);
                    assert(sub2.map_values(f)[k] == f(sub2[k]));
                    if k < sub1.len() {
                        assert(sub2[k] == sub1[k]);
                        assert(others@[k] == prev_others[k]);
                        assert(views_of(prev_others)[k] == sub1.map_values(f)[k]);
                        assert(views_of(prev_others)[k] == prev_others[k]@);
                        assert(sub1.map_values(f)[k] == f(sub1[k]));
                    } else {
                        assert(k == sub1.len());
                        assert(sub2[k] == rows@[j as int]);
                        assert(others@[k] == next_path);
                    }
                }
                assert(views_of(others@) =~= sub2.map_values(f));
            }
            j = j + 1;
        }
        let group = DupFile { one_path, other_paths: others, hash, num_dups: count64, size };
        let ghost gm = group_view(group);
        proof {
            let c = suffix[0].count as int;
            assert(cnt as int == c);
            assert(gm.hash == suffix[0].hash@);
            assert(gm.size == suffix[0].size);
            assert(gm.count == c);
            assert forall|k: int|
                0 <= k < c implies (#[trigger] suffix.take(c)[k]) == rows@[i + k] by {}
            assert(gm.paths =~= suffix.take(c).map_values(|r: DupRow| path_of_row(r))) by {
                assert(gm.paths.len() == c);
                assert forall|k: int| 0 <= k < c implies gm.paths[k] == path_of_row(
                    #[trigger] suffix.take(c)[k],
                ) by {
                    if k == 0 {
                        assert(gm.paths[0] == joined_path(rows@[i as int].dir@, rows@[i as int].name@));
                    } else {
                        assert(gm.paths[k] == views_of(others@)[k - 1]);
                        assert(rows@.subrange(i as int + 1, i as int + cnt as int)[k - 1]
                            == rows@[i + k]);
                    }
                }
            }
            assert(spec_groups(suffix) == seq![gm] + spec_groups(suffix.skip(c)));
            assert(suffix.skip(c) =~= rows@.skip(i as int + c));
            let f = |d: DupFile| group_view(d);
            assert(v@.push(group).map_values(f) =~= v@.map_values(f).push(gm));
            assert(v@.map_values(f).push(gm) + spec_groups(rows@.skip(i as int + c)) =~= (
            v@.map_values(f) + spec_groups(suffix)));
            if i + c < all_len {
                assert(is_run_start(rows@, i as int + c)) by {
                    assert(rows@[i + c - 1].hash@ == rows@[i as int].hash@);
                }
            }
        }
        v.push(group);
        i = i + cnt;
    }
    proof {
        assert(rows@.skip(i as int) =~= Seq::<DupRow>::empty());
        assert(spec_groups(rows@.skip(i as int)) =~= Seq::<GroupModel>::empty());
        assert(v@.map_values(|d: DupFile| group_view(d)) + Seq::<GroupModel>::empty()
            =~= v@.map_values(|d: DupFile| group_view(d)));
    }
    v
}

/// The duplicate scanner: one grouped query against a catalogue.
pub struct IdentifyDupsStatement<'a> {
    db: &'a DataBase,
}

impl<'a> IdentifyDupsStatement<'a> {
    /// A scanner over the given catalogue.
    pub fn new(db: &'a DataBase) -> IdentifyDupsStatement<'a> {
        IdentifyDupsStatement { db }
    }

    /// Runs the duplicate query and assembles its groups: every group
    /// has at least two paths (one pivot plus alternates, exactly as
    /// many as its cardinality column), and the groups come out in
    /// strictly ascending fingerprint order.
    #[verifier::rlimit(60)]
    pub fn get_dups(&mut self) -> (r: Result<Vec<DupFile>, StashError>)
        ensures
            match r {
                Ok(v) => {
                    &&& exists|rows: Seq<DupRow>|
                        dup_rows_wf(rows) && v@.map_values(|d: DupFile| group_view(d))
                            == spec_groups(rows)
                    &&& forall|g: int|
                        0 <= g < v@.len() ==> (#[trigger] v@[g]).num_dups >= 2 && v@[g].num_dups
                            as int == 1 + v@[g].other_paths@.len()
                    &&& forall|g: int, h: int|
                        0 <= g < h < v@.len() ==> (#[trigger] v@[g]).hash@ != (#[trigger] v@[h]).hash@
                    &&& forall|g: int, h: int|
                        0 <= g < h < v@.len() ==> chars_leq(
                            (#[trigger] v@[g]).hash@,
                            (#[trigger] v@[h]).hash@,
                        )
                },
                Err(_) => true,
            },
    {
        let rows = match sql_query_dups(self.db) {
            Ok(rows) => rows,
            Err(e) => {
                return Err(StashError::Sql(e));
            },
        };
        let v = assemble_groups(&rows);
        proof {
            lemma_spec_groups_props(rows@);
            let f = |d: DupFile| group_view(d);
            let gs = spec_groups(rows@);
            assert forall|g: int|
                0 <= g < v@.len() implies (#[trigger] v@[g]).num_dups >= 2 && v@[g].num_dups as int
                == 1 + v@[g].other_paths@.len() by {
                assert(v@.map_values(f)[g] == gs[g]);
                assert(group_view(v@[g]).count == gs[g].count);
                assert(group_view(v@[g]).paths.len() == 1 + v@[g].other_paths@.len());
            }
            assert forall|g: int, h: int|
                0 <= g < h < v@.len() implies (#[trigger] v@[g]).hash@ != (#[trigger] v@[h]).hash@ by {
                assert(v@.map_values(f)[g] == gs[g]);
                assert(v@.map_values(f)[h] == gs[h]);
                assert(group_view(v@[g]).hash == gs[g].hash);
                assert(group_view(v@[h]).hash == gs[h].hash);
            }
            lemma_groups_sorted(rows@);
            assert forall|g: int, h: int|
                0 <= g < h < v@.len() implies chars_leq(
                (#[trigger] v@[g]).hash@,
                (#[trigger] v@[h]).hash@,
            ) by {
                assert(v@.map_values(f)[g] == gs[g]);
                assert(v@.map_values(f)[h] == gs[h]);
                assert(group_view(v@[g]).hash == gs[g].hash);
                assert(group_view(v@[h]).hash == gs[h].hash);
            }
        }
        Ok(v)
    }
}

/// One display line of a group listing: an optional "N. " prefix, then
/// the path.
pub open spec fn minimal_line(p: Seq<char>, indexed: bool, idx: int) -> Seq<char> {
    if indexed {
        dec_digits(idx) + ". "@ + p
    } else {
        p
    }
}

/// A group listing: one line per path, numbered from 1 when indexed,
/// separated by newlines.
pub open spec fn minimal_lines(paths: Seq<Seq<char>>, indexed: bool) -> Seq<char>
    decreases paths.len(),
{
    if paths.len() == 0 {
        Seq::empty()
    } else if paths.len() == 1 {
        minimal_line(paths[0], indexed, 1)
    } else {
        minimal_lines(paths.drop_last(), indexed) + seq!['\n'] + minimal_line(
            paths.last(),
            indexed,
            paths.len() as int,
        )
    }
}

fn build_line(p: &String, indexed: bool, idx: u64) -> (r: String)
    requires
        idx >= 1,
    ensures
        r@ == minimal_line(p@, indexed, idx as int),
{
    if indexed {
        let mut s = u64_to_dec(idx);
        s.append(". ");
        s.append(p.as_str());
        s
    } else {
        p.clone()
    }
}

impl DupFile {
    /// All the group's paths: the pivot first, then the alternates.
    pub open spec fn all_paths(&self) -> Seq<Seq<char>> {
        seq![self.one_path@] + views_of(self.other_paths@)
    }

    /// Renders the group one path per line, numbered from 1 when
    /// `indexed` is set.
    pub fn format_minimal(&self, indexed: bool) -> (r: String)
        requires
            self.other_paths@.len() + 1 <= u64::MAX,
        ensures
            r@ == minimal_lines(self.all_paths(), indexed),
    {
        let mut st = build_line(&self.one_path, indexed, 1);
        proof {
            assert(self.all_paths().take(1) =~= seq![self.one_path@]);
            assert(minimal_lines(self.all_paths().take(1), indexed) == minimal_line(
                self.one_path@,
                indexed,
                1,
            ));
        }
        let mut k: usize = 0;
        while k < self.other_paths.len()
            invariant
                0 <= k <= self.other_paths@.len(),
                self.other_paths@.len() + 1 <= u64::MAX,
                st@ == minimal_lines(self.all_paths().take(k as int + 1), indexed),
            decreases self.other_paths@.len() - k,
        {
            let ghost pre = self.all_paths().take(k as int + 1);
            let ghost cur = self.all_paths().take(k as int + 2);
            proof {
                reveal_strlit("\n");
                assert(cur.drop_last() =~= pre);
                assert(cur.last() == self.other_paths@[k as int]@);
                assert(cur.len() == k + 2);
            }
            st.append("\n");
            let line = build_line(&self.other_paths[k], indexed, (k as u64) + 2);
            st.append(line.as_str());
            proof {
                assert("\n"@ =~= seq!['\n']);
                assert(st@ =~= minimal_lines(pre, indexed) + seq!['\n'] + minimal_line(
                    cur.last(),
                    indexed,
                    k as int + 2,
                ));
            }
            k = k + 1;
        }
        proof {
            assert(self.all_paths().take(k as int + 1) =~= self.all_paths());
        }
        st
    }

    /// The group's directory signature: the parents of all its paths,
    /// sorted, without repeats, comma-joined.
    pub fn path_sig(&self) -> (r: String)
        ensures
            r@ == canon_sig(self.all_paths().map_values(|p: Seq<char>| parent_of(p))),
    {
        let dirs = self.parent_dirs();
        let canon = canonical_dirs(dirs);
        join_with_commas(&canon)
    }

    /// The parent directories of all the group's paths, in path order.
    pub fn parent_dirs(&self) -> (r: Vec<String>)
        ensures
            views_of(r@) == self.all_paths().map_values(|p: Seq<char>| parent_of(p)),
    {
        let ghost f = |p: Seq<char>| parent_of(p);
        let mut dirs: Vec<String> = Vec::new();
        dirs.push(parent_dir(self.one_path.as_str()));
        proof {
            assert(views_of(dirs@) =~= self.all_paths().take(1).map_values(f));
        }
        let mut k: usize = 0;
        while k < self.other_paths.len()
            invariant
                0 <= k <= self.other_paths@.len(),
                views_of(dirs@) =~= self.all_paths().take(k as int + 1).map_values(
                    |p: Seq<char>| parent_of(p),
                ),
            decreases self.other_paths@.len() - k,
        {
            let ghost prev = dirs@;
            let pd = parent_dir(self.other_paths[k].as_str());
            dirs.push(pd);
            proof {
                let g = |p: Seq<char>| parent_of(p);
                let pre = self.all_paths().take(k as int + 1);
                let cur = self.all_paths().take(k as int + 2);
                assert(cur.drop_last() =~= pre);
                assert(cur.last() == self.other_paths@[k as int]@);
                assert(views_of(prev).len() == prev.len());
                assert(pre.map_values(g).len() == pre.len());
                assert(prev.len() == pre.len());
                assert(dirs@ == prev.push(pd));
                assert(dirs@.len() == cur.len());
                assert forall|t: int| 0 <= t < cur.len() implies #[trigger] views_of(dirs@)[t]
                    == cur.map_values(g)[t] by {
                    assert(views_of(dirs@)[t] == dirs@[t]@);
                    assert(cur.map_values(g)[t] == g(cur[t]));
                    if t < pre.len() {
                        assert(dirs@[t] == prev[t]);
                        assert(views_of(prev)[t] == pre.map_values(g)[t]);
                        assert(pre.map_values(g)[t] == g(pre[t]));
                        assert(cur[t] == pre[t]);
                    } else {
                        assert(cur[t] == cur.last());
                    }
                }
                assert(views_of(dirs@) =~= cur.map_values(g));
            }
            k = k + 1;
        }
        proof {
            assert(self.all_paths().take(k as int + 1) =~= self.all_paths());
        }
        dirs
    }
}

/// Law: the directory signature is order-insensitive — two groups
/// whose path lists are rearrangements of one another get the same
/// signature.
pub proof fn lemma_path_sig_order_insensitive(a: &DupFile, b: &DupFile)
    requires
        a.all_paths().to_multiset() == b.all_paths().to_multiset(),
    ensures
        canon_sig(a.all_paths().map_values(|p: Seq<char>| parent_of(p))) == canon_sig(
            b.all_paths().map_values(|p: Seq<char>| parent_of(p)),
        ),
{
    let f = |p: Seq<char>| parent_of(p);
    lemma_map_to_multiset(a.all_paths(), b.all_paths(), f);
    lemma_canon_sig_permutation(a.all_paths().map_values(f), b.all_paths().map_values(f));
}

} // verus!
