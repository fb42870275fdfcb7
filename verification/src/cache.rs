//! The on-disk object cache: a key-value table in an embedded SQLite
//! database, reached through trusted wrappers around `rusqlite` and
//! `sqlitemap`.  The contents of the store are named by `cache_map`, and
//! every wrapper's contract speaks over that name.

use vstd::prelude::*;

verus! {

#[verifier::external_type_specification]
#[verifier::external_body]
pub struct ExConnection(rusqlite::Connection);

#[verifier::external_type_specification]
#[verifier::external_body]
pub struct ExRusqliteError(rusqlite::Error);

/// What the cache table of this connection holds: canonical id to
/// serialised object payload.  The contents are read as a function of
/// the connection, which is faithful while each connection exclusively
/// owns its database file; the engine opens exactly one connection per
/// cache file.
pub uninterp spec fn cache_map(c: rusqlite::Connection) -> Map<Seq<char>, Seq<char>>;

/// The library's error taxonomy.
#[derive(Clone, Copy, Debug, PartialEq, Eq, Structural)]
pub enum EngineError {
    /// A cache operation failed.
    Cache,
    /// A cached payload could not be decoded.
    Corrupt,
    /// An object referenced by a cached object is absent after
    /// resolution: a bug or a truncated response, surfaced as fatal.
    MissingDependency,
}

impl EngineError {
    /// A short description of the error.
    pub fn describe(&self) -> (r: &'static str)
        ensures
            (*self is Cache ==> r@ == "cache operation failed"@) && (*self is Corrupt ==> r@
                == "cached payload could not be decoded"@) && (*self is MissingDependency ==> r@
                == "dependency missing after resolution"@),
    {
        match self {
            EngineError::Cache => "cache operation failed",
            EngineError::Corrupt => "cached payload could not be decoded",
            EngineError::MissingDependency => "dependency missing after resolution",
        }
    }
}

/// Map a `rusqlite` failure to the library's error.
pub fn from_sql_error(e: rusqlite::Error) -> (r: EngineError)
    ensures
        r is Cache,
{
    let _ = e;
    EngineError::Cache
}

/// Relies on `rusqlite::Connection::open`: opens (creating when absent)
/// the database file at `path`.  Nothing is assumed of the contents of
/// an existing file.  The `cache_map` reading expects each file to be
/// owned by one connection at a time: open every cache file once.
#[verifier::external_body]
pub fn conn_open(path: &str) -> (r: Result<rusqlite::Connection, rusqlite::Error>) {
    rusqlite::Connection::open(path)
}

/// Relies on `rusqlite::Connection::execute` with `PRAGMA SYNCHRONOUS=off`:
/// disables synchronous writes; the table contents are untouched.
#[verifier::external_body]
pub fn pragma_synchronous_off(conn: &rusqlite::Connection) -> (r: Result<usize, rusqlite::Error>) {
    conn.execute("PRAGMA SYNCHRONOUS=off", &[])
}

/// Relies on `rusqlite::Connection::execute` with `BEGIN`: opens a
/// transaction; the table contents are untouched.
#[verifier::external_body]
pub fn txn_begin(conn: &rusqlite::Connection) -> (r: Result<usize, rusqlite::Error>) {
    conn.execute("BEGIN", &[])
}

/// Relies on `rusqlite::Connection::execute` with `COMMIT` then `BEGIN`:
/// closes the open transaction, making the batched writes durable, and
/// opens the next one, as every commit point does.  The table contents
/// are untouched.
#[verifier::external_body]
pub fn txn_commit_and_reopen(conn: &rusqlite::Connection) -> (r: Result<usize, rusqlite::Error>) {
    let n = conn.execute("COMMIT", &[])?;
    conn.execute("BEGIN", &[])?;
    Ok(n)
}

/// Relies on `sqlitemap::SqliteMap::new` (creates the table when it is
/// absent; its key column is `UNIQUE NOT NULL`) and
/// `rusqlite::Connection::execute` with `INSERT OR REPLACE`: the named
/// contents gain or overwrite exactly the given binding.  On an error
/// the single statement has no effect.  Nothing is read back, so no
/// stored value is ever converted.
#[verifier::external_body]
pub fn store_put(
    conn: &mut rusqlite::Connection,
    id: &str,
    value: &str,
) -> (r: Result<(), rusqlite::Error>)
    ensures
        r is Ok ==> cache_map(*final(conn)) == cache_map(*old(conn)).insert(id@, value@),
        r is Err ==> cache_map(*final(conn)) == cache_map(*old(conn)),
{
    let _map = sqlitemap::SqliteMap::new(&*conn, "raw_entities", "text", "text")?;
    conn.execute(
        "INSERT OR REPLACE INTO raw_entities (key, value) VALUES (?1, ?2)",
        &[&id, &value],
    )?;
    Ok(())
}

/// Relies on `sqlitemap::SqliteMap::new` and `SqliteMap::contains_key`:
/// `SELECT 1 ... WHERE key=?` finds a row exactly when the key is bound.
#[verifier::external_body]
pub fn store_has(conn: &rusqlite::Connection, id: &str) -> (r: Result<bool, rusqlite::Error>)
    ensures
        r is Ok ==> r->Ok_0 == cache_map(*conn).contains_key(id@),
{
    let mut map = sqlitemap::SqliteMap::new(conn, "raw_entities", "text", "text")?;
    map.contains_key(&id)
}

/// Relies on `sqlitemap::SqliteMap::new`, `rusqlite::Connection::prepare`,
/// `Statement::query` and `Row::get_checked`: `SELECT ... WHERE key=?`
/// returns the bound value exactly when the key is bound.  The value is
/// read as a blob (`CAST` to a blob keeps the bytes as they are) and
/// decoded with `String::from_utf8`, so a foreign file's invalid text
/// comes back as an error, never a panic.
#[verifier::external_body]
pub fn store_get(conn: &rusqlite::Connection, id: &str) -> (r: Result<
    Option<String>,
    rusqlite::Error,
>)
    ensures
        r is Ok ==> match r->Ok_0 {
            Some(v) => cache_map(*conn).contains_key(id@) && v@ == cache_map(*conn)[id@],
            None => !cache_map(*conn).contains_key(id@),
        },
{
    let _map = sqlitemap::SqliteMap::new(conn, "raw_entities", "text", "text")?;
    let mut stmt = conn.prepare("SELECT CAST(value AS BLOB) FROM raw_entities WHERE key = ?1")?;
    let mut rows = stmt.query(&[&id])?;
    let row = match rows.next() {
        None => return Ok(None),
        Some(row) => row?,
    };
    let bytes: Vec<u8> = row.get_checked(0)?;
    match String::from_utf8(bytes) {
        Ok(v) => Ok(Some(v)),
        Err(e) => Err(rusqlite::Error::FromSqlConversionFailure(0, rusqlite::types::Type::Text, Box::new(e))),
    }
}

/// Relies on `sqlitemap::SqliteMap::new` (creates the table when it is
/// absent), `rusqlite::Connection::prepare`, `Statement::query` and
/// `Row::get_checked`: `SELECT key, value` yields every row of the
/// table, each key once (the column is `UNIQUE`), in an order SQLite
/// leaves open.  The columns are read as blobs (`CAST` keeps the bytes
/// as they are) and decoded with `String::from_utf8`, so a foreign
/// file's non-text or invalid-text value comes back as an error, never
/// a panic.
#[verifier::external_body]
pub fn store_iter(conn: &rusqlite::Connection) -> (r: Result<
    Vec<(String, String)>,
    rusqlite::Error,
>)
    ensures
        r is Ok ==> {
            let ps = r->Ok_0@;
            &&& (forall|k: int|
                0 <= k < ps.len() ==> cache_map(*conn).contains_key((#[trigger] ps[k]).0@)
                    && ps[k].1@ == cache_map(*conn)[ps[k].0@])
            &&& (forall|key: Seq<char>|
                cache_map(*conn).contains_key(key) ==> exists|k: int|
                    0 <= k < ps.len() && (#[trigger] ps[k]).0@ == key)
            &&& (forall|k1: int, k2: int|
                0 <= k1 < ps.len() && 0 <= k2 < ps.len() && k1 != k2 ==> (#[trigger] ps[k1]).0@
                    != (#[trigger] ps[k2]).0@)
        },
{
    let _map = sqlitemap::SqliteMap::new(conn, "raw_entities", "text", "text")?;
    let mut stmt = conn.prepare("SELECT CAST(key AS BLOB), CAST(value AS BLOB) FROM raw_entities")?;
    let mut rows = stmt.query(&[])?;
    let mut out = Vec::new();
    while let Some(row) = rows.next() {
        let row = row?;
        let kv: (Vec<u8>, Vec<u8>) = (row.get_checked(0)?, row.get_checked(1)?);
        match (String::from_utf8(kv.0), String::from_utf8(kv.1)) {
            (Ok(k), Ok(v)) => out.push((k, v)),
            _ => return Err(rusqlite::Error::InvalidQuery),
        }
    }
    Ok(out)
}

/// Relies on `rusqlite::Connection::close`: closes the connection; the
/// database file itself is left for the host to remove.
#[verifier::external_body]
pub fn conn_close(conn: rusqlite::Connection) -> (r: Result<(), rusqlite::Error>) {
    match conn.close() {
        Ok(()) => Ok(()),
        Err((_c, e)) => Err(e),
    }
}

} // verus!
