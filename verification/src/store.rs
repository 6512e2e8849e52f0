//! The store: one on-disk relational table `commands` whose rows mirror
//! `CommandEntry`, owned for their whole lifetime. Rows are immutable once
//! inserted and only ever aggregated over. The table is created lazily,
//! before the first insert, never at startup; a read-only query against a
//! store whose table does not exist yet returns empty results rather than
//! an error.
//!
//! The connection itself belongs to the `rusqlite` crate and is opaque here;
//! what the table holds is modelled by two ghost fields: whether the table
//! exists, and the sequence of its rows in insertion order, each read as the
//! codec reads it — the wire shell name mapped to its kind. The timestamp
//! and duration columns are unsigned in the model; a database file this
//! library did not write may hold a negative value there, and the selects
//! then fail (the columns are read as `u64`, which rejects negatives) rather
//! than misread the row. Every trusted item below states how one SQL
//! statement moves the model.
use crate::codec::shell_kind_of;
use crate::codec::shell_name;
use crate::codec::shell_of;
use crate::codec::CommandEntry;
use crate::codec::RecView;
use vstd::prelude::*;

verus! {

/// rusqlite's connection type, declared so it can stand in a field.
#[verifier::external_type_specification]
#[verifier::external_body]
pub struct ExConnection(rusqlite::Connection);

/// A store failure, carrying the database's own message.
#[derive(Debug)]
pub enum StoreError {
    Database(String),
}

impl StoreError {
    /// The database's message.
    pub fn message(&self) -> &str {
        match self {
            StoreError::Database(m) => m.as_str(),
        }
    }
}

/// One row as the selects hand it back: the shell kind still in its wire
/// form, exactly as the column stores it.
struct StoredRow {
    timestamp: u64,
    user: String,
    session: String,
    shell_name: String,
    cmd: String,
    cwd: String,
    exit_code: i32,
    duration_ms: u64,
}

/// The mathematical shape of a stored row.
ghost struct StoredRowV {
    timestamp: u64,
    user: Seq<char>,
    session: Seq<char>,
    shell_name: Seq<char>,
    cmd: Seq<char>,
    cwd: Seq<char>,
    exit_code: i32,
    duration_ms: u64,
}

impl DeepView for StoredRow {
    type V = StoredRowV;

    closed spec fn deep_view(&self) -> StoredRowV {
        StoredRowV {
            timestamp: self.timestamp,
            user: self.user@,
            session: self.session@,
            shell_name: self.shell_name@,
            cmd: self.cmd@,
            cwd: self.cwd@,
            exit_code: self.exit_code,
            duration_ms: self.duration_ms,
        }
    }
}

/// The record a stored row stands for: the wire shell name mapped to its
/// kind, every other field carried over.
spec fn rec_of_raw(r: StoredRowV) -> RecView {
    RecView {
        timestamp: r.timestamp,
        user: r.user,
        session: r.session,
        shell_type: shell_of(r.shell_name),
        cmd: r.cmd,
        cwd: r.cwd,
        exit_code: r.exit_code,
        duration_ms: r.duration_ms,
    }
}

/// The stored rows strictly newer than a cutoff, in stored order.
pub open spec fn rows_newer_than(rows: Seq<RecView>, cutoff_ms: u64) -> Seq<RecView> {
    rows.filter(|rec: RecView| rec.timestamp > cutoff_ms)
}

/// Timestamps and durations are persisted in a signed 64-bit column, so a
/// record must stay below this bound to survive the round trip through the
/// store; everything the codec accepts does.
pub open spec fn storable(r: RecView) -> bool {
    r.timestamp < 0x8000_0000_0000_0000 && r.duration_ms < 0x8000_0000_0000_0000
}

/// A handle on the `commands` table. `table` is whether the table exists;
/// `rows` is what it holds, in insertion order.
pub struct Store {
    pub conn: rusqlite::Connection,
    pub table: Ghost<bool>,
    pub rows: Ghost<Seq<RecView>>,
}

impl Store {
    /// A store's model is consistent: a table that does not exist holds no
    /// rows. `open_at` establishes this and every method preserves it.
    pub open spec fn wf(&self) -> bool {
        !self.table@ ==> self.rows@.len() == 0
    }

    /// Relies on `rusqlite::Connection::open`: opens (creating if missing)
    /// the database file at `path`.
    #[verifier::external_body]
    fn connect_raw(path: &str) -> (r: Result<rusqlite::Connection, StoreError>) {
        match rusqlite::Connection::open(path) {
            Ok(conn) => Ok(conn),
            Err(e) => Err(StoreError::Database(format!("{}", e))),
        }
    }

    /// Opens the store at `path`, creating the database file if it is
    /// missing. What the file already holds is unknown: the model starts
    /// with an arbitrary table state, constrained only by well-formedness.
    pub fn open_at(path: &str) -> (r: Result<Store, StoreError>)
        ensures
            match r {
                Ok(s) => s.wf(),
                Err(_) => true,
            },
    {
        match Self::connect_raw(path) {
            Ok(conn) => {
                let ghost t: bool = vstd::pervasive::arbitrary();
                let ghost rs: Seq<RecView> = if t {
                    vstd::pervasive::arbitrary()
                } else {
                    Seq::empty()
                };
                Ok(Store { conn, table: Ghost(t), rows: Ghost(rs) })
            },
            Err(e) => Err(e),
        }
    }

    /// Relies on `CREATE TABLE IF NOT EXISTS` via `rusqlite::Connection::execute`:
    /// afterwards the table exists; creating it adds no rows, and an existing
    /// table is left alone.
    #[verifier::external_body]
    pub fn ensure_schema(&mut self) -> (r: Result<(), StoreError>)
        requires
            old(self).wf(),
        ensures
            final (self).wf(),
            match r {
                Ok(()) => final (self).table@ == true && final (self).rows@ == old(self).rows@,
                Err(_) => final (self).table@ == old(self).table@ && final (self).rows@ == old(
                    self,
                ).rows@,
            },
    {
        let sql = "CREATE TABLE IF NOT EXISTS commands (id INTEGER PRIMARY KEY AUTOINCREMENT, timestamp INTEGER, user TEXT, session TEXT, shell_type TEXT, cmd TEXT, cwd TEXT, exit_code INTEGER, duration_ms INTEGER)";
        match self.conn.execute(sql, ()) {
            Ok(_) => Ok(()),
            Err(e) => Err(StoreError::Database(format!("{}", e))),
        }
    }

    /// Relies on a `SELECT COUNT(*) FROM sqlite_master` lookup via
    /// `rusqlite::Connection::query_row`: whether the `commands` table exists.
    #[verifier::external_body]
    pub fn table_exists(&self) -> (r: Result<bool, StoreError>)
        ensures
            match r {
                Ok(b) => b == self.table@,
                Err(_) => true,
            },
    {
        let sql = "SELECT COUNT(*) FROM sqlite_master WHERE type = 'table' AND name = 'commands'";
        match self.conn.query_row(sql, (), |row| row.get::<_, i64>(0)) {
            Ok(n) => Ok(n > 0),
            Err(e) => Err(StoreError::Database(format!("{}", e))),
        }
    }

    /// Relies on a parameterized `INSERT` via `rusqlite::Connection::execute`:
    /// appends exactly one row holding the record's fields, with the shell
    /// kind stored under the wire name computed by the caller; a failed
    /// insert changes nothing (each insert is its own transaction).
    #[verifier::external_body]
    fn insert_raw(&mut self, rec: &CommandEntry, shell: &str) -> (r: Result<(), StoreError>)
        requires
            old(self).wf(),
            old(self).table@,
            storable(rec@),
            shell@ == shell_name(rec.shell_type),
        ensures
            final (self).wf(),
            match r {
                Ok(()) => final (self).table@ && final (self).rows@ == old(self).rows@.push(rec@),
                Err(_) => final (self).table@ == old(self).table@ && final (self).rows@ == old(
                    self,
                ).rows@,
            },
    {
        let sql = "INSERT INTO commands (timestamp, user, session, shell_type, cmd, cwd, exit_code, duration_ms) VALUES (?1, ?2, ?3, ?4, ?5, ?6, ?7, ?8)";
        let params = (
            rec.timestamp as i64,
            &rec.user,
            &rec.session,
            shell,
            &rec.cmd,
            &rec.cwd,
            rec.exit_code,
            rec.duration_ms as i64,
        );
        match self.conn.execute(sql, params) {
            Ok(_) => Ok(()),
            Err(e) => Err(StoreError::Database(format!("{}", e))),
        }
    }

    /// Relies on a parameterized, read-only `SELECT ... WHERE timestamp > ?1
    /// ORDER BY id` via `rusqlite`'s `prepare` and `query_map`: the rows
    /// strictly newer than the cutoff, in insertion order (`id` is the
    /// auto-incrementing insertion key). The timestamp and duration columns
    /// are read as `u64`, so a negative value — possible only in a database
    /// this library did not write — is an error, never a wrapped value, and
    /// the unsigned comparison of the model agrees with the signed one of
    /// the statement on every row handed back.
    #[verifier::external_body]
    fn select_since_raw(&self, cutoff_ms: u64) -> (r: Result<Vec<StoredRow>, StoreError>)
        requires
            self.wf(),
            self.table@,
            cutoff_ms < 0x8000_0000_0000_0000,
        ensures
            match r {
                Ok(v) => v.deep_view().map_values(|raw: StoredRowV| rec_of_raw(raw))
                    == rows_newer_than(self.rows@, cutoff_ms),
                Err(_) => true,
            },
    {
        let sql = "SELECT timestamp, user, session, shell_type, cmd, cwd, exit_code, duration_ms FROM commands WHERE timestamp > ?1 ORDER BY id ASC";
        let r = self.conn.prepare(sql).and_then(|mut s| {
            s.query_map((cutoff_ms as i64,), |row| Ok(StoredRow {
                timestamp: row.get(0)?, user: row.get(1)?, session: row.get(2)?,
                shell_name: row.get(3)?, cmd: row.get(4)?, cwd: row.get(5)?,
                exit_code: row.get(6)?, duration_ms: row.get(7)?,
            }))?.collect()
        });
        match r {
            Ok(v) => Ok(v),
            Err(e) => Err(StoreError::Database(format!("{}", e))),
        }
    }

    /// Relies on a read-only `SELECT ... ORDER BY id` via `rusqlite`'s
    /// `prepare` and `query_map`: every stored row, in insertion order, read
    /// back exactly as `select_since_raw` reads its rows.
    #[verifier::external_body]
    fn select_all_raw(&self) -> (r: Result<Vec<StoredRow>, StoreError>)
        requires
            self.wf(),
            self.table@,
        ensures
            match r {
                Ok(v) => v.deep_view().map_values(|raw: StoredRowV| rec_of_raw(raw))
                    == self.rows@,
                Err(_) => true,
            },
    {
        let sql = "SELECT timestamp, user, session, shell_type, cmd, cwd, exit_code, duration_ms FROM commands ORDER BY id ASC";
        let r = self.conn.prepare(sql).and_then(|mut s| {
            s.query_map((), |row| Ok(StoredRow {
                timestamp: row.get(0)?, user: row.get(1)?, session: row.get(2)?,
                shell_name: row.get(3)?, cmd: row.get(4)?, cwd: row.get(5)?,
                exit_code: row.get(6)?, duration_ms: row.get(7)?,
            }))?.collect()
        });
        match r {
            Ok(v) => Ok(v),
            Err(e) => Err(StoreError::Database(format!("{}", e))),
        }
    }

    /// The records the selected rows stand for, in order: the wire shell
    /// name of each row mapped to its kind in verified code.
    fn entries_from_rows(raw: Vec<StoredRow>) -> (out: Vec<CommandEntry>)
        ensures
            out.deep_view() == raw.deep_view().map_values(|r: StoredRowV| rec_of_raw(r)),
    {
        let ghost all = raw.deep_view();
        let mut out: Vec<CommandEntry> = Vec::new();
        let mut i: usize = 0;
        while i < raw.len()
            invariant
                i <= raw@.len(),
                all == raw.deep_view(),
                all.len() == raw@.len(),
                forall|k: int| 0 <= k < all.len() ==> all[k] == #[trigger] raw@[k].deep_view(),
                out.deep_view() == all.take(i as int).map_values(|r: StoredRowV| rec_of_raw(r)),
            decreases raw@.len() - i,
        {
            let r = &raw[i];
            let entry = CommandEntry {
                timestamp: r.timestamp,
                user: r.user.clone(),
                session: r.session.clone(),
                shell_type: shell_kind_of(r.shell_name.as_str()),
                cmd: r.cmd.clone(),
                cwd: r.cwd.clone(),
                exit_code: r.exit_code,
                duration_ms: r.duration_ms,
            };
            assert(entry@ == rec_of_raw(all[i as int]));
            let ghost pre = out.deep_view();
            out.push(entry);
            proof {
                assert(out.deep_view() =~= pre.push(rec_of_raw(all[i as int])));
                assert(all.take(i + 1).map_values(|r2: StoredRowV| rec_of_raw(r2)) =~= all.take(
                    i as int,
                ).map_values(|r2: StoredRowV| rec_of_raw(r2)).push(rec_of_raw(all[i as int])));
            }
            i = i + 1;
        }
        proof {
            assert(all.take(raw@.len() as int) =~= all);
        }
        out
    }

    /// Appends one record as an immutable row, creating the table first if
    /// this is the first insert. On success the store holds exactly the old
    /// rows plus this one, at the end; on failure it is unchanged.
    pub fn insert_cmd_entry(&mut self, rec: &CommandEntry) -> (r: Result<(), StoreError>)
        requires
            old(self).wf(),
            storable(rec@),
        ensures
            final (self).wf(),
            match r {
                Ok(()) => final (self).table@ && final (self).rows@ == old(self).rows@.push(rec@),
                Err(_) => final (self).rows@ == old(self).rows@,
            },
    {
        let have_table = match self.table_exists() {
            Ok(b) => b,
            Err(e) => {
                return Err(e);
            },
        };
        if !have_table {
            match self.ensure_schema() {
                Ok(()) => (),
                Err(e) => {
                    return Err(e);
                },
            }
        }
        let shell = rec.shell_wire_name();
        self.insert_raw(rec, shell)
    }

    /// The stored rows strictly newer than `cutoff_ms`, in insertion order.
    /// A store whose table does not exist yet has no rows: the result is
    /// empty, not an error.
    pub fn select_since(&self, cutoff_ms: u64) -> (r: Result<Vec<CommandEntry>, StoreError>)
        requires
            self.wf(),
            cutoff_ms < 0x8000_0000_0000_0000,
        ensures
            match r {
                Ok(v) => v.deep_view() == rows_newer_than(self.rows@, cutoff_ms),
                Err(_) => true,
            },
    {
        let have_table = match self.table_exists() {
            Ok(b) => b,
            Err(e) => {
                return Err(e);
            },
        };
        if !have_table {
            let empty: Vec<CommandEntry> = Vec::new();
            assert(rows_newer_than(self.rows@, cutoff_ms) =~= Seq::<RecView>::empty());
            assert(empty.deep_view() =~= Seq::<RecView>::empty());
            return Ok(empty);
        }
        match self.select_since_raw(cutoff_ms) {
            Ok(raw) => Ok(Self::entries_from_rows(raw)),
            Err(e) => Err(e),
        }
    }

    /// Every stored row, in insertion order. A store whose table does not
    /// exist yet has no rows: the result is empty, not an error.
    pub fn select_all(&self) -> (r: Result<Vec<CommandEntry>, StoreError>)
        requires
            self.wf(),
        ensures
            match r {
                Ok(v) => v.deep_view() == self.rows@,
                Err(_) => true,
            },
    {
        let have_table = match self.table_exists() {
            Ok(b) => b,
            Err(e) => {
                return Err(e);
            },
        };
        if !have_table {
            let empty: Vec<CommandEntry> = Vec::new();
            assert(empty.deep_view() =~= Seq::<RecView>::empty());
            assert(self.rows@ =~= Seq::<RecView>::empty());
            return Ok(empty);
        }
        match self.select_all_raw() {
            Ok(raw) => Ok(Self::entries_from_rows(raw)),
            Err(e) => Err(e),
        }
    }
}

} // verus!
