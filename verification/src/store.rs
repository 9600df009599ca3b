//! The transactional partition table: a persistent store of one table per
//! calendar day, each mapping client identifiers to outcome flags, with
//! last-write-wins upserts and full-scan aggregation.
//!
//! The store's logical contents are modelled as a map from partition key to
//! that day's table, itself a map from client identifier to outcome. The
//! persistence engine is redb, called through a handful of trusted wrappers,
//! one per transaction shape; everything around those calls is verified
//! against that model.

use vstd::prelude::*;
use vstd::set_lib::*;

use crate::errors::StoreError;
use crate::partition::PartitionKey;
use crate::partition::day_of_timestamp;
use crate::partition::partition_key_for_day;
use crate::partition::resolve_partition;
use crate::tally::false_count;
use crate::tally::tally_outcomes;
use crate::tally::true_count;

use redb::ReadableDatabase;
use redb::ReadableTable;

verus! {

#[verifier::external_type_specification]
#[verifier::external_body]
pub struct ExDatabase(redb::Database);

/// The logical contents of a database: partition key to that day's table of
/// client outcomes.
pub uninterp spec fn db_map(db: redb::Database) -> Map<Seq<char>, Map<Seq<char>, bool>>;

/// The records of one partition in a store's contents: a partition never
/// written counts as empty.
pub open spec fn day_table(
    m: Map<Seq<char>, Map<Seq<char>, bool>>,
    p: Seq<char>,
) -> Map<Seq<char>, bool> {
    if m.contains_key(p) {
        m[p]
    } else {
        Map::empty()
    }
}

/// The store's contents after upserting `c -> v` into partition `p`: the
/// record is inserted, or overwritten if `c` already has one; every other
/// record, and every other partition, is untouched.
pub open spec fn upsert_map(
    m: Map<Seq<char>, Map<Seq<char>, bool>>,
    p: Seq<char>,
    c: Seq<char>,
    v: bool,
) -> Map<Seq<char>, Map<Seq<char>, bool>> {
    m.insert(p, day_table(m, p).insert(c, v))
}

/// How many clients of a day's table chose "open" (`false`).
pub open spec fn open_count_of(t: Map<Seq<char>, bool>) -> nat {
    t.dom().filter(|c: Seq<char>| !t[c]).len()
}

/// How many clients of a day's table chose "press" (`true`).
pub open spec fn press_count_of(t: Map<Seq<char>, bool>) -> nat {
    t.dom().filter(|c: Seq<char>| t[c]).len()
}

/// Relies on redb::Database::create: opens the file at `path` as a database,
/// initializing one if the file is absent or empty, and fails otherwise.
#[verifier::external_body]
fn db_open_or_create(path: &str) -> (r: Result<redb::Database, StoreError>)
    ensures
        r is Err ==> r->Err_0 is StoreUnavailable,
{
    match redb::Database::create(path) {
        Ok(db) => Ok(db),
        Err(_) => Err(StoreError::StoreUnavailable),
    }
}

/// Relies on one redb write transaction: Database::begin_write,
/// WriteTransaction::open_table ("the table will be created if it does not
/// exist"; TableDefinition::new refuses an empty name), Table::insert ("if
/// key is already present it is replaced") and WriteTransaction::commit.
/// redb applies a transaction atomically: a failure before commit (reported
/// here as TableAccessFailure, or TransactionFailure from begin_write) drops
/// the transaction, which aborts it and changes nothing; a failed commit
/// applies the upsert fully or not at all, and must not be assumed rolled
/// back.
#[verifier::external_body]
fn db_upsert(db: &mut redb::Database, partition: &str, client: &str, outcome: bool) -> (r: Result<
    (),
    StoreError,
>)
    requires
        partition@.len() != 0,
    ensures
        r is Ok ==> db_map(*final(db)) == upsert_map(
            db_map(*old(db)),
            partition@,
            client@,
            outcome,
        ),
        r is Err ==> (db_map(*final(db)) == db_map(*old(db)) || db_map(*final(db)) == upsert_map(
            db_map(*old(db)),
            partition@,
            client@,
            outcome,
        )) && !(r->Err_0 is StoreUnavailable),
        r is Err && r->Err_0 is TableAccessFailure ==> db_map(*final(db)) == db_map(*old(db)),
{
    let def: redb::TableDefinition<&str, bool> = redb::TableDefinition::new(partition);
    let txn = db.begin_write().map_err(|_| StoreError::TransactionFailure)?;
    {
        let mut table = txn.open_table(def).map_err(|_| StoreError::TableAccessFailure)?;
        table.insert(client, outcome).map_err(|_| StoreError::TableAccessFailure)?;
    }
    txn.commit().map_err(|_| StoreError::TransactionFailure)
}

/// Relies on one redb read transaction: Database::begin_read (a snapshot of
/// the last commit), ReadTransaction::open_table, which reports
/// TableDoesNotExist for a partition never written (TableDefinition::new
/// refuses an empty name), and a full scan through ReadableTable::iter,
/// which yields every stored (key, value) pair exactly once, each key at
/// most once.
#[verifier::external_body]
fn db_scan(db: &redb::Database, partition: &str) -> (r: Result<
    Option<Vec<(String, bool)>>,
    StoreError,
>)
    requires
        partition@.len() != 0,
    ensures
        r matches Ok(Some(v)) ==> {
            &&& db_map(*db).contains_key(partition@)
            &&& forall|i: int|
                0 <= i < v@.len() ==> #[trigger] db_map(*db)[partition@].contains_key(v@[i].0@)
                    && db_map(*db)[partition@][v@[i].0@] == v@[i].1
            &&& forall|i: int, j: int| 0 <= i < j < v@.len() ==> v@[i].0@ != v@[j].0@
            &&& forall|k: Seq<char>|
                #[trigger] db_map(*db)[partition@].contains_key(k) ==> exists|i: int|
                    0 <= i < v@.len() && v@[i].0@ == k
        },
        r matches Ok(None) ==> !db_map(*db).contains_key(partition@),
        r is Err ==> !(r->Err_0 is StoreUnavailable),
{
    let def: redb::TableDefinition<&str, bool> = redb::TableDefinition::new(partition);
    let txn = db.begin_read().map_err(|_| StoreError::TransactionFailure)?;
    let table = match txn.open_table(def) {
        Ok(t) => t,
        Err(redb::TableError::TableDoesNotExist(_)) => return Ok(None),
        Err(_) => return Err(StoreError::TableAccessFailure),
    };
    let mut out: Vec<(String, bool)> = Vec::new();
    for item in table.iter().map_err(|_| StoreError::TableAccessFailure)? {
        let (k, v) = item.map_err(|_| StoreError::TableAccessFailure)?;
        out.push((k.value().to_string(), v.value()));
    }
    Ok(Some(out))
}

/// A date-partitioned event store backed by one persistent database file.
pub struct EventStore {
    db: redb::Database,
}

impl View for EventStore {
    type V = Map<Seq<char>, Map<Seq<char>, bool>>;

    closed spec fn view(&self) -> Self::V {
        db_map(self.db)
    }
}

/// A sequence that lists a day's table exactly — every pair stored, no
/// client twice, every stored client listed — tallies to the table's counts.
proof fn lemma_tally_matches_table(s: Seq<(String, bool)>, t: Map<Seq<char>, bool>)
    requires
        forall|i: int|
            0 <= i < s.len() ==> #[trigger] t.contains_key(s[i].0@) && t[s[i].0@] == s[i].1,
        forall|i: int, j: int| 0 <= i < j < s.len() ==> s[i].0@ != s[j].0@,
        forall|k: Seq<char>|
            #[trigger] t.contains_key(k) ==> exists|i: int| 0 <= i < s.len() && s[i].0@ == k,
    ensures
        t.dom().finite(),
        false_count(s) == open_count_of(t),
        true_count(s) == press_count_of(t),
    decreases s.len(),
{
    if s.len() == 0 {
        assert(t.dom() =~= Set::<Seq<char>>::empty());
        assert(t.dom().filter(|c: Seq<char>| t[c]) =~= Set::<Seq<char>>::empty());
        assert(t.dom().filter(|c: Seq<char>| !t[c]) =~= Set::<Seq<char>>::empty());
    } else {
        let s2 = s.drop_last();
        let last = s.len() - 1;
        assert(t.contains_key(s[last].0@) && t[s[last].0@] == s[last].1);
        let k = s[last].0@;
        let t2 = t.remove(k);
        assert forall|i: int|
            0 <= i < s2.len() implies #[trigger] t2.contains_key(s2[i].0@) && t2[s2[i].0@]
            == s2[i].1 by {
            assert(0 <= i < s.len());
            assert(s2[i] == s[i]);
            assert(t.contains_key(s[i].0@) && t[s[i].0@] == s[i].1);
            assert(s[i].0@ != s[last].0@);
        }
        assert forall|k2: Seq<char>| #[trigger] t2.contains_key(k2) implies exists|i: int|
            0 <= i < s2.len() && s2[i].0@ == k2 by {
            assert(t.contains_key(k2));
            let i = choose|i: int| 0 <= i < s.len() && s[i].0@ == k2;
            assert(i != last);
            assert(s2[i].0@ == k2);
        }
        lemma_tally_matches_table(s2, t2);
        assert(t.dom() =~= t2.dom().insert(k));
        assert(t2.dom().filter(|c: Seq<char>| t2[c]) =~= t.dom().filter(
            |c: Seq<char>| t[c],
        ).remove(k));
        assert(t2.dom().filter(|c: Seq<char>| !t2[c]) =~= t.dom().filter(
            |c: Seq<char>| !t[c],
        ).remove(k));
        t.dom().lemma_len_filter(|c: Seq<char>| t[c]);
        t.dom().lemma_len_filter(|c: Seq<char>| !t[c]);
        vstd::set::axiom_set_remove_len(t.dom().filter(|c: Seq<char>| t[c]), k);
        vstd::set::axiom_set_remove_len(t.dom().filter(|c: Seq<char>| !t[c]), k);
    }
}

impl EventStore {
    /// Opens the persistent store at `path`, creating it if absent. Meant to
    /// be called once at startup and shared for the process lifetime.
    pub fn open(path: &str) -> (r: Result<EventStore, StoreError>)
        ensures
            r is Err ==> r->Err_0 is StoreUnavailable,
    {
        match db_open_or_create(path) {
            Ok(db) => Ok(EventStore { db }),
            Err(e) => Err(e),
        }
    }

    /// Upserts `client_id -> outcome` into the named partition's table,
    /// creating the partition on first write, and commits before returning:
    /// on success the one record is inserted or overwritten and nothing else
    /// changes. No partial write is ever observable: a failure leaves the
    /// store unchanged or — when a commit fails after taking hold — with the
    /// upsert fully applied; a failure before commit changes nothing.
    pub fn record_in(&mut self, partition: &PartitionKey, client_id: &str, outcome: bool) -> (r:
        Result<(), StoreError>)
        ensures
            r is Ok ==> final(self)@ == upsert_map(old(self)@, partition@, client_id@, outcome),
            r is Err ==> (final(self)@ == old(self)@ || final(self)@ == upsert_map(
                old(self)@,
                partition@,
                client_id@,
                outcome,
            )) && !(r->Err_0 is StoreUnavailable),
            r is Err && r->Err_0 is TableAccessFailure ==> final(self)@ == old(self)@,
    {
        proof {
            use_type_invariant(partition);
        }
        db_upsert(&mut self.db, partition.as_str(), client_id, outcome)
    }

    /// Counts the named partition's outcomes by scanning each of its records
    /// exactly once: the result pairs how many clients chose "open" with how
    /// many chose "press". A partition never written counts as `(0, 0)`
    /// rather than an error.
    pub fn count_in(&self, partition: &PartitionKey) -> (r: Result<(u64, u64), StoreError>)
        ensures
            r matches Ok(c) ==> c.0 == open_count_of(day_table(self@, partition@)) && c.1
                == press_count_of(day_table(self@, partition@)),
            r is Ok && !self@.contains_key(partition@) ==> r->Ok_0 == (0u64, 0u64),
            r is Err ==> !(r->Err_0 is StoreUnavailable),
    {
        proof {
            use_type_invariant(partition);
        }
        match db_scan(&self.db, partition.as_str()) {
            Err(e) => Err(e),
            Ok(None) => {
                proof {
                    let t = day_table(self@, partition@);
                    assert(t =~= Map::<Seq<char>, bool>::empty());
                    assert(t.dom() =~= Set::<Seq<char>>::empty());
                    assert(t.dom().filter(|c: Seq<char>| t[c]) =~= Set::<Seq<char>>::empty());
                    assert(t.dom().filter(|c: Seq<char>| !t[c]) =~= Set::<Seq<char>>::empty());
                }
                Ok((0, 0))
            },
            Ok(Some(records)) => {
                let counts = tally_outcomes(&records);
                proof {
                    lemma_tally_matches_table(records@, day_table(self@, partition@));
                }
                Ok(counts)
            },
        }
    }

    /// Records one event: resolves the timestamp's daily partition, upserts
    /// `client_id -> outcome` there, and acknowledges with the submission
    /// message. A failed write never returns an acknowledgment, and leaves
    /// the store unchanged or — when a commit fails after taking hold — with
    /// the upsert fully applied, never partially written.
    pub fn record_event(&mut self, client_id: &str, timestamp: u64, outcome: bool) -> (r: Result<
        String,
        StoreError,
    >)
        ensures
            r is Ok ==> final(self)@ == upsert_map(
                old(self)@,
                partition_key_for_day(day_of_timestamp(timestamp)),
                client_id@,
                outcome,
            ),
            r matches Ok(ack) ==> ack@ == ack_message(
                client_id@,
                partition_key_for_day(day_of_timestamp(timestamp)),
            ),
            r is Err ==> (final(self)@ == old(self)@ || final(self)@ == upsert_map(
                old(self)@,
                partition_key_for_day(day_of_timestamp(timestamp)),
                client_id@,
                outcome,
            )) && !(r->Err_0 is StoreUnavailable),
            r is Err && r->Err_0 is TableAccessFailure ==> final(self)@ == old(self)@,
    {
        let partition = resolve_partition(timestamp);
        match self.record_in(&partition, client_id, outcome) {
            Err(e) => Err(e),
            Ok(()) => {
                let mut ack = String::new();
                ack.append(client_id);
                ack.append(" submitted for button ");
                ack.append(partition.as_str());
                proof {
                    assert(ack@ =~= ack_message(client_id@, partition@));
                }
                Ok(ack)
            },
        }
    }

    /// Counts the outcomes recorded on the timestamp's UTC calendar day.
    pub fn count_partition(&self, timestamp: u64) -> (r: Result<(u64, u64), StoreError>)
        ensures
            r matches Ok(c) ==> c.0 == open_count_of(
                day_table(self@, partition_key_for_day(day_of_timestamp(timestamp))),
            ) && c.1 == press_count_of(
                day_table(self@, partition_key_for_day(day_of_timestamp(timestamp))),
            ),
            r is Ok && !self@.contains_key(partition_key_for_day(day_of_timestamp(timestamp)))
                ==> r->Ok_0 == (0u64, 0u64),
            r is Err ==> !(r->Err_0 is StoreUnavailable),
    {
        let partition = resolve_partition(timestamp);
        self.count_in(&partition)
    }
}

/// The acknowledgment a successful write returns.
pub open spec fn ack_message(c: Seq<char>, p: Seq<char>) -> Seq<char> {
    c + " submitted for button "@ + p
}

/// Recording the same outcome for the same client twice leaves exactly what
/// one recording leaves: one record for that client, with that outcome.
pub proof fn lemma_record_idempotent(
    m: Map<Seq<char>, Map<Seq<char>, bool>>,
    p: Seq<char>,
    c: Seq<char>,
    v: bool,
)
    ensures
        upsert_map(upsert_map(m, p, c, v), p, c, v) == upsert_map(m, p, c, v),
{
    assert(day_table(upsert_map(m, p, c, v), p).insert(c, v) =~= day_table(m, p).insert(c, v));
    assert(upsert_map(upsert_map(m, p, c, v), p, c, v) =~~= upsert_map(m, p, c, v));
}

/// The last of two writes for the same client wins outright: the store is
/// left exactly as if only the second had happened.
pub proof fn lemma_last_write_wins(
    m: Map<Seq<char>, Map<Seq<char>, bool>>,
    p: Seq<char>,
    c: Seq<char>,
    v1: bool,
    v2: bool,
)
    ensures
        upsert_map(upsert_map(m, p, c, v1), p, c, v2) == upsert_map(m, p, c, v2),
        day_table(upsert_map(upsert_map(m, p, c, v1), p, c, v2), p)[c] == v2,
{
    assert(day_table(upsert_map(m, p, c, v1), p).insert(c, v2) =~= day_table(m, p).insert(c, v2));
    assert(upsert_map(upsert_map(m, p, c, v1), p, c, v2) =~~= upsert_map(m, p, c, v2));
}

/// A record written under one day's partition is invisible to every other
/// partition.
pub proof fn lemma_partition_isolation(
    m: Map<Seq<char>, Map<Seq<char>, bool>>,
    p: Seq<char>,
    c: Seq<char>,
    v: bool,
    q: Seq<char>,
)
    requires
        q != p,
    ensures
        day_table(upsert_map(m, p, c, v), q) == day_table(m, q),
{
}

/// Writes for distinct clients in the same partition never lose each other:
/// both records are present afterwards, and the two serialization orders
/// leave the same store.
pub proof fn lemma_no_lost_update(
    m: Map<Seq<char>, Map<Seq<char>, bool>>,
    p: Seq<char>,
    c1: Seq<char>,
    v1: bool,
    c2: Seq<char>,
    v2: bool,
)
    requires
        c1 != c2,
    ensures
        day_table(upsert_map(upsert_map(m, p, c1, v1), p, c2, v2), p).contains_key(c1),
        day_table(upsert_map(upsert_map(m, p, c1, v1), p, c2, v2), p)[c1] == v1,
        day_table(upsert_map(upsert_map(m, p, c1, v1), p, c2, v2), p).contains_key(c2),
        day_table(upsert_map(upsert_map(m, p, c1, v1), p, c2, v2), p)[c2] == v2,
        upsert_map(upsert_map(m, p, c1, v1), p, c2, v2) == upsert_map(
            upsert_map(m, p, c2, v2),
            p,
            c1,
            v1,
        ),
{
    assert(day_table(m, p).insert(c1, v1).insert(c2, v2) =~= day_table(m, p).insert(
        c2,
        v2,
    ).insert(c1, v1));
    assert(day_table(upsert_map(m, p, c1, v1), p).insert(c2, v2) =~= day_table(m, p).insert(
        c1,
        v1,
    ).insert(c2, v2));
    assert(day_table(upsert_map(m, p, c2, v2), p).insert(c1, v1) =~= day_table(m, p).insert(
        c2,
        v2,
    ).insert(c1, v1));
    assert(upsert_map(upsert_map(m, p, c1, v1), p, c2, v2) =~~= upsert_map(
        upsert_map(m, p, c2, v2),
        p,
        c1,
        v1,
    ));
}

} // verus!
