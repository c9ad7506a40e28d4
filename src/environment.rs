//! A transactional key-value environment of named tables, keyed by digest.
//!
//! The committed state is a log of records: the value of a key in a table is
//! that of the last record for it. A transaction buffers its writes; they
//! reach the environment only through an explicit commit, and a transaction
//! that is dropped leaves the environment as it was.
use vstd::prelude::*;

use crate::digest::Digest;
use crate::error::Error;

verus! {

/// One stored key-value pair of a table.
pub struct Record {
    pub db: usize,
    pub key: Digest,
    pub value: Vec<u8>,
}

/// The mathematical value of a record: table index, key, value.
pub type RecordModel = (nat, Seq<u8>, Seq<u8>);

impl View for Record {
    type V = RecordModel;

    open spec fn view(&self) -> RecordModel {
        (self.db as nat, self.key@, self.value@)
    }
}

/// The value of the last record of `log` for `key` in table `db`.
pub open spec fn find(log: Seq<RecordModel>, db: nat, key: Seq<u8>) -> Option<Seq<u8>>
    decreases log.len(),
{
    if log.len() == 0 {
        None
    } else if log.last().0 == db && log.last().1 == key {
        Some(log.last().2)
    } else {
        find(log.drop_last(), db, key)
    }
}

/// Looking up in a log extended by `b` finds the record of `b`, if any.
pub proof fn lemma_find_append(a: Seq<RecordModel>, b: Seq<RecordModel>, db: nat, key: Seq<u8>)
    ensures
        find(a + b, db, key) == (match find(b, db, key) {
            Some(v) => Some(v),
            None => find(a, db, key),
        }),
    decreases b.len(),
{
    if b.len() == 0 {
        assert(a + b =~= a);
    } else {
        assert((a + b).drop_last() =~= a + b.drop_last());
        lemma_find_append(a, b.drop_last(), db, key);
    }
}

/// Where a log holds exactly one record for a key, in table `db`, that
/// record's value is the key's value.
pub proof fn lemma_find_unique(log: Seq<RecordModel>, db: nat, key: Seq<u8>, i: int)
    requires
        0 <= i < log.len(),
        log[i].0 == db,
        log[i].1 == key,
        forall|j: int| 0 <= j < log.len() && j != i ==> log[j].1 != key,
    ensures
        find(log, db, key) == Some(log[i].2),
    decreases log.len(),
{
    if i != log.len() - 1 {
        assert(log.last().1 != key);
        lemma_find_unique(log.drop_last(), db, key, i);
    }
}

/// A handle to one table of an environment.
#[derive(Clone, Copy, Debug, PartialEq, Eq)]
pub struct Database {
    pub index: usize,
}

impl Database {
    /// The position of the table in its environment.
    pub open spec fn index_of(self) -> nat {
        self.index as nat
    }
}

/// A transaction: the writes it has buffered, in order.
pub struct Txn {
    pub writes: Vec<Record>,
}

impl View for Txn {
    type V = Seq<RecordModel>;

    open spec fn view(&self) -> Seq<RecordModel> {
        self.writes@.map_values(|r: Record| r@)
    }
}

/// Named tables and their committed records.
pub struct Environment {
    pub names: Vec<String>,
    pub log: Vec<Record>,
}

/// The mathematical value of an environment: table names and committed log.
pub struct EnvironmentModel {
    pub names: Seq<Seq<char>>,
    pub log: Seq<RecordModel>,
}

impl View for Environment {
    type V = EnvironmentModel;

    open spec fn view(&self) -> EnvironmentModel {
        EnvironmentModel {
            names: self.names@.map_values(|s: String| s@),
            log: self.log@.map_values(|r: Record| r@),
        }
    }
}

impl EnvironmentModel {
    /// Whether `db` names a table.
    pub open spec fn has_db(self, db: Database) -> bool {
        db.index_of() < self.names.len()
    }

    /// The committed value of `key` in table `db`.
    pub open spec fn committed(self, db: Database, key: Seq<u8>) -> Option<Seq<u8>> {
        find(self.log, db.index_of(), key)
    }

    /// The value of `key` in table `db` as seen through a transaction whose
    /// buffered writes are `writes`.
    pub open spec fn visible(self, writes: Seq<RecordModel>, db: Database, key: Seq<u8>) -> Option<
        Seq<u8>,
    > {
        find(self.log + writes, db.index_of(), key)
    }
}

fn find_name(names: &Vec<String>, name: &String) -> (r: Option<usize>)
    ensures
        match r {
            Some(i) => i < names@.len() && names@[i as int]@ == name@,
            None => forall|j: int| 0 <= j < names@.len() ==> names@[j]@ != name@,
        },
{
    let mut i: usize = 0;
    while i < names.len()
        invariant
            i <= names@.len(),
            forall|j: int| 0 <= j < i ==> names@[j]@ != name@,
        decreases names@.len() - i,
    {
        if names[i] == *name {
            return Some(i);
        }
        i = i + 1;
    }
    None
}

impl Environment {
    /// An environment with no tables.
    pub fn new() -> (r: Environment)
        ensures
            r@.names.len() == 0,
            r@.log.len() == 0,
    {
        Environment { names: Vec::new(), log: Vec::new() }
    }

    /// The table named `name`, created empty if there is none yet.
    pub fn create_db(&mut self, name: &String) -> (r: Database)
        ensures
            old(self)@.log == final(self)@.log,
            r.index_of() < final(self)@.names.len(),
            final(self)@.names[r.index_of() as int] == name@,
            (exists|j: int| 0 <= j < old(self)@.names.len() && old(self)@.names[j] == name@)
                ==> final(self)@.names == old(self)@.names,
            !(exists|j: int| 0 <= j < old(self)@.names.len() && old(self)@.names[j] == name@)
                ==> final(self)@.names == old(self)@.names.push(name@),
    {
        match find_name(&self.names, name) {
            Some(i) => {
                assert(old(self)@.names[i as int] == name@);
                Database { index: i }
            },
            None => {
                let index = self.names.len();
                self.names.push(name.clone());
                proof {
                    assert(final(self)@.names =~= old(self)@.names.push(name@));
                }
                Database { index }
            },
        }
    }

    /// The existing table named `name`.
    pub fn open_db(&self, name: &String) -> (r: Result<Database, Error>)
        ensures
            match r {
                Ok(db) => db.index_of() < self@.names.len() && self@.names[db.index_of() as int]
                    == name@,
                Err(e) => e == Error::TableNotFound && forall|j: int|
                    0 <= j < self@.names.len() ==> self@.names[j] != name@,
            },
    {
        match find_name(&self.names, name) {
            Some(i) => Ok(Database { index: i }),
            None => Err(Error::TableNotFound),
        }
    }

    /// A transaction that reads the committed state.
    pub fn create_read_txn(&self) -> (r: Txn)
        ensures
            r@.len() == 0,
    {
        Txn { writes: Vec::new() }
    }

    /// A transaction that reads the committed state and buffers writes.
    pub fn create_read_write_txn(&self) -> (r: Txn)
        ensures
            r@.len() == 0,
    {
        Txn { writes: Vec::new() }
    }

    /// The value of `key` in table `db`, as seen through `txn`.
    pub fn read(&self, txn: &Txn, db: Database, key: &Digest) -> (r: Result<Option<Vec<u8>>, Error>)
        ensures
            !self@.has_db(db) ==> r == Err::<Option<Vec<u8>>, Error>(Error::BadDatabase),
            self@.has_db(db) ==> r is Ok,
            r matches Ok(Some(bytes)) ==> self@.visible(txn@, db, key@) == Some(bytes@),
            r matches Ok(None) ==> self@.visible(txn@, db, key@) is None,
    {
        if db.index >= self.names.len() {
            return Err(Error::BadDatabase);
        }
        proof {
            lemma_find_append(self@.log, txn@, db.index_of(), key@);
        }
        match find_in(&txn.writes, db.index, key) {
            Some(i) => Ok(Some(txn.writes[i].value.clone())),
            None => match find_in(&self.log, db.index, key) {
                Some(i) => Ok(Some(self.log[i].value.clone())),
                None => Ok(None),
            },
        }
    }

    /// Buffers in `txn` the write of `value` for `key` in table `db`.
    pub fn put(&self, txn: &mut Txn, db: Database, key: &Digest, value: Vec<u8>) -> (r: Result<
        (),
        Error,
    >)
        ensures
            self@.has_db(db) ==> r is Ok && final(txn)@ == old(txn)@.push(
                (db.index_of(), key@, value@),
            ),
            !self@.has_db(db) ==> r == Err::<(), Error>(Error::BadDatabase) && final(txn)@
                == old(txn)@,
    {
        if db.index >= self.names.len() {
            return Err(Error::BadDatabase);
        }
        txn.writes.push(Record { db: db.index, key: *key, value });
        proof {
            assert(final(txn)@ =~= old(txn)@.push((db.index_of(), key@, value@)));
        }
        Ok(())
    }

    /// Makes the writes of `txn` durable, all of them at once.
    pub fn commit(&mut self, txn: Txn)
        ensures
            final(self)@.names == old(self)@.names,
            final(self)@.log == old(self)@.log + txn@,
    {
        let mut writes = txn.writes;
        let ghost all = txn@;
        let mut rest: Vec<Record> = Vec::new();
        // Reverse into `rest`, then append in the order of the writes.
        while writes.len() > 0
            invariant
                all == writes@.map_values(|r: Record| r@) + rest@.map_values(|r: Record| r@).reverse(),
                self@ == old(self)@,
            decreases writes@.len(),
        {
            let ghost before = writes@;
            let w = writes.pop().unwrap();
            let ghost restv = rest@;
            rest.push(w);
            proof {
                assert(rest@.map_values(|r: Record| r@).reverse() =~= seq![w@] + restv.map_values(
                    |r: Record| r@,
                ).reverse());
                assert(before.map_values(|r: Record| r@) =~= writes@.map_values(|r: Record| r@).push(
                    w@,
                ));
                assert(all =~= writes@.map_values(|r: Record| r@) + rest@.map_values(|r: Record| r@).reverse());
            }
        }
        while rest.len() > 0
            invariant
                self@.names == old(self)@.names,
                all == self@.log.subrange(old(self)@.log.len() as int, self@.log.len() as int)
                    + rest@.map_values(|r: Record| r@).reverse(),
                self@.log.subrange(0, old(self)@.log.len() as int) == old(self)@.log,
                old(self)@.log.len() <= self@.log.len(),
            decreases rest@.len(),
        {
            let ghost restv = rest@;
            let ghost logv = self@.log;
            let w = rest.pop().unwrap();
            self.log.push(w);
            proof {
                assert(restv.map_values(|r: Record| r@).reverse() =~= seq![w@] + rest@.map_values(
                    |r: Record| r@,
                ).reverse());
                assert(self@.log =~= logv.push(w@));
                assert(self@.log.subrange(old(self)@.log.len() as int, self@.log.len() as int)
                    =~= logv.subrange(old(self)@.log.len() as int, logv.len() as int).push(w@));
                assert(self@.log.subrange(0, old(self)@.log.len() as int) =~= logv.subrange(
                    0,
                    old(self)@.log.len() as int,
                ));
                assert(all =~= self@.log.subrange(old(self)@.log.len() as int, self@.log.len() as int)
                    + rest@.map_values(|r: Record| r@).reverse());
            }
        }
        proof {
            assert(self@.log =~= self@.log.subrange(0, old(self)@.log.len() as int)
                + self@.log.subrange(old(self)@.log.len() as int, self@.log.len() as int));
            assert(rest@.map_values(|r: Record| r@).reverse() =~= Seq::<RecordModel>::empty());
        }
    }
}

/// The position of the last record of `log` for `key` in table `db`.
fn find_in(log: &Vec<Record>, db: usize, key: &Digest) -> (r: Option<usize>)
    ensures
        match r {
            Some(i) => i < log@.len() && find(log@.map_values(|r: Record| r@), db as nat, key@)
                == Some(log@[i as int].value@),
            None => find(log@.map_values(|r: Record| r@), db as nat, key@) is None,
        },
{
    let ghost all = log@.map_values(|r: Record| r@);
    let mut i: usize = log.len();
    assert(all.subrange(0, i as int) =~= all);
    while i > 0
        invariant
            i <= log@.len(),
            all == log@.map_values(|r: Record| r@),
            find(all, db as nat, key@) == find(all.subrange(0, i as int), db as nat, key@),
        decreases i,
    {
        assert(all.subrange(0, i as int).drop_last() =~= all.subrange(0, i - 1));
        if log[i - 1].db == db && log[i - 1].key.same_as(key) {
            return Some(i - 1);
        }
        i = i - 1;
    }
    None
}

} // verus!
