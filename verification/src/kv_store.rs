//! `KvStore` is a log-based storage engine that stores key/value pairs.
//!
//! The log is a persistent sequence of records representing commands to the
//! storage, like `Put` or `Remove`. All records are written to the end of
//! the log; updating or removing a value never rewrites old records, it only
//! appends new ones. An in-memory index maps each live key to the location
//! of its most recent record. When the number of obsolete records crosses
//! `RECORDS_LIMIT`, the log is compacted: surviving records are rewritten
//! into fresh passive files and everything else is dropped.

use vstd::prelude::*;

use crate::error::KvError;
use crate::error::Result;
use crate::index::Index;
use crate::log::entry_valid;
use crate::log::is_active_name;
use crate::log::lemma_model_valid;
use crate::log::lone_active;
use crate::log::model_valid;
use crate::log::passive_name;
use crate::log::passive_serial_of;
use crate::log::ptrs_of;
use crate::log::serials_distinct;
use crate::log::DirEntry;
use crate::log::Log;
use crate::log::PassiveFile;
use crate::log::all_puts;
use crate::log::distinct_keys;
use crate::log::file_wf;
use crate::log::key_of;
use crate::log::recs_view;
use crate::log::records_of;
use crate::log::total_enc_len;
use crate::log::total_passive_len;
use crate::log::value_of;
use crate::logpointer::DataFile;
use crate::record::enc_rec;
use crate::record::Record;
use crate::record::RecordModel;
use crate::utils::ACTIVE_FILE_NAME;
use vstd::string::StringExecFns;

verus! {

/// Number of obsolete records that triggers compaction.
pub const RECORDS_LIMIT: u64 = 1024;

/// A snapshot of the passive files taken right before a compaction.
pub struct Backup {
    pub files: Vec<PassiveFile>,
}

/// The storage engine: a log of records and the index over it.
pub struct KvStore {
    index: Index,
    log: Log,
    unused_records: u64,
    backups_dir: Option<String>,
    backups: Vec<Backup>,
}

/// Every classified datafile among the entries parses as records.
pub open spec fn entries_parse(es: Seq<DirEntry>) -> bool {
    forall|i: int|
        0 <= i < es.len() && (is_active_name(#[trigger] es[i].name@) || passive_serial_of(
            es[i].name@,
        ) is Some) ==> file_wf(es[i].content@)
}

/// The shape of a freshly compacted log: an empty active file, passive files
/// numbered 1 up to the high-water mark, each holding at most
/// `RECORDS_IN_COMPACTED` records.
pub open spec fn compacted_state(log: Log) -> bool {
    &&& log.active@.len() == 0
    &&& log.last_serial_number as int == log.passives@.len()
    &&& forall|j: int|
        0 <= j < log.passives@.len() ==> records_of(
            (#[trigger] log.passives@[j]).content@,
        ).len() <= crate::RECORDS_IN_COMPACTED
}

/// The records enumerate the live map exactly: one `Put` per live key,
/// asserting that key's live value.
pub open spec fn enumerates_live(rs: Seq<RecordModel>, m: Map<Seq<char>, Seq<char>>) -> bool {
    &&& all_puts(rs)
    &&& distinct_keys(rs)
    &&& forall|t: int|
        0 <= t < rs.len() ==> m.contains_key(key_of(#[trigger] rs[t])) && value_of(rs[t])
            == m[key_of(rs[t])]
    &&& forall|k: Seq<char>|
        m.contains_key(k) ==> exists|t: int| 0 <= t < rs.len() && key_of(#[trigger] rs[t]) == k
}

/// The passive files hold exactly one record per live key of `m`: their
/// total size is the total encoded size of one such enumeration, so it is at
/// most the number of live keys times the largest record encoding
/// (`lemma_total_enc_len_bound`).
pub open spec fn holds_exactly(log: Log, m: Map<Seq<char>, Seq<char>>) -> bool {
    exists|rs: Seq<RecordModel>|
        #[trigger] enumerates_live(rs, m) && total_passive_len(log.passives@) == total_enc_len(rs)
}

/// `files` is a snapshot of the passive files right after rotating a log
/// that held `passives`, high-water mark `lsn`, and `active` in its active
/// file: the old passives, plus — when the active file was nonempty — one
/// more file, serial `lsn + 1`, holding the old active contents.
pub open spec fn rotation_snapshot(
    files: Seq<PassiveFile>,
    passives: Seq<PassiveFile>,
    lsn: u64,
    active: Seq<char>,
) -> bool {
    if active.len() == 0 {
        &&& files.len() == passives.len()
        &&& forall|j: int|
            0 <= j < passives.len() ==> (#[trigger] files[j]).serial == passives[j].serial
                && files[j].content@ == passives[j].content@
    } else {
        &&& files.len() == passives.len() + 1
        &&& (forall|j: int|
            0 <= j < passives.len() ==> (#[trigger] files[j]).serial == passives[j].serial
                && files[j].content@ == passives[j].content@)
        &&& files.last().serial as int == lsn as int + 1
        &&& files.last().content@ == active
    }
}

impl KvStore {
    /// The index mirrors the log and everything is well formed.
    spec fn inv(&self) -> bool {
        &&& self.log.wf()
        &&& self.index.wf()
        &&& self.index@ == ptrs_of(self.log.model())
    }

    /// The invariant, plus: the obsolete-record counter never passes the
    /// compaction threshold.
    pub closed spec fn wf(&self) -> bool {
        &&& self.inv()
        &&& self.unused_records <= RECORDS_LIMIT
    }

    /// The live key/value map this store holds.
    pub closed spec fn live(&self) -> Map<Seq<char>, Seq<char>> {
        self.log.live()
    }

    /// The log underneath.
    pub closed spec fn log(&self) -> Log {
        self.log
    }

    /// The obsolete-record counter.
    pub closed spec fn unused(&self) -> u64 {
        self.unused_records
    }

    /// The pending pre-compaction backups.
    pub closed spec fn backups(&self) -> Seq<Backup> {
        self.backups@
    }

    /// The directory where pre-compaction backups are recorded, if set.
    pub closed spec fn backups_dir(&self) -> Option<Seq<char>> {
        match self.backups_dir {
            Some(p) => Some(p@),
            None => None,
        }
    }

    /// The next obsolete record triggers a compaction: the counter stands at
    /// the limit, and the directory still has serial numbers to rotate into.
    pub open spec fn triggers_compaction(&self) -> bool {
        self.unused() == RECORDS_LIMIT && self.log().last_serial_number < u64::MAX
    }

    /// Open a `KvStore` over the files of a store directory.
    ///
    /// Succeeds exactly when every datafile among the entries parses; a
    /// malformed datafile reports `SerdeError`. On success the store's live
    /// map is the one denoted by replaying the datafiles.
    #[verifier::rlimit(100)]
    pub fn open(entries: &Vec<DirEntry>) -> (r: Result<KvStore>)
        requires
            serials_distinct(entries@),
            lone_active(entries@),
        ensures
            match r {
                Ok(s) => {
                    &&& s.wf()
                    &&& entries_parse(entries@)
                    &&& s.unused() == 0
                    &&& s.backups() == Seq::<Backup>::empty()
                    &&& s.backups_dir() == None::<Seq<char>>
                    &&& s.live() == s.log().live()
                    &&& s.log().wf()
                    &&& (s.log().passives@.len() == 0 ==> s.log().last_serial_number == 0)
                    &&& (s.log().passives@.len() > 0 ==> s.log().last_serial_number == s.log().passives@.last().serial)
                    &&& forall|i: int|
                        0 <= i < entries@.len() && is_active_name(#[trigger] entries@[i].name@)
                            ==> s.log().active@ == entries@[i].content@
                    &&& ((forall|i: int|
                        0 <= i < entries@.len() ==> !is_active_name(#[trigger] entries@[i].name@))
                        ==> s.log().active@ == Seq::<char>::empty())
                    &&& forall|i: int|
                        0 <= i < entries@.len() && passive_serial_of(#[trigger] entries@[i].name@)
                            is Some ==> exists|j: int|
                            0 <= j < s.log().passives@.len() && (
                            #[trigger] s.log().passives@[j]).serial as int == passive_serial_of(
                                entries@[i].name@,
                            )->0 && s.log().passives@[j].content@ == entries@[i].content@
                    &&& forall|j: int|
                        0 <= j < s.log().passives@.len() ==> exists|i: int|
                            0 <= i < entries@.len() && passive_serial_of(
                                #[trigger] entries@[i].name@,
                            ) == Some((#[trigger] s.log().passives@[j]).serial as int)
                                && entries@[i].content@ == s.log().passives@[j].content@
                },
                Err(e) => e == KvError::SerdeError && !entries_parse(entries@),
            },
    {
        let log = Log::open(entries);
        match log.index() {
            Ok(index) => {
                let s = KvStore {
                    index,
                    log,
                    unused_records: 0,
                    backups_dir: None,
                    backups: Vec::new(),
                };
                proof {
                    assert(s.backups() =~= Seq::<Backup>::empty());
                    assert forall|i: int|
                        0 <= i < entries@.len() && (is_active_name(#[trigger] entries@[i].name@)
                            || passive_serial_of(entries@[i].name@) is Some) implies file_wf(
                        entries@[i].content@,
                    ) by {
                        if is_active_name(entries@[i].name@) {
                            assert(s.log.active@ == entries@[i].content@);
                        } else {
                            let j = choose|j: int|
                                0 <= j < s.log.passives@.len() && (
                                #[trigger] s.log.passives@[j]).serial as int == passive_serial_of(
                                    entries@[i].name@,
                                )->0 && s.log.passives@[j].content@ == entries@[i].content@;
                            assert(file_wf(s.log.passives@[j].content@));
                        }
                    }
                }
                Ok(s)
            },
            Err(e) => {
                proof {
                    assert(!log.files_parse());
                    if file_wf(log.active@) {
                        let j = choose|j: int|
                            0 <= j < log.passives@.len() && !file_wf(
                                (#[trigger] log.passives@[j]).content@,
                            );
                        let i = choose|i: int|
                            0 <= i < entries@.len() && passive_serial_of(
                                #[trigger] entries@[i].name@,
                            ) == Some((log.passives@[j]).serial as int) && entries@[i].content@
                                == log.passives@[j].content@;
                        assert(!file_wf(entries@[i].content@));
                        assert(!entries_parse(entries@));
                    } else {
                        assert(file_wf(Seq::<char>::empty())) by {
                            assert(crate::log::file_records_from(Seq::<char>::empty(), 0)
                                == Some(Seq::<(int, RecordModel)>::empty()));
                        }
                        if forall|i: int|
                            0 <= i < entries@.len() ==> !is_active_name(
                                #[trigger] entries@[i].name@,
                            ) {
                            assert(log.active@ == Seq::<char>::empty());
                            assert(false);
                        } else {
                            let i = choose|i: int|
                                0 <= i < entries@.len() && is_active_name(
                                    #[trigger] entries@[i].name@,
                                );
                            assert(log.active@ == entries@[i].content@);
                            assert(!file_wf(entries@[i].content@));
                            assert(!entries_parse(entries@));
                        }
                    }
                }
                Err(e)
            },
        }
    }

    /// The store's live map is its log's live map.
    pub proof fn lemma_live_is_log_live(&self)
        ensures
            self.live() == self.log().live(),
    {
    }

    /// A well-formed store stands over a well-formed log.
    pub proof fn lemma_wf_log(&self)
        requires
            self.wf(),
        ensures
            self.log().wf(),
    {
    }

    /// Set the directory where pre-compaction backups are recorded: every
    /// compaction from here on snapshots the passive files first.
    pub fn set_backups_dir(&mut self, path: String)
        ensures
            final (self).backups_dir() == Some(path@),
            final (self).wf() == old(self).wf(),
            final (self).live() == old(self).live(),
            final (self).log() == old(self).log(),
            final (self).unused() == old(self).unused(),
            final (self).backups() == old(self).backups(),
    {
        self.backups_dir = Some(path);
    }

    /// Get the value of the given key; `None` when the key does not exist.
    pub fn get(&self, key: &String) -> (r: Result<Option<String>>)
        requires
            self.wf(),
        ensures
            match r {
                Ok(Some(v)) => self.live().contains_key(key@) && v@ == self.live()[key@],
                Ok(None) => !self.live().contains_key(key@),
                Err(_) => false,
            },
    {
        proof {
            lemma_model_valid(self.log);
        }
        match self.index.get(key) {
            None => {
                proof {
                    assert(!self.log.model().contains_key(key@));
                }
                Ok(None)
            },
            Some(ptr) => {
                proof {
                    assert(self.log.model().contains_key(key@));
                    assert(entry_valid(self.log, key@, self.log.model()[key@]));
                }
                let ghost e = self.log.model()[key@];
                match self.log.get_record(&ptr) {
                    Ok(rec) => {
                        proof {
                            assert(ptr == ptrs_of(self.log.model())[key@]);
                            assert(ptr.offset as int == e.offset);
                            assert(rec@ == RecordModel::Put { key: key@, value: e.value });
                        }
                        match rec {
                            Record::Put { key: _k, value } => Ok(Some(value)),
                            Record::Remove { .. } => {
                                proof {
                                    assert(false);
                                }
                                Err(KvError::UnexpectedCommand)
                            },
                        }
                    },
                    Err(e2) => {
                        proof {
                            assert(false);
                        }
                        Err(e2)
                    },
                }
            },
        }
    }

    /// Set the key to the value.
    ///
    /// Appends a `Put` record and updates the index. Overwriting an existing
    /// key leaves an obsolete record behind; when more than `RECORDS_LIMIT`
    /// records have become obsolete, the log is compacted and the counter
    /// resets. (Only a directory whose serial numbers are exhausted skips
    /// the compaction, since rotation could not proceed there.)
    pub fn set(&mut self, key: String, value: String) -> (r: Result<()>)
        requires
            old(self).wf(),
        ensures
            r is Ok,
            final (self).wf(),
            final (self).log().wf(),
            final (self).live() == old(self).live().insert(key@, value@),
            final (self).unused() == if old(self).live().contains_key(key@) {
                if old(self).unused() == RECORDS_LIMIT {
                    0
                } else {
                    (old(self).unused() + 1) as u64
                }
            } else {
                old(self).unused()
            },
            final (self).backups_dir() == old(self).backups_dir(),
            // the overwrite that crosses the threshold compacts the log
            (old(self).live().contains_key(key@) && old(self).triggers_compaction()) ==> {
                &&& compacted_state(final (self).log())
                &&& holds_exactly(final (self).log(), final (self).live())
                &&& (old(self).backups_dir() is None ==> final (self).backups() == old(
                    self,
                ).backups())
                &&& (old(self).backups_dir() is Some ==> exists|b: Backup|
                    rotation_snapshot(
                        b.files@,
                        old(self).log().passives@,
                        old(self).log().last_serial_number,
                        old(self).log().active@ + enc_rec(
                            RecordModel::Put { key: key@, value: value@ },
                        ),
                    ) && final (self).backups() == old(self).backups().push(b))
            },
            // any other set only appends one record to the active file
            !(old(self).live().contains_key(key@) && old(self).triggers_compaction()) ==> {
                &&& final (self).log().passives == old(self).log().passives
                &&& final (self).log().last_serial_number == old(self).log().last_serial_number
                &&& final (self).log().active@ == old(self).log().active@ + enc_rec(
                    RecordModel::Put { key: key@, value: value@ },
                )
                &&& final (self).backups() == old(self).backups()
            },
    {
        let ghost kv = key@;
        let ghost vv = value@;
        let rec = Record::Put { key: key.clone(), value };
        proof {
            assert(rec@ == (RecordModel::Put { key: kv, value: vv }));
        }
        let ptr = self.log.set_record(&rec);
        let ghost m1 = crate::log::apply_rec(
            old(self).log.model(),
            DataFile::Active,
            old(self).log.active@.len() as int,
            rec@,
        );
        let prev = self.index.insert(key, ptr);
        proof {
            assert(self.index@ =~= ptrs_of(m1));
            assert(self.live() =~= old(self).live().insert(kv, vv));
        }
        match prev {
            Some(_) => {
                proof {
                    assert(old(self).live().contains_key(kv));
                }
                self.unused_records = self.unused_records + 1;
                if self.unused_records > RECORDS_LIMIT {
                    if self.log.last_serial_number < u64::MAX {
                        let ghost s1 = *self;
                        let _c = self.compact_log();
                        proof {
                            assert(s1.log().passives@ == old(self).log().passives@);
                            assert(s1.log().active@ == old(self).log().active@ + enc_rec(
                                RecordModel::Put { key: kv, value: vv },
                            ));
                            assert(self.live() == s1.live());
                            assert(holds_exactly(self.log(), self.live()));
                            if old(self).backups_dir() is Some {
                                assert(s1.backups_dir() is Some);
                                let b = choose|b: Backup|
                                    rotation_snapshot(
                                        b.files@,
                                        s1.log().passives@,
                                        s1.log().last_serial_number,
                                        s1.log().active@,
                                    ) && self.backups() == s1.backups().push(b);
                                assert(rotation_snapshot(
                                    b.files@,
                                    old(self).log().passives@,
                                    old(self).log().last_serial_number,
                                    old(self).log().active@ + enc_rec(
                                        RecordModel::Put { key: kv, value: vv },
                                    ),
                                ));
                                assert(self.backups() == old(self).backups().push(b));
                            }
                        }
                    }
                    self.unused_records = 0;
                }
            },
            None => {
                proof {
                    assert(!old(self).live().contains_key(kv));
                }
            },
        }
        Ok(())
    }

    /// Remove the given key.
    ///
    /// A key that is absent is reported as `KeyNotFound` and nothing is
    /// appended to the log. Otherwise a `Remove` record is appended, the key
    /// leaves the index, and the obsolete-record counter advances, possibly
    /// triggering compaction as under `set`.
    pub fn remove(&mut self, key: String) -> (r: Result<()>)
        requires
            old(self).wf(),
        ensures
            final (self).wf(),
            final (self).log().wf(),
            final (self).backups_dir() == old(self).backups_dir(),
            match r {
                Ok(()) => {
                    &&& old(self).live().contains_key(key@)
                    &&& final (self).live() == old(self).live().remove(key@)
                    &&& final (self).unused() == if old(self).unused() == RECORDS_LIMIT {
                        0u64
                    } else {
                        (old(self).unused() + 1) as u64
                    }
                    &&& (old(self).triggers_compaction() ==> {
                        &&& compacted_state(final (self).log())
                        &&& holds_exactly(final (self).log(), final (self).live())
                        &&& (old(self).backups_dir() is None ==> final (self).backups() == old(
                            self,
                        ).backups())
                        &&& (old(self).backups_dir() is Some ==> exists|b: Backup|
                            rotation_snapshot(
                                b.files@,
                                old(self).log().passives@,
                                old(self).log().last_serial_number,
                                old(self).log().active@ + enc_rec(
                                    RecordModel::Remove { key: key@ },
                                ),
                            ) && final (self).backups() == old(self).backups().push(b))
                    })
                    &&& (!old(self).triggers_compaction() ==> {
                        &&& final (self).log().passives == old(self).log().passives
                        &&& final (self).log().last_serial_number == old(
                            self,
                        ).log().last_serial_number
                        &&& final (self).log().active@ == old(self).log().active@ + enc_rec(
                            RecordModel::Remove { key: key@ },
                        )
                        &&& final (self).backups() == old(self).backups()
                    })
                },
                Err(e) => {
                    &&& e == KvError::KeyNotFound
                    &&& !old(self).live().contains_key(key@)
                    &&& *final (self) == *old(self)
                },
            },
    {
        let present = match self.index.get(&key) {
            Some(_) => true,
            None => false,
        };
        if !present {
            proof {
                assert(!self.live().contains_key(key@));
            }
            return Err(KvError::KeyNotFound);
        }
        proof {
            assert(self.live().contains_key(key@));
        }
        let rec = Record::Remove { key: key.clone() };
        let ptr = self.log.set_record(&rec);
        let ghost m1 = crate::log::apply_rec(
            old(self).log.model(),
            DataFile::Active,
            old(self).log.active@.len() as int,
            rec@,
        );
        self.index.remove(&key);
        proof {
            assert(self.index@ =~= ptrs_of(m1));
            assert(self.live() =~= old(self).live().remove(key@));
        }
        self.unused_records = self.unused_records + 1;
        if self.unused_records > RECORDS_LIMIT {
            if self.log.last_serial_number < u64::MAX {
                let ghost s1 = *self;
                let _c = self.compact_log();
                proof {
                    assert(s1.log().passives@ == old(self).log().passives@);
                    assert(s1.log().active@ == old(self).log().active@ + enc_rec(
                        RecordModel::Remove { key: key@ },
                    ));
                    assert(self.live() == s1.live());
                    assert(holds_exactly(self.log(), self.live()));
                    if old(self).backups_dir() is Some {
                        assert(s1.backups_dir() is Some);
                        let b = choose|b: Backup|
                            rotation_snapshot(
                                b.files@,
                                s1.log().passives@,
                                s1.log().last_serial_number,
                                s1.log().active@,
                            ) && self.backups() == s1.backups().push(b);
                        assert(rotation_snapshot(
                            b.files@,
                            old(self).log().passives@,
                            old(self).log().last_serial_number,
                            old(self).log().active@ + enc_rec(RecordModel::Remove { key: key@ }),
                        ));
                        assert(self.backups() == old(self).backups().push(b));
                    }
                }
            }
            self.unused_records = 0;
        }
        Ok(())
    }

    /// Close the store: run a final compaction and reset the counter. The
    /// live map is unchanged. (Only a directory whose serial numbers are
    /// exhausted — the high-water mark stands at the largest representable
    /// number — is left uncompacted, since rotation could not proceed.)
    pub fn close(&mut self) -> (r: Result<()>)
        requires
            old(self).wf(),
        ensures
            r is Ok,
            final (self).wf(),
            final (self).log().wf(),
            final (self).live() == old(self).live(),
            final (self).unused() == 0,
            final (self).backups_dir() == old(self).backups_dir(),
            old(self).log().last_serial_number < u64::MAX ==> {
                &&& compacted_state(final (self).log())
                &&& holds_exactly(final (self).log(), old(self).live())
                &&& (old(self).backups_dir() is None ==> final (self).backups() == old(
                    self,
                ).backups())
                &&& (old(self).backups_dir() is Some ==> exists|b: Backup|
                    rotation_snapshot(
                        b.files@,
                        old(self).log().passives@,
                        old(self).log().last_serial_number,
                        old(self).log().active@,
                    ) && final (self).backups() == old(self).backups().push(b))
            },
            old(self).log().last_serial_number == u64::MAX ==> final (self).log() == old(
                self,
            ).log() && final (self).backups() == old(self).backups(),
    {
        if self.log.last_serial_number < u64::MAX {
            let _c = self.compact_log();
        }
        self.unused_records = 0;
        Ok(())
    }

    /// The directory contents this store stands for: the active file and the
    /// passive files under their canonical names.
    pub fn dir_entries(&self) -> (r: Vec<DirEntry>)
        requires
            self.wf(),
        ensures
            r@.len() == 1 + self.log().passives@.len(),
            r@[0].name@ == "log.active"@,
            r@[0].content@ == self.log().active@,
            forall|j: int|
                0 <= j < self.log().passives@.len() ==> (#[trigger] r@[j + 1].name@)
                    == passive_name(self.log().passives@[j].serial as int) && r@[j + 1].content@
                    == self.log().passives@[j].content@,
    {
        let mut r: Vec<DirEntry> = Vec::new();
        let active_name = String::from_str(ACTIVE_FILE_NAME);
        r.push(DirEntry { name: active_name, content: self.log.active.clone() });
        let count = self.log.passives.len();
        let mut j: usize = 0;
        while j < count
            invariant
                self.wf(),
                count == self.log.passives@.len(),
                0 <= j <= count,
                r@.len() == 1 + j,
                r@[0].name@ == "log.active"@,
                r@[0].content@ == self.log().active@,
                forall|t: int|
                    0 <= t < j ==> (#[trigger] r@[t + 1].name@) == passive_name(
                        self.log().passives@[t].serial as int,
                    ) && r@[t + 1].content@ == self.log().passives@[t].content@,
            decreases count - j,
        {
            let p = &self.log.passives[j];
            let name = self.log.passive_path(p.serial);
            r.push(DirEntry { name, content: p.content.clone() });
            j += 1;
        }
        r
    }

    /// Take the backups recorded so far, leaving none pending.
    pub fn take_backups(&mut self) -> (r: Vec<Backup>)
        ensures
            final (self).wf() == old(self).wf(),
            final (self).live() == old(self).live(),
            final (self).log() == old(self).log(),
            final (self).unused() == old(self).unused(),
            final (self).backups_dir() == old(self).backups_dir(),
            final (self).backups() == Seq::<Backup>::empty(),
            r@ == old(self).backups(),
    {
        let mut out: Vec<Backup> = Vec::new();
        core::mem::swap(&mut out, &mut self.backups);
        proof {
            assert(self.backups() =~= Seq::<Backup>::empty());
        }
        out
    }

    /// Compact the log: rotate the active file, collect the records the
    /// index still points at (the survivors), snapshot a backup when a
    /// backups directory is set, rewrite the survivors into fresh passive
    /// files, and rebuild the index.
    fn compact_log(&mut self) -> (r: Result<()>)
        requires
            old(self).inv(),
            old(self).log().last_serial_number < u64::MAX,
        ensures
            r is Ok,
            final (self).inv(),
            final (self).live() == old(self).live(),
            final (self).unused() == old(self).unused(),
            final (self).backups_dir() == old(self).backups_dir(),
            compacted_state(final (self).log()),
            holds_exactly(final (self).log(), old(self).live()),
            old(self).backups_dir() is None ==> final (self).backups() == old(self).backups(),
            old(self).backups_dir() is Some ==> exists|b: Backup|
                rotation_snapshot(
                    b.files@,
                    old(self).log().passives@,
                    old(self).log().last_serial_number,
                    old(self).log().active@,
                ) && final (self).backups() == old(self).backups().push(b),
    {
        self.log.dump();
        let n = self.log.last_serial_number;
        self.index.retarget_active(n);
        let ghost m2 = crate::log::retarget(old(self).log.model(), n);
        proof {
            assert(self.index@ =~= ptrs_of(m2));
        }
        if self.backups_dir.is_some() {
            let files = clone_passives(&self.log.passives);
            proof {
                if old(self).log().active@.len() == 0 {
                    assert(self.log == old(self).log());
                } else {
                    assert forall|j: int| 0 <= j < old(self).log().passives@.len() implies (
                    #[trigger] files@[j]).serial == old(self).log().passives@[j].serial
                        && files@[j].content@ == old(self).log().passives@[j].content@ by {
                        assert(self.log.passives@[j] == old(self).log().passives@[j]);
                    }
                    assert(files@.last().serial == self.log.passives@.last().serial);
                    assert(files@.last().content@ == self.log.passives@.last().content@);
                }
                assert(rotation_snapshot(
                    files@,
                    old(self).log().passives@,
                    old(self).log().last_serial_number,
                    old(self).log().active@,
                ));
            }
            self.backups.push(Backup { files });
        }
        let ghost bks: Seq<Backup> = self.backups@;
        proof {
            if old(self).backups_dir() is Some {
                assert(bks == old(self).backups().push(bks.last()));
                assert(rotation_snapshot(
                    bks.last().files@,
                    old(self).log().passives@,
                    old(self).log().last_serial_number,
                    old(self).log().active@,
                ));
            } else {
                assert(bks == old(self).backups());
            }
        }
        // collect the survivors: one record per live key
        proof {
            self.index.lemma_pairs();
            lemma_model_valid(self.log);
        }
        let ghost lg = self.log;
        let ghost pairs = self.index.pairs();
        let count = self.index.len();
        let mut survivors: Vec<Record> = Vec::new();
        let mut i: usize = 0;
        while i < count
            invariant
                self.log == lg,
                lg.wf(),
                self.index.wf(),
                self.index@ == ptrs_of(lg.model()),
                pairs == self.index.pairs(),
                model_valid(lg, lg.model()),
                count == pairs.len(),
                forall|t: int|
                    0 <= t < pairs.len() ==> self.index@.contains_key(#[trigger] pairs[t].0)
                        && self.index@[pairs[t].0] == pairs[t].1,
                forall|k: Seq<char>|
                    self.index@.contains_key(k) ==> exists|t: int|
                        0 <= t < pairs.len() && (#[trigger] pairs[t]).0 == k,
                forall|t: int, u: int| 0 <= t < u < pairs.len() ==> pairs[t].0 != pairs[u].0,
                0 <= i <= count,
                survivors@.len() == i,
                forall|t: int|
                    0 <= t < i ==> (#[trigger] survivors@[t])@ == (RecordModel::Put {
                        key: pairs[t].0,
                        value: lg.model()[pairs[t].0].value,
                    }),
            decreases count - i,
        {
            let (k, ptr) = self.index.pair_at(i);
            proof {
                assert(self.index@.contains_key(pairs[i as int].0));
                assert(lg.model().contains_key(k@));
                assert(entry_valid(lg, k@, lg.model()[k@]));
                assert(ptr == ptrs_of(lg.model())[k@]);
                assert(ptr.offset as int == lg.model()[k@].offset) by {
                    assert(0 <= lg.model()[k@].offset);
                    match crate::log::content_of(lg, lg.model()[k@].file) {
                        Some(c) => {
                            assert(lg.model()[k@].offset < c.len());
                        },
                        None => {},
                    }
                }
            }
            match self.log.get_record(&ptr) {
                Ok(rec) => {
                    proof {
                        assert(rec@ == (RecordModel::Put {
                            key: k@,
                            value: lg.model()[k@].value,
                        }));
                    }
                    survivors.push(rec);
                },
                Err(e) => {
                    proof {
                        assert(false);
                    }
                    return Err(e);
                },
            }
            i += 1;
        }
        proof {
            assert(all_puts(recs_view(survivors@))) by {
                assert forall|t: int| 0 <= t < recs_view(survivors@).len() implies (
                #[trigger] recs_view(survivors@)[t]) is Put by {
                    assert(recs_view(survivors@)[t] == survivors@[t]@);
                }
            }
            assert(distinct_keys(recs_view(survivors@))) by {
                assert forall|t: int, u: int|
                    0 <= t < u < recs_view(survivors@).len() implies key_of(
                    recs_view(survivors@)[t],
                ) != key_of(recs_view(survivors@)[u]) by {
                    assert(recs_view(survivors@)[t] == survivors@[t]@);
                    assert(recs_view(survivors@)[u] == survivors@[u]@);
                    assert(key_of(survivors@[t]@) == pairs[t].0);
                    assert(key_of(survivors@[u]@) == pairs[u].0);
                }
            }
        }
        let ghost lv = self.log.live();
        self.log.compact(&survivors);
        match self.log.index() {
            Ok(idx) => {
                self.index = idx;
            },
            Err(e) => {
                proof {
                    assert(false);
                }
                return Err(e);
            },
        }
        proof {
            let rv = recs_view(survivors@);
            // the active file was empty after the dump and compaction leaves
            // it alone, so the new state is exactly the rewritten passives
            assert(self.log.active@.len() == 0);
            assert(records_of(self.log.active@) =~= Seq::<(int, RecordModel)>::empty());
            assert(self.log.model() == self.log.passive_model());
            assert forall|k: Seq<char>| #[trigger]
                self.live().contains_key(k) implies lv.contains_key(k) && self.live()[k]
                == lv[k] by {
                assert(self.log.passive_model().contains_key(k));
                assert(exists|u: int|
                    0 <= u < survivors@.len() && key_of(#[trigger] rv[u]) == k);
                let t = choose|t: int| 0 <= t < rv.len() && key_of(#[trigger] rv[t]) == k;
                assert(rv[t] == survivors@[t]@);
                assert(pairs[t].0 == k);
                assert(lg.model().contains_key(k));
                assert(self.log.passive_model()[key_of(rv[t])].value == crate::log::value_of(
                    rv[t],
                ));
                assert(crate::log::value_of(rv[t]) == lg.model()[k].value);
            }
            assert forall|k: Seq<char>| #[trigger] lv.contains_key(k) implies
                self.live().contains_key(k) by {
                assert(lg.model().contains_key(k));
                assert(ptrs_of(lg.model()).contains_key(k));
                let t = choose|t: int| 0 <= t < pairs.len() && (#[trigger] pairs[t]).0 == k;
                assert(rv[t] == survivors@[t]@);
                assert(key_of(rv[t]) == k);
                assert(exists|u: int|
                    0 <= u < survivors@.len() && key_of(#[trigger] rv[u]) == k);
                assert(self.log.passive_model().contains_key(k));
            }
            assert(self.live() =~= lv);
            assert(lv =~= old(self).live());
            // the new passive files hold exactly one record per live key
            assert(enumerates_live(rv, old(self).live())) by {
                assert forall|t: int| 0 <= t < rv.len() implies old(self).live().contains_key(
                    key_of(#[trigger] rv[t]),
                ) && value_of(rv[t]) == old(self).live()[key_of(rv[t])] by {
                    assert(rv[t] == survivors@[t]@);
                    assert(self.index@.contains_key(pairs[t].0) || true);
                    assert(ptrs_of(lg.model()).contains_key(pairs[t].0));
                    assert(lg.model().contains_key(pairs[t].0));
                    assert(lv.contains_key(pairs[t].0));
                    assert(lv[pairs[t].0] == lg.model()[pairs[t].0].value);
                }
                assert forall|k: Seq<char>| old(self).live().contains_key(k) implies exists|t: int|
                    0 <= t < rv.len() && key_of(#[trigger] rv[t]) == k by {
                    assert(lv.contains_key(k));
                    assert(lg.model().contains_key(k));
                    assert(ptrs_of(lg.model()).contains_key(k));
                    let t = choose|t: int| 0 <= t < pairs.len() && (#[trigger] pairs[t]).0 == k;
                    assert(rv[t] == survivors@[t]@);
                    assert(key_of(rv[t]) == k);
                }
            }
            assert(total_passive_len(self.log.passives@) == total_enc_len(rv));
            assert(holds_exactly(self.log, old(self).live()));
            // the compacted shape
            assert(compacted_state(self.log));
            // the backups recorded
            assert(self.backups@ == bks);
        }
        Ok(())
    }
}

/// An exact copy of the passive files.
fn clone_passives(ps: &Vec<PassiveFile>) -> (r: Vec<PassiveFile>)
    ensures
        r@.len() == ps@.len(),
        forall|j: int|
            0 <= j < ps@.len() ==> (#[trigger] r@[j]).serial == ps@[j].serial && r@[j].content@
                == ps@[j].content@,
{
    let mut r: Vec<PassiveFile> = Vec::new();
    let count = ps.len();
    let mut j: usize = 0;
    while j < count
        invariant
            count == ps@.len(),
            0 <= j <= count,
            r@.len() == j,
            forall|t: int|
                0 <= t < j ==> (#[trigger] r@[t]).serial == ps@[t].serial && r@[t].content@
                    == ps@[t].content@,
        decreases count - j,
    {
        r.push(PassiveFile { serial: ps[j].serial, content: ps[j].content.clone() });
        j += 1;
    }
    r
}

} // verus!
