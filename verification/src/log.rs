//! The log: an abstraction over the persistent sequence of records.
//!
//! The log consists of datafiles holding records. There is one writable
//! *active* file and any number of read-only *passive* files, numbered by
//! strictly increasing serial numbers. New records are appended to the end
//! of the active file; rotation ("dump") turns the active file into a fresh
//! passive file; compaction replaces all passive files with new ones holding
//! only the records that are still live.
//!
//! Filesystem reads and writes live outside this crate: the log holds the
//! contents of each datafile, and the surrounding program mirrors them to
//! disk.

use vstd::prelude::*;
use vstd::string::StrSliceExecFns;
use vstd::string::StringExecFns;

use crate::error::KvError;
use crate::error::Result;
use crate::logpointer::DataFile;
use crate::logpointer::LogPointer;
use crate::record::enc_rec;
use crate::record::encode_record;
use crate::record::decode_record;
use crate::record::lemma_parse_rec_extend;
use crate::record::lemma_parse_rec_of_enc;
use crate::record::parse_rec;
use crate::record::Record;
use crate::record::RecordModel;

verus! {

/// A read-only datafile: its serial number and its full contents.
pub struct PassiveFile {
    pub serial: u64,
    pub content: String,
}

/// One file of a store directory, as handed in by the surrounding program:
/// its name and its full contents.
pub struct DirEntry {
    pub name: String,
    pub content: String,
}

/// The sequence of records held by a file's contents, each with the offset
/// at which it starts; `None` when the contents are not a well-formed
/// concatenation of records.
pub open spec fn file_records_from(s: Seq<char>, i: int) -> Option<Seq<(int, RecordModel)>>
    decreases s.len() - i,
{
    if i == s.len() {
        Some(Seq::empty())
    } else if !(0 <= i < s.len()) {
        None
    } else {
        match parse_rec(s, i) {
            Some((r, j)) => if i < j <= s.len() {
                match file_records_from(s, j) {
                    Some(rest) => Some(seq![(i, r)] + rest),
                    None => None,
                }
            } else {
                None
            },
            None => None,
        }
    }
}

/// The contents parse as a concatenation of records.
pub open spec fn file_wf(s: Seq<char>) -> bool {
    file_records_from(s, 0) is Some
}

/// The records of a well-formed file, with their offsets.
pub open spec fn records_of(s: Seq<char>) -> Seq<(int, RecordModel)> {
    match file_records_from(s, 0) {
        Some(r) => r,
        None => Seq::empty(),
    }
}

/// One entry of the semantic state: where the key's most recent `Put` record
/// lives, and the value it asserts.
pub struct EntryModel {
    pub file: DataFile,
    pub offset: int,
    pub value: Seq<char>,
}

/// Replaying one record over the semantic state.
pub open spec fn apply_rec(
    m: Map<Seq<char>, EntryModel>,
    f: DataFile,
    off: int,
    r: RecordModel,
) -> Map<Seq<char>, EntryModel> {
    match r {
        RecordModel::Put { key, value } => m.insert(key, EntryModel { file: f, offset: off, value }),
        RecordModel::Remove { key } => m.remove(key),
    }
}

/// Replaying a file's records in order.
pub open spec fn apply_recs(
    m: Map<Seq<char>, EntryModel>,
    f: DataFile,
    recs: Seq<(int, RecordModel)>,
) -> Map<Seq<char>, EntryModel>
    decreases recs.len(),
{
    if recs.len() == 0 {
        m
    } else {
        apply_recs(apply_rec(m, f, recs[0].0, recs[0].1), f, recs.drop_first())
    }
}

/// Replaying the passive files in sequence order.
pub open spec fn apply_passives(
    m: Map<Seq<char>, EntryModel>,
    ps: Seq<PassiveFile>,
) -> Map<Seq<char>, EntryModel>
    decreases ps.len(),
{
    if ps.len() == 0 {
        m
    } else {
        apply_passives(
            apply_recs(m, DataFile::Passive(ps[0].serial), records_of(ps[0].content@)),
            ps.drop_first(),
        )
    }
}

pub proof fn lemma_apply_recs_push(
    m: Map<Seq<char>, EntryModel>,
    f: DataFile,
    recs: Seq<(int, RecordModel)>,
    off: int,
    r: RecordModel,
)
    ensures
        apply_recs(m, f, recs.push((off, r))) == apply_rec(apply_recs(m, f, recs), f, off, r),
    decreases recs.len(),
{
    let p = recs.push((off, r));
    if recs.len() == 0 {
        assert(p.len() == 1);
        assert(p[0] == (off, r));
        assert(p.drop_first() =~= Seq::<(int, RecordModel)>::empty());
        assert(apply_recs(m, f, p) == apply_recs(apply_rec(m, f, off, r), f, p.drop_first()));
        assert(apply_recs(apply_rec(m, f, off, r), f, p.drop_first()) == apply_rec(m, f, off, r));
        assert(apply_recs(m, f, recs) == m);
    } else {
        assert(p.len() == recs.len() + 1);
        assert(p[0] == recs[0]);
        assert(p.drop_first() =~= recs.drop_first().push((off, r)));
        let m1 = apply_rec(m, f, recs[0].0, recs[0].1);
        lemma_apply_recs_push(m1, f, recs.drop_first(), off, r);
        assert(apply_recs(m, f, p) == apply_recs(m1, f, p.drop_first()));
        assert(apply_recs(m1, f, p.drop_first()) == apply_rec(
            apply_recs(m1, f, recs.drop_first()),
            f,
            off,
            r,
        ));
        assert(apply_recs(m, f, recs) == apply_recs(m1, f, recs.drop_first()));
    }
}

pub proof fn lemma_apply_passives_push(
    m: Map<Seq<char>, EntryModel>,
    ps: Seq<PassiveFile>,
    p: PassiveFile,
)
    ensures
        apply_passives(m, ps.push(p)) == apply_recs(
            apply_passives(m, ps),
            DataFile::Passive(p.serial),
            records_of(p.content@),
        ),
    decreases ps.len(),
{
    let q = ps.push(p);
    if ps.len() == 0 {
        assert(q.len() == 1);
        assert(q[0] == p);
        assert(q.drop_first() =~= Seq::<PassiveFile>::empty());
        let m1 = apply_recs(m, DataFile::Passive(p.serial), records_of(p.content@));
        assert(apply_passives(m, q) == apply_passives(m1, q.drop_first()));
        assert(apply_passives(m1, q.drop_first()) == m1);
        assert(apply_passives(m, ps) == m);
    } else {
        assert(q.len() == ps.len() + 1);
        assert(q[0] == ps[0]);
        assert(q.drop_first() =~= ps.drop_first().push(p));
        let m1 = apply_recs(m, DataFile::Passive(ps[0].serial), records_of(ps[0].content@));
        lemma_apply_passives_push(m1, ps.drop_first(), p);
        assert(apply_passives(m, q) == apply_passives(m1, q.drop_first()));
        assert(apply_passives(m1, q.drop_first()) == apply_recs(
            apply_passives(m1, ps.drop_first()),
            DataFile::Passive(p.serial),
            records_of(p.content@),
        ));
        assert(apply_passives(m, ps) == apply_passives(m1, ps.drop_first()));
    }
}

/// Appending one encoded record to a well-formed file appends one record to
/// its record sequence, at the old end of the file.
pub proof fn lemma_records_from_append(s: Seq<char>, r: RecordModel, i: int)
    requires
        0 <= i <= s.len(),
        file_records_from(s, i) is Some,
    ensures
        file_records_from(s + enc_rec(r), i) matches Some(x) && x == (match file_records_from(
            s,
            i,
        ) {
            Some(y) => y,
            None => Seq::empty(),
        }).push((s.len() as int, r)),
    decreases s.len() - i,
{
    let t = s + enc_rec(r);
    assert(enc_rec(r).len() >= 1) by {
        match r {
            RecordModel::Put { key, value } => {},
            RecordModel::Remove { key } => {},
        }
    }
    if i == s.len() {
        assert(t.subrange(i, i + enc_rec(r).len()) =~= enc_rec(r));
        lemma_parse_rec_of_enc(t, i, r);
        assert(file_records_from(t, t.len() as int) == Some(Seq::<(int, RecordModel)>::empty()));
        assert(file_records_from(t, i) matches Some(x) && x =~= Seq::empty().push((
            s.len() as int,
            r,
        )));
    } else {
        let (r0, j) = parse_rec(s, i)->0;
        lemma_parse_rec_extend(s, enc_rec(r), i);
        lemma_records_from_append(s, r, j);
        let y = file_records_from(s, i)->0;
        let rest = file_records_from(s, j)->0;
        assert(y == seq![(i, r0)] + rest);
        assert(file_records_from(t, i) matches Some(x) && x == seq![(i, r0)] + rest.push((
            s.len() as int,
            r,
        )));
        assert(seq![(i, r0)] + rest.push((s.len() as int, r)) =~= (seq![(i, r0)] + rest).push((
            s.len() as int,
            r,
        )));
    }
}

/// The pair `pr` records a parseable record of `s` at its offset.
pub open spec fn rec_at_ok(s: Seq<char>, pr: (int, RecordModel)) -> bool {
    &&& 0 <= pr.0 < s.len()
    &&& parse_rec(s, pr.0) is Some
    &&& (parse_rec(s, pr.0)->0).0 == pr.1
}

/// Every recorded (offset, record) pair of a well-formed file parses at its
/// offset to exactly that record.
pub proof fn lemma_records_parse(s: Seq<char>, i: int)
    requires
        0 <= i <= s.len(),
        file_records_from(s, i) is Some,
    ensures
        forall|j: int|
            0 <= j < (file_records_from(s, i)->0).len() ==> rec_at_ok(
                s,
                #[trigger] (file_records_from(s, i)->0)[j],
            ),
    decreases s.len() - i,
{
    if i < s.len() {
        let (r0, j0) = parse_rec(s, i)->0;
        lemma_records_parse(s, j0);
        let recs = file_records_from(s, i)->0;
        let rest = file_records_from(s, j0)->0;
        assert forall|j: int| 0 <= j < recs.len() implies rec_at_ok(s, #[trigger] recs[j]) by {
            if j > 0 {
                assert(recs[j] == rest[j - 1]);
            } else {
                assert(recs[0] == (i, r0));
            }
        }
    }
}

/// The log.
pub struct Log {
    /// Contents of the single writable datafile.
    pub active: String,
    /// The read-only datafiles, in ascending serial order.
    pub passives: Vec<PassiveFile>,
    /// The largest serial number ever allocated in this directory.
    pub last_serial_number: u64,
}

/// Index of the passive file carrying serial `n` (meaningful only when
/// `has_passive`).
pub open spec fn passive_at(log: Log, n: u64) -> int {
    choose|i: int| 0 <= i < log.passives@.len() && log.passives@[i].serial == n
}

/// The contents of the datafile `f` names, if it exists in the log.
pub open spec fn content_of(log: Log, f: DataFile) -> Option<Seq<char>> {
    match f {
        DataFile::Active => Some(log.active@),
        DataFile::Passive(n) => if log.has_passive(n) {
            Some(log.passives@[passive_at(log, n)].content@)
        } else {
            None
        },
    }
}

/// The entry's file exists and parsing it at the entry's offset yields the
/// `Put` record the entry stands for.
pub open spec fn entry_valid(log: Log, k: Seq<char>, e: EntryModel) -> bool {
    match content_of(log, e.file) {
        Some(c) => {
            &&& 0 <= e.offset < c.len()
            &&& parse_rec(c, e.offset) is Some
            &&& (parse_rec(c, e.offset)->0).0 == RecordModel::Put { key: k, value: e.value }
        },
        None => false,
    }
}

/// Every entry of `m` can be read back from the log.
pub open spec fn model_valid(log: Log, m: Map<Seq<char>, EntryModel>) -> bool {
    forall|k: Seq<char>| m.contains_key(k) ==> entry_valid(log, k, #[trigger] m[k])
}

/// The pointer half of the semantic state: what the in-memory index holds.
pub open spec fn ptrs_of(m: Map<Seq<char>, EntryModel>) -> Map<Seq<char>, LogPointer> {
    Map::new(
        |k: Seq<char>| m.contains_key(k),
        |k: Seq<char>| LogPointer { offset: m[k].offset as u64, file: m[k].file },
    )
}

/// Retargeting one entry after rotation: entries in the active file now live
/// in passive file `n`, at the same offset.
pub open spec fn retarget_entry(e: EntryModel, n: u64) -> EntryModel {
    if e.file == DataFile::Active {
        EntryModel { file: DataFile::Passive(n), offset: e.offset, value: e.value }
    } else {
        e
    }
}

/// Retargeting the whole state after rotation.
pub open spec fn retarget(m: Map<Seq<char>, EntryModel>, n: u64) -> Map<Seq<char>, EntryModel> {
    Map::new(|k: Seq<char>| m.contains_key(k), |k: Seq<char>| retarget_entry(m[k], n))
}

/// No entry of `m` points at the active file.
pub open spec fn no_active(m: Map<Seq<char>, EntryModel>) -> bool {
    forall|k: Seq<char>| m.contains_key(k) ==> (#[trigger] m[k]).file != DataFile::Active
}

pub proof fn lemma_retarget_no_active(m: Map<Seq<char>, EntryModel>, n: u64)
    requires
        no_active(m),
    ensures
        retarget(m, n) == m,
{
    assert(retarget(m, n) =~= m);
}

pub proof fn lemma_apply_recs_no_active(
    m: Map<Seq<char>, EntryModel>,
    f: DataFile,
    recs: Seq<(int, RecordModel)>,
)
    requires
        no_active(m),
        f != DataFile::Active,
    ensures
        no_active(apply_recs(m, f, recs)),
    decreases recs.len(),
{
    if recs.len() > 0 {
        assert(no_active(apply_rec(m, f, recs[0].0, recs[0].1)));
        lemma_apply_recs_no_active(apply_rec(m, f, recs[0].0, recs[0].1), f, recs.drop_first());
    }
}

pub proof fn lemma_apply_passives_no_active(m: Map<Seq<char>, EntryModel>, ps: Seq<PassiveFile>)
    requires
        no_active(m),
    ensures
        no_active(apply_passives(m, ps)),
    decreases ps.len(),
{
    if ps.len() > 0 {
        lemma_apply_recs_no_active(m, DataFile::Passive(ps[0].serial), records_of(ps[0].content@));
        lemma_apply_passives_no_active(
            apply_recs(m, DataFile::Passive(ps[0].serial), records_of(ps[0].content@)),
            ps.drop_first(),
        );
    }
}

/// Rotation commutes with replaying the active file: retargeting after the
/// replay equals replaying the same records against the new passive file.
pub proof fn lemma_retarget_apply(
    m: Map<Seq<char>, EntryModel>,
    recs: Seq<(int, RecordModel)>,
    n: u64,
)
    ensures
        retarget(apply_recs(m, DataFile::Active, recs), n) == apply_recs(
            retarget(m, n),
            DataFile::Passive(n),
            recs,
        ),
    decreases recs.len(),
{
    if recs.len() > 0 {
        assert(retarget(apply_rec(m, DataFile::Active, recs[0].0, recs[0].1), n) =~= apply_rec(
            retarget(m, n),
            DataFile::Passive(n),
            recs[0].0,
            recs[0].1,
        ));
        lemma_retarget_apply(apply_rec(m, DataFile::Active, recs[0].0, recs[0].1), recs.drop_first(), n);
    }
}

impl Log {
    /// Whether a passive file with serial `n` exists.
    pub open spec fn has_passive(self, n: u64) -> bool {
        exists|i: int| 0 <= i < self.passives@.len() && self.passives@[i].serial == n
    }

    /// Serial numbers are positive, at most the allocation high-water mark,
    /// and strictly increasing along the sequence.
    pub open spec fn wf_shape(self) -> bool {
        &&& forall|i: int|
            0 <= i < self.passives@.len() ==> 1 <= (#[trigger] self.passives@[i]).serial
                <= self.last_serial_number
        &&& forall|i: int, j: int|
            0 <= i < j < self.passives@.len() ==> self.passives@[i].serial
                < self.passives@[j].serial
    }

    /// Every datafile's contents parse as a concatenation of records.
    pub open spec fn files_parse(self) -> bool {
        &&& file_wf(self.active@)
        &&& forall|i: int|
            0 <= i < self.passives@.len() ==> file_wf((#[trigger] self.passives@[i]).content@)
    }

    /// Shape plus: every datafile's contents parse as records and fit in
    /// memory, so that every record offset fits in a location.
    pub open spec fn wf(self) -> bool {
        &&& self.wf_shape()
        &&& file_wf(self.active@)
        &&& self.active@.len() <= u64::MAX
        &&& forall|i: int|
            0 <= i < self.passives@.len() ==> file_wf((#[trigger] self.passives@[i]).content@)
        &&& forall|i: int|
            0 <= i < self.passives@.len() ==> (#[trigger] self.passives@[i]).content@.len()
                <= u64::MAX
    }

    /// The semantic state contributed by the passive files.
    pub open spec fn passive_model(self) -> Map<Seq<char>, EntryModel> {
        apply_passives(Map::empty(), self.passives@)
    }

    /// The semantic state of the whole log: passives replayed in ascending
    /// serial order, then the active file.
    pub open spec fn model(self) -> Map<Seq<char>, EntryModel> {
        apply_recs(self.passive_model(), DataFile::Active, records_of(self.active@))
    }

    /// The live key/value map the log denotes.
    pub open spec fn live(self) -> Map<Seq<char>, Seq<char>> {
        Map::new(
            |k: Seq<char>| self.model().contains_key(k),
            |k: Seq<char>| self.model()[k].value,
        )
    }

    /// Two passive files never share a serial number.
    pub proof fn lemma_serials_unique(self)
        requires
            self.wf_shape(),
        ensures
            forall|i: int, j: int|
                0 <= i < self.passives@.len() && 0 <= j < self.passives@.len()
                    && self.passives@[i].serial == self.passives@[j].serial ==> i == j,
    {
        assert forall|i: int, j: int|
            0 <= i < self.passives@.len() && 0 <= j < self.passives@.len()
                && self.passives@[i].serial == self.passives@[j].serial implies i == j by {
            if i < j {
                assert(self.passives@[i].serial < self.passives@[j].serial);
            } else if j < i {
                assert(self.passives@[j].serial < self.passives@[i].serial);
            }
        }
    }
}

proof fn lemma_apply_recs_valid(
    log: Log,
    m: Map<Seq<char>, EntryModel>,
    f: DataFile,
    s: Seq<char>,
    recs: Seq<(int, RecordModel)>,
)
    requires
        model_valid(log, m),
        content_of(log, f) == Some(s),
        forall|j: int| 0 <= j < recs.len() ==> rec_at_ok(s, #[trigger] recs[j]),
    ensures
        model_valid(log, apply_recs(m, f, recs)),
    decreases recs.len(),
{
    if recs.len() > 0 {
        let m2 = apply_rec(m, f, recs[0].0, recs[0].1);
        assert(model_valid(log, m2)) by {
            match recs[0].1 {
                RecordModel::Put { key, value } => {
                    assert(entry_valid(
                        log,
                        key,
                        EntryModel { file: f, offset: recs[0].0, value },
                    ));
                },
                RecordModel::Remove { key } => {},
            }
        }
        assert(forall|j: int| 0 <= j < recs.drop_first().len() ==> recs.drop_first()[j] == recs[j
            + 1]);
        lemma_apply_recs_valid(log, m2, f, s, recs.drop_first());
    }
}

proof fn lemma_apply_passives_valid(log: Log, m: Map<Seq<char>, EntryModel>, ps: Seq<PassiveFile>)
    requires
        log.wf(),
        model_valid(log, m),
        forall|i: int|
            0 <= i < ps.len() ==> exists|j: int|
                0 <= j < log.passives@.len() && log.passives@[j] == #[trigger] ps[i],
    ensures
        model_valid(log, apply_passives(m, ps)),
    decreases ps.len(),
{
    if ps.len() > 0 {
        let p = ps[0];
        let w = choose|j: int| 0 <= j < log.passives@.len() && log.passives@[j] == p;
        assert(log.has_passive(p.serial));
        log.lemma_serials_unique();
        let a = passive_at(log, p.serial);
        assert(log.passives@[a].serial == p.serial);
        assert(a == w);
        assert(content_of(log, DataFile::Passive(p.serial)) == Some(p.content@));
        assert(file_wf(p.content@));
        lemma_records_parse(p.content@, 0);
        lemma_apply_recs_valid(
            log,
            m,
            DataFile::Passive(p.serial),
            p.content@,
            records_of(p.content@),
        );
        assert(forall|i: int| 0 <= i < ps.drop_first().len() ==> ps.drop_first()[i] == ps[i + 1]);
        lemma_apply_passives_valid(
            log,
            apply_recs(m, DataFile::Passive(p.serial), records_of(p.content@)),
            ps.drop_first(),
        );
    }
}

/// Every entry of a well-formed log's semantic state can be read back from
/// the log's files.
pub proof fn lemma_model_valid(log: Log)
    requires
        log.wf(),
    ensures
        model_valid(log, log.model()),
{
    lemma_apply_passives_valid(log, Map::empty(), log.passives@);
    lemma_records_parse(log.active@, 0);
    lemma_apply_recs_valid(
        log,
        log.passive_model(),
        DataFile::Active,
        log.active@,
        records_of(log.active@),
    );
}

impl Log {
    /// Append one record to the active datafile; returns the location where
    /// it was written.
    pub fn set_record(&mut self, record: &Record) -> (r: LogPointer)
        requires
            old(self).wf(),
        ensures
            final (self).wf(),
            final (self).passives == old(self).passives,
            final (self).last_serial_number == old(self).last_serial_number,
            final (self).active@ == old(self).active@ + enc_rec(record@),
            r == (LogPointer { offset: old(self).active@.len() as u64, file: DataFile::Active }),
            final (self).model() == apply_rec(
                old(self).model(),
                DataFile::Active,
                old(self).active@.len() as int,
                record@,
            ),
    {
        let pos = self.active.as_str().unicode_len();
        let enc = encode_record(record);
        self.active.append(enc.as_str());
        let _new_len: usize = string_len(&self.active);
        proof {
            assert(self.active@.len() <= usize::MAX);
            assert(usize::MAX <= u64::MAX);
            lemma_records_from_append(old(self).active@, record@, 0);
            lemma_apply_recs_push(
                self.passive_model(),
                DataFile::Active,
                records_of(old(self).active@),
                old(self).active@.len() as int,
                record@,
            );
            assert(self.passive_model() == old(self).passive_model());
        }
        LogPointer { offset: pos as u64, file: DataFile::Active }
    }

    /// Read the record a location points at.
    ///
    /// Fails with `StorageFileError` when the location names a passive file
    /// that no longer exists, and with `SerdeError` when no record parses at
    /// the location's offset.
    pub fn get_record(&self, ptr: &LogPointer) -> (r: Result<Record>)
        requires
            self.wf_shape(),
        ensures
            match r {
                Ok(rec) => {
                    &&& content_of(*self, ptr.file) is Some
                    &&& parse_rec(content_of(*self, ptr.file)->0, ptr.offset as int) is Some
                    &&& (parse_rec(content_of(*self, ptr.file)->0, ptr.offset as int)->0).0 == rec@
                },
                Err(KvError::StorageFileError) => content_of(*self, ptr.file) is None,
                Err(KvError::SerdeError) => {
                    &&& content_of(*self, ptr.file) is Some
                    &&& parse_rec(content_of(*self, ptr.file)->0, ptr.offset as int) is None
                },
                Err(_) => false,
            },
    {
        match ptr.file {
            DataFile::Active => {
                read_record_at(&self.active, ptr.offset)
            },
            DataFile::Passive(n) => {
                let count = self.passives.len();
                let mut i: usize = 0;
                while i < count
                    invariant
                        self.wf_shape(),
                        ptr.file == DataFile::Passive(n),
                        count == self.passives@.len(),
                        0 <= i <= count,
                        forall|j: int| 0 <= j < i ==> self.passives@[j].serial != n,
                    decreases count - i,
                {
                    if self.passives[i].serial == n {
                        let r = read_record_at(&self.passives[i].content, ptr.offset);
                        proof {
                            assert(self.has_passive(n));
                            self.lemma_serials_unique();
                            let a = passive_at(*self, n);
                            assert(self.passives@[a].serial == n);
                            assert(a == i as int);
                        }
                        return r;
                    }
                    i += 1;
                }
                proof {
                    assert(!self.has_passive(n));
                }
                Err(KvError::StorageFileError)
            },
        }
    }
}

/// The file name of the passive datafile with the given serial number.
pub open spec fn passive_name(n: int) -> Seq<char> {
    crate::text::dec_rep(n as nat) + ".passive"@
}

/// The serial number a file name carries when it names a passive datafile:
/// one or more digits denoting a positive number that fits in `u64`, then
/// the `.passive` extension.
pub open spec fn passive_serial_of(name: Seq<char>) -> Option<int> {
    if name.len() > 8 && name.subrange(name.len() - 8, name.len() as int) == ".passive"@ {
        let stem = name.subrange(0, name.len() - 8);
        if stem.len() > 0 && crate::text::all_digits(stem) && 1 <= crate::text::digits_value(stem)
            <= u64::MAX {
            Some(crate::text::digits_value(stem))
        } else {
            None
        }
    } else {
        None
    }
}

/// Total length of the passive files' contents.
pub open spec fn total_passive_len(ps: Seq<PassiveFile>) -> int
    decreases ps.len(),
{
    if ps.len() == 0 {
        0
    } else {
        total_passive_len(ps.drop_last()) + ps.last().content@.len()
    }
}

/// Total length of the encodings of a sequence of records.
pub open spec fn total_enc_len(rs: Seq<RecordModel>) -> int
    decreases rs.len(),
{
    if rs.len() == 0 {
        0
    } else {
        total_enc_len(rs.drop_last()) + enc_rec(rs.last()).len()
    }
}

pub proof fn lemma_total_enc_len_concat(a: Seq<RecordModel>, b: Seq<RecordModel>)
    ensures
        total_enc_len(a + b) == total_enc_len(a) + total_enc_len(b),
    decreases b.len(),
{
    if b.len() == 0 {
        assert(a + b =~= a);
    } else {
        assert((a + b).drop_last() =~= a + b.drop_last());
        assert((a + b).last() == b.last());
        lemma_total_enc_len_concat(a, b.drop_last());
    }
}

/// Compaction shrinks the log: `compact` leaves the passive files holding
/// exactly the survivors' encodings (`total_passive_len` equals
/// `total_enc_len` of the survivors), and by this law that total is at most
/// the number of live records times the largest encoded record size.
pub proof fn lemma_total_enc_len_bound(rs: Seq<RecordModel>, max: int)
    requires
        forall|i: int| 0 <= i < rs.len() ==> enc_rec(#[trigger] rs[i]).len() <= max,
    ensures
        total_enc_len(rs) <= rs.len() * max,
    decreases rs.len(),
{
    if rs.len() > 0 {
        assert(forall|i: int| 0 <= i < rs.drop_last().len() ==> rs.drop_last()[i] == rs[i]);
        lemma_total_enc_len_bound(rs.drop_last(), max);
        assert((rs.len() - 1) * max + max == rs.len() * max) by (nonlinear_arith);
        assert(enc_rec(rs.last()).len() <= max);
    }
}

/// The views of a sequence of records.
pub open spec fn recs_view(rs: Seq<Record>) -> Seq<RecordModel> {
    rs.map_values(|r: Record| r@)
}

/// The key a record speaks of.
pub open spec fn key_of(r: RecordModel) -> Seq<char> {
    match r {
        RecordModel::Put { key, value } => key,
        RecordModel::Remove { key } => key,
    }
}

/// The value a `Put` record asserts.
pub open spec fn value_of(r: RecordModel) -> Seq<char> {
    match r {
        RecordModel::Put { key, value } => value,
        RecordModel::Remove { key } => Seq::empty(),
    }
}

/// All records are `Put` records.
pub open spec fn all_puts(rs: Seq<RecordModel>) -> bool {
    forall|i: int| 0 <= i < rs.len() ==> (#[trigger] rs[i]) is Put
}

/// No two records speak of the same key.
pub open spec fn distinct_keys(rs: Seq<RecordModel>) -> bool {
    forall|i: int, j: int| 0 <= i < j < rs.len() ==> key_of(rs[i]) != key_of(rs[j])
}

/// Replaying `Put` records adds exactly their keys.
pub proof fn lemma_apply_puts_keys(
    m: Map<Seq<char>, EntryModel>,
    f: DataFile,
    recs: Seq<(int, RecordModel)>,
)
    requires
        forall|t: int| 0 <= t < recs.len() ==> (#[trigger] recs[t]).1 is Put,
    ensures
        forall|k: Seq<char>|
            #![trigger apply_recs(m, f, recs).contains_key(k)]
            apply_recs(m, f, recs).contains_key(k) <==> (m.contains_key(k) || exists|t: int|
                0 <= t < recs.len() && key_of((#[trigger] recs[t]).1) == k),
    decreases recs.len(),
{
    if recs.len() > 0 {
        let m1 = apply_rec(m, f, recs[0].0, recs[0].1);
        let rest = recs.drop_first();
        assert(forall|t: int| 0 <= t < rest.len() ==> rest[t] == recs[t + 1]);
        lemma_apply_puts_keys(m1, f, rest);
        let k0 = key_of(recs[0].1);
        assert(m1.contains_key(k0));
        assert forall|k: Seq<char>| apply_recs(m, f, recs).contains_key(k) implies (
        m.contains_key(k) || exists|t: int|
            0 <= t < recs.len() && key_of((#[trigger] recs[t]).1) == k) by {
            assert(apply_recs(m, f, recs) == apply_recs(m1, f, rest));
            if !m.contains_key(k) {
                assert(apply_recs(m1, f, rest).contains_key(k));
                if m1.contains_key(k) {
                    assert(k == k0);
                    assert(key_of(recs[0].1) == k);
                } else {
                    let t = choose|t: int|
                        0 <= t < rest.len() && key_of((#[trigger] rest[t]).1) == k;
                    assert(rest[t] == recs[t + 1]);
                    assert(key_of(recs[t + 1].1) == k);
                }
            }
        }
        assert forall|k: Seq<char>|
            (m.contains_key(k) || exists|t: int|
                0 <= t < recs.len() && key_of((#[trigger] recs[t]).1) == k) implies apply_recs(
            m,
            f,
            recs,
        ).contains_key(k) by {
            if m.contains_key(k) || k == k0 {
                assert(m1.contains_key(k));
            } else {
                let t = choose|t: int| 0 <= t < recs.len() && key_of((#[trigger] recs[t]).1) == k;
                assert(t > 0);
                assert(rest[t - 1] == recs[t]);
                assert(key_of(rest[t - 1].1) == k);
                assert(exists|u: int| 0 <= u < rest.len() && key_of((#[trigger] rest[u]).1) == k);
            }
            assert(apply_recs(m1, f, rest).contains_key(k));
            assert(apply_recs(m, f, recs) == apply_recs(m1, f, rest));
        }
    }
}

/// With pairwise distinct keys, replaying `Put` records assigns each key its
/// record's value.
pub proof fn lemma_apply_puts_values(
    m: Map<Seq<char>, EntryModel>,
    f: DataFile,
    recs: Seq<(int, RecordModel)>,
)
    requires
        forall|t: int| 0 <= t < recs.len() ==> (#[trigger] recs[t]).1 is Put,
        forall|t: int, u: int|
            0 <= t < u < recs.len() ==> key_of(recs[t].1) != key_of(recs[u].1),
    ensures
        forall|t: int|
            0 <= t < recs.len() ==> apply_recs(m, f, recs)[key_of(
                (#[trigger] recs[t]).1,
            )].value == value_of(recs[t].1),
    decreases recs.len(),
{
    if recs.len() > 0 {
        let m1 = apply_rec(m, f, recs[0].0, recs[0].1);
        let rest = recs.drop_first();
        assert(forall|t: int| 0 <= t < rest.len() ==> rest[t] == recs[t + 1]);
        lemma_apply_puts_values(m1, f, rest);
        let k0 = key_of(recs[0].1);
        assert forall|t: int| 0 <= t < recs.len() implies apply_recs(m, f, recs)[key_of(
            (#[trigger] recs[t]).1,
        )].value == value_of(recs[t].1) by {
            if t == 0 {
                assert(m1[k0].value == value_of(recs[0].1));
                assert(forall|u: int|
                    0 <= u < rest.len() ==> key_of((#[trigger] rest[u]).1) != k0);
                lemma_apply_puts_frame(m1, f, rest, k0);
            } else {
                assert(rest[t - 1] == recs[t]);
            }
        }
    }
}

/// Replaying records that never speak of `k` leaves `k`'s entry alone.
pub proof fn lemma_apply_puts_frame(
    m: Map<Seq<char>, EntryModel>,
    f: DataFile,
    recs: Seq<(int, RecordModel)>,
    k: Seq<char>,
)
    requires
        forall|t: int| 0 <= t < recs.len() ==> key_of((#[trigger] recs[t]).1) != k,
    ensures
        apply_recs(m, f, recs).contains_key(k) == m.contains_key(k),
        m.contains_key(k) ==> apply_recs(m, f, recs)[k] == m[k],
    decreases recs.len(),
{
    if recs.len() > 0 {
        let m1 = apply_rec(m, f, recs[0].0, recs[0].1);
        let rest = recs.drop_first();
        assert(forall|t: int| 0 <= t < rest.len() ==> rest[t] == recs[t + 1]);
        assert(m1.contains_key(k) == m.contains_key(k));
        lemma_apply_puts_frame(m1, f, rest, k);
    }
}

/// Whether a file name is the well-known active file name.
pub open spec fn is_active_name(name: Seq<char>) -> bool {
    name == "log.active"@
}

/// The active file's name never classifies as a passive file's.
pub proof fn lemma_active_not_passive(nm: Seq<char>)
    requires
        is_active_name(nm),
    ensures
        passive_serial_of(nm) is None,
{
    reveal_strlit("log.active");
    reveal_strlit(".passive");
    assert(nm.len() == 10);
    assert(nm.subrange(2, 10)[0] == 'g');
    assert(".passive"@[0] == '.');
    assert(nm.subrange(2, 10) != ".passive"@);
}

/// Passive serial numbers are pairwise distinct among the entries.
pub open spec fn serials_distinct(es: Seq<DirEntry>) -> bool {
    forall|i: int, j: int|
        0 <= i < j < es.len() ==> (passive_serial_of(#[trigger] es[i].name@) is None
            || passive_serial_of(es[i].name@) != passive_serial_of(#[trigger] es[j].name@))
}

/// At most one entry carries the active file's name.
pub open spec fn lone_active(es: Seq<DirEntry>) -> bool {
    forall|i: int, j: int|
        0 <= i < j < es.len() ==> !(is_active_name(#[trigger] es[i].name@) && is_active_name(
            #[trigger] es[j].name@,
        ))
}

/// Classify a file name: `Some(n)` when it names passive file `n`.
fn passive_serial(name: &String) -> (r: Option<u64>)
    ensures
        match r {
            Some(n) => passive_serial_of(name@) == Some(n as int),
            None => passive_serial_of(name@) is None,
        },
{
    let len = name.as_str().unicode_len();
    if len < 9 {
        return None;
    }
    let suffix = name.as_str().substring_char(len - 8, len);
    if !crate::text::str_eq(suffix, ".passive") {
        return None;
    }
    match crate::utils::parse_digit_range(name.as_str(), len - 8) {
        Some(n) => if n >= 1 {
            Some(n)
        } else {
            None
        },
        None => None,
    }
}

/// Insert a passive file into a sorted sequence, keeping it sorted.
fn insert_sorted(v: &mut Vec<PassiveFile>, pf: PassiveFile)
    requires
        forall|a: int, b: int|
            0 <= a < b < old(v)@.len() ==> old(v)@[a].serial < old(v)@[b].serial,
        forall|j: int| 0 <= j < old(v)@.len() ==> (#[trigger] old(v)@[j]).serial != pf.serial,
    ensures
        final (v)@.len() == old(v)@.len() + 1,
        forall|a: int, b: int|
            0 <= a < b < final (v)@.len() ==> final (v)@[a].serial < final (v)@[b].serial,
        exists|j: int| 0 <= j < final (v)@.len() && #[trigger] final (v)@[j] == pf,
        forall|j: int|
            0 <= j < old(v)@.len() ==> exists|j2: int|
                0 <= j2 < final (v)@.len() && #[trigger] final (v)@[j2] == #[trigger] old(v)@[j],
        forall|j2: int|
            0 <= j2 < final (v)@.len() ==> final (v)@[j2] == pf || exists|j: int|
                0 <= j < old(v)@.len() && #[trigger] old(v)@[j] == #[trigger] final (v)@[j2],
{
    let len = v.len();
    let mut p: usize = 0;
    while p < len && v[p].serial < pf.serial
        invariant
            len == v@.len(),
            v == old(v),
            0 <= p <= len,
            forall|a: int| 0 <= a < p ==> (#[trigger] v@[a]).serial < pf.serial,
        decreases len - p,
    {
        p += 1;
    }
    proof {
        if p < len {
            assert(v@[p as int].serial >= pf.serial);
            assert(v@[p as int].serial != pf.serial);
        }
    }
    v.insert(p, pf);
    proof {
        let nv = v@;
        let ov = old(v)@;
        assert(nv == ov.insert(p as int, pf));
        assert(nv[p as int] == pf);
        assert(forall|a: int| 0 <= a < p ==> nv[a] == ov[a]);
        assert(forall|a: int| p < a < nv.len() ==> nv[a] == ov[a - 1]);
        assert forall|a: int, b: int| 0 <= a < b < nv.len() implies nv[a].serial
            < nv[b].serial by {
            if a < p && b > p {
                assert(ov[a].serial < ov[b - 1].serial || a == b - 1);
            }
        }
        assert forall|j: int| 0 <= j < ov.len() implies exists|j2: int|
            0 <= j2 < nv.len() && #[trigger] nv[j2] == #[trigger] ov[j] by {
            if j < p {
                assert(nv[j] == ov[j]);
            } else {
                assert(nv[j + 1] == ov[j]);
            }
        }
        assert forall|j2: int| 0 <= j2 < nv.len() implies nv[j2] == pf || exists|j: int|
            0 <= j < ov.len() && #[trigger] ov[j] == #[trigger] nv[j2] by {
            if j2 < p {
                assert(ov[j2] == nv[j2]);
            } else if j2 > p {
                assert(ov[j2 - 1] == nv[j2]);
            }
        }
    }
}

impl Log {
    /// The file name of the passive datafile with the given serial number.
    pub fn passive_path(&self, serial_number: u64) -> (r: String)
        ensures
            r@ == passive_name(serial_number as int),
    {
        let mut s = crate::text::u64_to_dec(serial_number);
        s.append(".passive");
        s
    }

    /// Open a log over the files of a store directory.
    ///
    /// The entry with the well-known active name becomes the active file
    /// (absent, the active file starts empty); entries named like passive
    /// files become the passive files, in ascending serial order; all other
    /// entries are ignored. The high-water serial number is the largest
    /// serial present, or zero.
    #[verifier::rlimit(100)]
    pub fn open(entries: &Vec<DirEntry>) -> (log: Log)
        requires
            serials_distinct(entries@),
            lone_active(entries@),
        ensures
            log.wf_shape(),
            forall|i: int|
                0 <= i < entries@.len() && is_active_name(#[trigger] entries@[i].name@)
                    ==> log.active@ == entries@[i].content@,
            (forall|i: int|
                0 <= i < entries@.len() ==> !is_active_name(#[trigger] entries@[i].name@))
                ==> log.active@ == Seq::<char>::empty(),
            forall|i: int|
                0 <= i < entries@.len() && passive_serial_of(#[trigger] entries@[i].name@)
                    is Some ==> exists|j: int|
                    0 <= j < log.passives@.len() && (#[trigger] log.passives@[j]).serial as int
                        == passive_serial_of(entries@[i].name@)->0 && log.passives@[j].content@
                        == entries@[i].content@,
            forall|j: int|
                0 <= j < log.passives@.len() ==> exists|i: int|
                    0 <= i < entries@.len() && passive_serial_of(#[trigger] entries@[i].name@)
                        == Some((#[trigger] log.passives@[j]).serial as int)
                        && entries@[i].content@ == log.passives@[j].content@,
            log.passives@.len() == 0 ==> log.last_serial_number == 0,
            log.passives@.len() > 0 ==> log.last_serial_number == log.passives@.last().serial,
    {
        let mut active = String::new();
        let mut passives: Vec<PassiveFile> = Vec::new();
        let n = entries.len();
        let mut i: usize = 0;
        while i < n
            invariant
                n == entries@.len(),
                0 <= i <= n,
                serials_distinct(entries@),
                lone_active(entries@),
                forall|a: int, b: int|
                    0 <= a < b < passives@.len() ==> passives@[a].serial < passives@[b].serial,
                forall|a: int|
                    0 <= a < i && is_active_name(#[trigger] entries@[a].name@) ==> active@
                        == entries@[a].content@,
                (forall|a: int| 0 <= a < i ==> !is_active_name(#[trigger] entries@[a].name@))
                    ==> active@ == Seq::<char>::empty(),
                forall|a: int|
                    0 <= a < i && passive_serial_of(#[trigger] entries@[a].name@) is Some
                        ==> exists|j: int|
                        0 <= j < passives@.len() && (#[trigger] passives@[j]).serial as int
                            == passive_serial_of(entries@[a].name@)->0 && passives@[j].content@
                            == entries@[a].content@,
                forall|j: int|
                    0 <= j < passives@.len() ==> exists|a: int|
                        0 <= a < i && passive_serial_of(#[trigger] entries@[a].name@) == Some(
                            (#[trigger] passives@[j]).serial as int,
                        ) && entries@[a].content@ == passives@[j].content@,
            decreases n - i,
        {
            let name = &entries[i].name;
            if crate::text::str_eq(name.as_str(), crate::utils::ACTIVE_FILE_NAME) {
                active = entries[i].content.clone();
                proof {
                    lemma_active_not_passive(name@);
                    assert forall|a: int|
                        0 <= a < i + 1 && is_active_name(
                            #[trigger] entries@[a].name@,
                        ) implies active@ == entries@[a].content@ by {
                        if a < i {
                            assert(!(is_active_name(entries@[a].name@) && is_active_name(
                                entries@[i as int].name@,
                            )));
                        }
                    }
                }
            } else {
                match passive_serial(name) {
                    Some(s) => {
                        let pf = PassiveFile { serial: s, content: entries[i].content.clone() };
                        proof {
                            assert forall|j: int| 0 <= j < passives@.len() implies (
                            #[trigger] passives@[j]).serial != pf.serial by {
                                if passives@[j].serial == pf.serial {
                                    let a = choose|a: int|
                                        0 <= a < i && passive_serial_of(
                                            #[trigger] entries@[a].name@,
                                        ) == Some(passives@[j].serial as int)
                                            && entries@[a].content@ == passives@[j].content@;
                                    assert(passive_serial_of(entries@[a].name@)
                                        == passive_serial_of(entries@[i as int].name@));
                                    assert(false);
                                }
                            }
                        }
                        let ghost oldp = passives@;
                        insert_sorted(&mut passives, pf);
                        proof {
                            assert forall|a: int|
                                0 <= a < i + 1 && passive_serial_of(
                                    #[trigger] entries@[a].name@,
                                ) is Some implies exists|j: int|
                                0 <= j < passives@.len() && (#[trigger] passives@[j]).serial as int
                                    == passive_serial_of(entries@[a].name@)->0
                                    && passives@[j].content@ == entries@[a].content@ by {
                                if a == i {
                                    let j2 = choose|j2: int|
                                        0 <= j2 < passives@.len() && #[trigger] passives@[j2]
                                            == pf;
                                    assert(passives@[j2].serial as int == passive_serial_of(
                                        entries@[a].name@,
                                    )->0);
                                } else {
                                    let j = choose|j: int|
                                        0 <= j < oldp.len() && (#[trigger] oldp[j]).serial as int
                                            == passive_serial_of(entries@[a].name@)->0
                                            && oldp[j].content@ == entries@[a].content@;
                                    let j2 = choose|j2: int|
                                        0 <= j2 < passives@.len() && #[trigger] passives@[j2]
                                            == oldp[j];
                                    assert(passives@[j2].serial as int == passive_serial_of(
                                        entries@[a].name@,
                                    )->0);
                                }
                            }
                            assert forall|j2: int| 0 <= j2 < passives@.len() implies exists|a: int|
                                0 <= a < i + 1 && passive_serial_of(#[trigger] entries@[a].name@)
                                    == Some((#[trigger] passives@[j2]).serial as int)
                                    && entries@[a].content@ == passives@[j2].content@ by {
                                if passives@[j2] == pf {
                                    assert(passive_serial_of(entries@[i as int].name@) == Some(
                                        pf.serial as int,
                                    ));
                                } else {
                                    let j = choose|j: int|
                                        0 <= j < oldp.len() && #[trigger] oldp[j]
                                            == passives@[j2];
                                    let a = choose|a: int|
                                        0 <= a < i && passive_serial_of(
                                            #[trigger] entries@[a].name@,
                                        ) == Some(oldp[j].serial as int) && entries@[a].content@
                                            == oldp[j].content@;
                                    assert(passive_serial_of(entries@[a].name@) == Some(
                                        passives@[j2].serial as int,
                                    ));
                                }
                            }
                        }
                    },
                    None => {},
                }
            }
            i += 1;
        }
        let count = passives.len();
        let last_serial_number: u64;
        if count == 0 {
            last_serial_number = 0;
        } else {
            last_serial_number = passives[count - 1].serial;
        }
        let log = Log { active, passives, last_serial_number };
        proof {
            assert forall|j: int| 0 <= j < log.passives@.len() implies 1 <= (
            #[trigger] log.passives@[j]).serial <= log.last_serial_number by {
                let a = choose|a: int|
                    0 <= a < entries@.len() && passive_serial_of(#[trigger] entries@[a].name@)
                        == Some(log.passives@[j].serial as int) && entries@[a].content@
                        == log.passives@[j].content@;
                assert(1 <= log.passives@[j].serial);
                if j < log.passives@.len() - 1 {
                    assert(log.passives@[j].serial < log.passives@[log.passives@.len()
                        - 1].serial);
                }
            }
        }
        log
    }
}

impl Log {
    /// Dump the active datafile: move its contents into a fresh passive file
    /// with the next serial number and start a new, empty active file. An
    /// empty active file is left untouched and no serial number is spent.
    ///
    /// Every location that referred to the active file must afterwards be
    /// retargeted to the new passive file; the returned state says exactly
    /// that: the new state is the old one with active entries retargeted to
    /// the current high-water serial number.
    pub fn dump(&mut self)
        requires
            old(self).wf(),
            old(self).last_serial_number < u64::MAX,
        ensures
            final (self).wf(),
            final (self).active@.len() == 0,
            final (self).model() == retarget(old(self).model(), final (self).last_serial_number),
            final (self).live() == old(self).live(),
            // an empty active file is left untouched: no serial number is spent
            old(self).active@.len() == 0 ==> *final (self) == *old(self),
            // otherwise the active bytes become passive file n+1, exactly
            old(self).active@.len() > 0 ==> {
                &&& final (self).last_serial_number == old(self).last_serial_number + 1
                &&& final (self).passives@.len() == old(self).passives@.len() + 1
                &&& (forall|j: int|
                    0 <= j < old(self).passives@.len() ==> final (self).passives@[j] == old(
                        self,
                    ).passives@[j])
                &&& final (self).passives@.last().serial == old(self).last_serial_number + 1
                &&& final (self).passives@.last().content@ == old(self).active@
            },
    {
        let len = self.active.as_str().unicode_len();
        if len == 0 {
            proof {
                assert(records_of(self.active@) =~= Seq::<(int, RecordModel)>::empty());
                assert(self.model() == self.passive_model());
                assert(no_active(Map::<Seq<char>, EntryModel>::empty()));
                lemma_apply_passives_no_active(Map::empty(), self.passives@);
                lemma_retarget_no_active(self.model(), self.last_serial_number);
                assert(self.live() =~= old(self).live());
            }
            return ;
        }
        let n = self.last_serial_number + 1;
        let content = self.active.clone();
        self.active = String::new();
        self.passives.push(PassiveFile { serial: n, content });
        self.last_serial_number = n;
        proof {
            let p = self.passives@.last();
            assert(p.serial == n);
            assert(p.content@ == old(self).active@);
            assert(self.passives@ == old(self).passives@.push(p));
            lemma_apply_passives_push(Map::empty(), old(self).passives@, p);
            assert(self.passive_model() == apply_recs(
                old(self).passive_model(),
                DataFile::Passive(n),
                records_of(old(self).active@),
            ));
            assert(self.active@.len() == 0);
            assert(records_of(self.active@) =~= Seq::<(int, RecordModel)>::empty());
            assert(self.model() == self.passive_model());
            lemma_retarget_apply(old(self).passive_model(), records_of(old(self).active@), n);
            assert(no_active(Map::<Seq<char>, EntryModel>::empty()));
            lemma_apply_passives_no_active(Map::empty(), old(self).passives@);
            lemma_retarget_no_active(old(self).passive_model(), n);
            assert(self.model() == retarget(old(self).model(), n));
            assert forall|i: int| 0 <= i < self.passives@.len() implies 1 <= (
            #[trigger] self.passives@[i]).serial <= self.last_serial_number by {
                if i < old(self).passives@.len() {
                    assert(self.passives@[i] == old(self).passives@[i]);
                }
            }
            assert forall|i: int, j: int| 0 <= i < j < self.passives@.len() implies
                self.passives@[i].serial < self.passives@[j].serial by {
                if j < old(self).passives@.len() {
                    assert(self.passives@[i] == old(self).passives@[i]);
                    assert(self.passives@[j] == old(self).passives@[j]);
                } else {
                    assert(self.passives@[i] == old(self).passives@[i]);
                    assert(old(self).passives@[i].serial <= old(self).last_serial_number);
                }
            }
            assert forall|i: int| 0 <= i < self.passives@.len() implies file_wf(
                (#[trigger] self.passives@[i]).content@,
            ) by {
                if i < old(self).passives@.len() {
                    assert(self.passives@[i] == old(self).passives@[i]);
                }
            }
            assert forall|i: int| 0 <= i < self.passives@.len() implies (
            #[trigger] self.passives@[i]).content@.len() <= u64::MAX by {
                if i < old(self).passives@.len() {
                    assert(self.passives@[i] == old(self).passives@[i]);
                }
            }
            assert(self.live() =~= old(self).live());
        }
    }

    /// Rebuild an index from the log: replay every passive file in ascending
    /// serial order, then the active file. Fails with `SerdeError` exactly
    /// when some datafile does not parse.
    pub fn reindex(&self, index: &mut crate::index::Index) -> (r: Result<()>)
        requires
            self.wf_shape(),
            old(index).wf(),
        ensures
            final (index).wf(),
            match r {
                Ok(()) => self.wf() && final (index)@ == ptrs_of(self.model()),
                Err(e) => e == KvError::SerdeError && !self.files_parse(),
            },
    {
        index.clear();
        let ghost mut m: Map<Seq<char>, EntryModel> = Map::empty();
        proof {
            assert(index@ =~= ptrs_of(m));
        }
        let count = self.passives.len();
        let mut i: usize = 0;
        while i < count
            invariant
                self.wf_shape(),
                count == self.passives@.len(),
                0 <= i <= count,
                index.wf(),
                index@ == ptrs_of(m),
                m == apply_passives(Map::empty(), self.passives@.take(i as int)),
                forall|j: int|
                    0 <= j < i ==> file_wf((#[trigger] self.passives@[j]).content@),
                forall|j: int|
                    0 <= j < i ==> (#[trigger] self.passives@[j]).content@.len() <= u64::MAX,
            decreases count - i,
        {
            let f = DataFile::Passive(self.passives[i].serial);
            match reindex_datafile(index, f, &self.passives[i].content, Ghost(m)) {
                Ok(()) => {},
                Err(e) => {
                    return Err(e);
                },
            }
            proof {
                m = apply_recs(m, f, records_of(self.passives@[i as int].content@));
                assert(self.passives@.take(i + 1) =~= self.passives@.take(i as int).push(
                    self.passives@[i as int],
                ));
                lemma_apply_passives_push(
                    Map::empty(),
                    self.passives@.take(i as int),
                    self.passives@[i as int],
                );
            }
            i += 1;
        }
        proof {
            assert(self.passives@.take(count as int) =~= self.passives@);
        }
        match reindex_datafile(index, DataFile::Active, &self.active, Ghost(m)) {
            Ok(()) => Ok(()),
            Err(e) => Err(e),
        }
    }

    /// Build a fresh index over the log's current contents.
    pub fn index(&self) -> (r: Result<crate::index::Index>)
        requires
            self.wf_shape(),
        ensures
            match r {
                Ok(idx) => idx.wf() && self.wf() && idx@ == ptrs_of(self.model()),
                Err(e) => e == KvError::SerdeError && !self.files_parse(),
            },
    {
        let mut idx = crate::index::Index::new();
        match self.reindex(&mut idx) {
            Ok(()) => Ok(idx),
            Err(e) => Err(e),
        }
    }
}

impl Log {
    /// Compact the log: delete every passive file and rewrite the given
    /// records into fresh passive files of at most `RECORDS_IN_COMPACTED`
    /// records each, numbered from 1. The active file is untouched.
    ///
    /// The records are the survivors of the compaction scan: `Put` records
    /// with pairwise distinct keys. Afterwards the passive files hold exactly
    /// those keys and values, and their total size is the total size of the
    /// records' encodings.
    #[verifier::rlimit(100)]
    pub fn compact(&mut self, records: &Vec<Record>)
        requires
            old(self).wf(),
            all_puts(recs_view(records@)),
            distinct_keys(recs_view(records@)),
        ensures
            final (self).wf(),
            final (self).active == old(self).active,
            final (self).last_serial_number as int == final (self).passives@.len(),
            forall|k: Seq<char>|
                final (self).passive_model().contains_key(k) <==> exists|t: int|
                    0 <= t < records@.len() && key_of(#[trigger] recs_view(records@)[t]) == k,
            forall|t: int|
                0 <= t < records@.len() ==> final (self).passive_model()[key_of(
                    #[trigger] recs_view(records@)[t],
                )].value == value_of(recs_view(records@)[t]),
            total_passive_len(final (self).passives@) == total_enc_len(recs_view(records@)),
            forall|j: int|
                0 <= j < final (self).passives@.len() ==> records_of(
                    (#[trigger] final (self).passives@[j]).content@,
                ).len() <= crate::RECORDS_IN_COMPACTED,
    {
        let ghost rv = recs_view(records@);
        self.passives = Vec::new();
        let mut counter: u64 = 0;
        let total = records.len();
        let mut idx: usize = 0;
        proof {
            assert(rv.take(0) =~= Seq::<RecordModel>::empty());
            assert(self.passive_model() =~= Map::<Seq<char>, EntryModel>::empty());
        }
        while idx < total
            invariant
                rv == recs_view(records@),
                all_puts(rv),
                distinct_keys(rv),
                total == records@.len(),
                0 <= idx <= total,
                counter as int <= idx,
                counter as int == self.passives@.len(),
                self.active == old(self).active,
                forall|j: int|
                    0 <= j < self.passives@.len() ==> (#[trigger] self.passives@[j]).serial as int
                        == j + 1,
                forall|j: int|
                    0 <= j < self.passives@.len() ==> file_wf(
                        (#[trigger] self.passives@[j]).content@,
                    ),
                forall|j: int|
                    0 <= j < self.passives@.len() ==> records_of(
                        (#[trigger] self.passives@[j]).content@,
                    ).len() <= crate::RECORDS_IN_COMPACTED,
                forall|j: int|
                    0 <= j < self.passives@.len() ==> (#[trigger] self.passives@[j]).content@.len()
                        <= u64::MAX,
                total_passive_len(self.passives@) == total_enc_len(rv.take(idx as int)),
                forall|k: Seq<char>|
                    self.passive_model().contains_key(k) <==> exists|t: int|
                        0 <= t < idx && key_of(#[trigger] rv[t]) == k,
                forall|t: int|
                    0 <= t < idx ==> self.passive_model()[key_of(#[trigger] rv[t])].value
                        == value_of(rv[t]),
            decreases total - idx,
        {
            counter += 1;
            let ghost cs = idx as int;
            let ghost pm0 = self.passive_model();
            let mut content = String::new();
            let mut cnt: usize = 0;
            proof {
                assert(rv.subrange(cs, cs) =~= Seq::<RecordModel>::empty());
            }
            while idx < total && cnt < crate::RECORDS_IN_COMPACTED
                invariant
                    rv == recs_view(records@),
                    total == records@.len(),
                    0 <= cs <= idx <= total,
                    cnt as int == idx - cs,
                    cnt <= crate::RECORDS_IN_COMPACTED,
                    file_wf(content@),
                    records_of(content@).len() == idx - cs,
                    forall|t: int|
                        0 <= t < idx - cs ==> (#[trigger] records_of(content@)[t]).1 == rv[cs + t],
                    content@.len() == total_enc_len(rv.subrange(cs, idx as int)),
                decreases total - idx,
            {
                let enc = encode_record(&records[idx]);
                let ghost oldc = content@;
                content.append(enc.as_str());
                proof {
                    lemma_records_from_append(oldc, records@[idx as int]@, 0);
                    assert(rv[idx as int] == records@[idx as int]@);
                    assert(records_of(content@) == records_of(oldc).push((
                        oldc.len() as int,
                        rv[idx as int],
                    )));
                    assert forall|t: int| 0 <= t < idx + 1 - cs implies (
                    #[trigger] records_of(content@)[t]).1 == rv[cs + t] by {
                        if t < idx - cs {
                            assert(records_of(content@)[t] == records_of(oldc)[t]);
                        }
                    }
                    assert(rv.subrange(cs, idx + 1) =~= rv.subrange(cs, idx as int).push(
                        rv[idx as int],
                    ));
                    assert(rv.subrange(cs, idx + 1).drop_last() =~= rv.subrange(cs, idx as int));
                    assert(total_enc_len(rv.subrange(cs, idx + 1)) == total_enc_len(
                        rv.subrange(cs, idx as int),
                    ) + enc_rec(rv[idx as int]).len());
                }
                idx += 1;
                cnt += 1;
            }
            let _chunk_len: usize = string_len(&content);
            proof {
                assert(content@.len() <= usize::MAX);
                assert(usize::MAX <= u64::MAX);
            }
            let ghost oldps = self.passives@;
            self.passives.push(PassiveFile { serial: counter, content });
            proof {
                let p = self.passives@.last();
                assert(self.passives@ == oldps.push(p));
                lemma_apply_passives_push(Map::empty(), oldps, p);
                let chunk = records_of(p.content@);
                let f = DataFile::Passive(counter);
                assert(self.passive_model() == apply_recs(pm0, f, chunk));
                assert(forall|t: int|
                    0 <= t < chunk.len() ==> (#[trigger] chunk[t]).1 == rv[cs + t]);
                assert forall|t: int| 0 <= t < chunk.len() implies (#[trigger] chunk[t]).1
                    is Put by {
                    assert(chunk[t].1 == rv[cs + t]);
                    assert(rv[cs + t] is Put);
                }
                assert forall|t: int, u: int| 0 <= t < u < chunk.len() implies key_of(
                    chunk[t].1,
                ) != key_of(chunk[u].1) by {
                    assert(chunk[t].1 == rv[cs + t]);
                    assert(chunk[u].1 == rv[cs + u]);
                }
                lemma_apply_puts_keys(pm0, f, chunk);
                lemma_apply_puts_values(pm0, f, chunk);
                // keys: both directions
                assert forall|k: Seq<char>| self.passive_model().contains_key(k) implies exists|
                    t: int,
                |
                    0 <= t < idx && key_of(#[trigger] rv[t]) == k by {
                    if pm0.contains_key(k) {
                        let t = choose|t: int| 0 <= t < cs && key_of(#[trigger] rv[t]) == k;
                        assert(key_of(rv[t]) == k);
                    } else {
                        let t = choose|t: int|
                            0 <= t < chunk.len() && key_of((#[trigger] chunk[t]).1) == k;
                        assert(key_of(rv[cs + t]) == k);
                    }
                }
                assert forall|k: Seq<char>|
                    (exists|t: int| 0 <= t < idx && key_of(#[trigger] rv[t]) == k) implies
                    self.passive_model().contains_key(k) by {
                    let t = choose|t: int| 0 <= t < idx && key_of(#[trigger] rv[t]) == k;
                    if t < cs {
                        assert(pm0.contains_key(k));
                    } else {
                        assert(chunk[t - cs].1 == rv[t]);
                        assert(key_of((chunk[t - cs]).1) == k);
                        assert(exists|u: int|
                            0 <= u < chunk.len() && key_of((#[trigger] chunk[u]).1) == k);
                    }
                    assert(apply_recs(pm0, f, chunk).contains_key(k));
                    assert(self.passive_model() == apply_recs(pm0, f, chunk));
                }
                // values
                assert forall|t: int| 0 <= t < idx implies self.passive_model()[key_of(
                    #[trigger] rv[t],
                )].value == value_of(rv[t]) by {
                    if t < cs {
                        assert(pm0[key_of(rv[t])].value == value_of(rv[t]));
                        assert forall|u: int| 0 <= u < chunk.len() implies key_of(
                            (#[trigger] chunk[u]).1,
                        ) != key_of(rv[t]) by {
                            assert(chunk[u].1 == rv[cs + u]);
                        }
                        lemma_apply_puts_frame(pm0, f, chunk, key_of(rv[t]));
                    } else {
                        assert(chunk[t - cs].1 == rv[t]);
                        assert forall|u: int| t - cs < u < chunk.len() implies key_of(
                            (#[trigger] chunk[u]).1,
                        ) != key_of(chunk[t - cs].1) by {
                            assert(chunk[u].1 == rv[cs + u]);
                        }
                        assert(self.passive_model()[key_of(chunk[t - cs].1)].value == value_of(
                            chunk[t - cs].1,
                        ));
                    }
                }
                // sizes
                assert(total_passive_len(self.passives@) == total_passive_len(oldps)
                    + p.content@.len()) by {
                    assert(self.passives@.drop_last() =~= oldps);
                }
                assert(rv.take(idx as int) =~= rv.take(cs) + rv.subrange(cs, idx as int));
                lemma_total_enc_len_concat(rv.take(cs), rv.subrange(cs, idx as int));
                // serial positions
                assert forall|j: int| 0 <= j < self.passives@.len() implies (
                #[trigger] self.passives@[j]).serial as int == j + 1 by {
                    if j < oldps.len() {
                        assert(self.passives@[j] == oldps[j]);
                    }
                }
                assert forall|j: int| 0 <= j < self.passives@.len() implies file_wf(
                    (#[trigger] self.passives@[j]).content@,
                ) by {
                    if j < oldps.len() {
                        assert(self.passives@[j] == oldps[j]);
                    }
                }
                assert forall|j: int| 0 <= j < self.passives@.len() implies records_of(
                    (#[trigger] self.passives@[j]).content@,
                ).len() <= crate::RECORDS_IN_COMPACTED by {
                    if j < oldps.len() {
                        assert(self.passives@[j] == oldps[j]);
                    }
                }
                assert forall|j: int| 0 <= j < self.passives@.len() implies (
                #[trigger] self.passives@[j]).content@.len() <= u64::MAX by {
                    if j < oldps.len() {
                        assert(self.passives@[j] == oldps[j]);
                    }
                }
            }
        }
        self.last_serial_number = counter;
        proof {
            assert(rv.take(total as int) =~= rv);
            assert forall|i: int, j: int| 0 <= i < j < self.passives@.len() implies
                self.passives@[i].serial < self.passives@[j].serial by {
                assert(self.passives@[i].serial as int == i + 1);
                assert(self.passives@[j].serial as int == j + 1);
            }
        }
    }
}

/// Replay one datafile's records into the index. `m` is the semantic state
/// the index stood for before the call.
fn reindex_datafile(
    index: &mut crate::index::Index,
    f: DataFile,
    content: &String,
    Ghost(m): Ghost<Map<Seq<char>, EntryModel>>,
) -> (r: Result<()>)
    requires
        old(index).wf(),
        old(index)@ == ptrs_of(m),
    ensures
        final (index).wf(),
        match r {
            Ok(()) => file_wf(content@) && content@.len() <= u64::MAX && final (index)@ == ptrs_of(
                apply_recs(m, f, records_of(content@)),
            ),
            Err(e) => e == KvError::SerdeError && !file_wf(content@),
        },
{
    let len = content.as_str().unicode_len();
    proof {
        assert(len as nat <= usize::MAX);
        assert(usize::MAX <= u64::MAX);
    }
    let mut pos: usize = 0;
    let ghost mut mc: Map<Seq<char>, EntryModel> = m;
    loop
        invariant
            len == content@.len(),
            0 <= pos <= len,
            index.wf(),
            index@ == ptrs_of(mc),
            (file_records_from(content@, pos as int) is Some) == (file_records_from(content@, 0)
                is Some),
            file_records_from(content@, 0) is Some ==> apply_recs(m, f, records_of(content@))
                == apply_recs(mc, f, file_records_from(content@, pos as int)->0),
        ensures
            len == content@.len(),
            index.wf(),
            index@ == ptrs_of(mc),
            pos == len,
            (file_records_from(content@, pos as int) is Some) == (file_records_from(content@, 0)
                is Some),
            file_records_from(content@, 0) is Some ==> apply_recs(m, f, records_of(content@))
                == apply_recs(mc, f, file_records_from(content@, pos as int)->0),
        decreases len - pos,
    {
        if pos >= len {
            break ;
        }
        match decode_record(content.as_str(), pos) {
            Err(_) => {
                proof {
                    assert(file_records_from(content@, pos as int) is None);
                }
                return Err(KvError::SerdeError);
            },
            Ok((rec, next)) => {
                let ghost rest = file_records_from(content@, next as int);
                proof {
                    assert(file_records_from(content@, pos as int) matches Some(x) ==> (rest
                        is Some && x == seq![(pos as int, rec@)] + rest->0));
                    assert((file_records_from(content@, pos as int) is Some) == (rest is Some));
                    if file_records_from(content@, 0) is Some {
                        let cons = file_records_from(content@, pos as int)->0;
                        assert(cons[0] == (pos as int, rec@));
                        assert(cons.drop_first() =~= rest->0);
                        assert(apply_recs(mc, f, cons) == apply_recs(
                            apply_rec(mc, f, pos as int, rec@),
                            f,
                            rest->0,
                        ));
                    }
                    mc = apply_rec(mc, f, pos as int, rec@);
                }
                match rec {
                    Record::Put { key, value } => {
                        let ghost oldidx = index@;
                        index.insert(key, LogPointer { offset: pos as u64, file: f });
                        proof {
                            assert(index@ =~= ptrs_of(mc));
                        }
                    },
                    Record::Remove { key } => {
                        index.remove(&key);
                        proof {
                            assert(index@ =~= ptrs_of(mc));
                        }
                    },
                }
                pos = next;
            },
        }
    }
    proof {
        assert(file_records_from(content@, pos as int) == Some(
            Seq::<(int, RecordModel)>::empty(),
        ));
        assert(file_wf(content@));
        assert(apply_recs(mc, f, Seq::empty()) == mc);
    }
    Ok(())
}

/// The length of a string, learned from the executable value; in particular
/// every real string's length fits in `usize`.
pub(crate) fn string_len(s: &String) -> (l: usize)
    ensures
        l as nat == s@.len(),
{
    s.as_str().unicode_len()
}

/// Decode the record starting at `offset` of `content`.
fn read_record_at(content: &String, offset: u64) -> (r: Result<Record>)
    ensures
        match r {
            Ok(rec) => parse_rec(content@, offset as int) is Some && (parse_rec(
                content@,
                offset as int,
            )->0).0 == rec@,
            Err(KvError::SerdeError) => parse_rec(content@, offset as int) is None,
            Err(_) => false,
        },
{
    let len = content.as_str().unicode_len();
    if offset >= len as u64 {
        proof {
            assert(parse_rec(content@, offset as int) is None);
        }
        return Err(KvError::SerdeError);
    }
    let pos = offset as usize;
    match decode_record(content.as_str(), pos) {
        Ok((rec, _next)) => Ok(rec),
        Err(e) => Err(e),
    }
}

} // verus!
