//! Laws of the store's semantics.
//!
//! `KvStore::set` and `KvStore::remove` promise exactly that the live map is
//! updated by `apply_op`, and `KvStore::get` promises exactly a lookup in
//! the live map, so these laws about sequences of operations carry over to
//! any sequence of calls on a store.

use vstd::prelude::*;

use crate::log::apply_passives;
use crate::log::key_of;
use crate::log::passive_name;
use crate::log::passive_serial_of;
use crate::log::DirEntry;
use crate::log::Log;
use crate::log::PassiveFile;
use crate::record::RecordModel;
use crate::text::lemma_dec_rep_value;

verus! {

/// Apply one mutation to a live key/value map: what one successful `set` or
/// `remove` call does.
pub open spec fn apply_op(
    m: Map<Seq<char>, Seq<char>>,
    op: RecordModel,
) -> Map<Seq<char>, Seq<char>> {
    match op {
        RecordModel::Put { key, value } => m.insert(key, value),
        RecordModel::Remove { key } => m.remove(key),
    }
}

/// Apply a sequence of mutations in order.
pub open spec fn run_ops(
    m: Map<Seq<char>, Seq<char>>,
    ops: Seq<RecordModel>,
) -> Map<Seq<char>, Seq<char>>
    decreases ops.len(),
{
    if ops.len() == 0 {
        m
    } else {
        run_ops(apply_op(m, ops[0]), ops.drop_first())
    }
}

pub proof fn lemma_run_ops_push(m: Map<Seq<char>, Seq<char>>, ops: Seq<RecordModel>, op: RecordModel)
    ensures
        run_ops(m, ops.push(op)) == apply_op(run_ops(m, ops), op),
    decreases ops.len(),
{
    let p = ops.push(op);
    if ops.len() == 0 {
        assert(p[0] == op);
        assert(p.drop_first() =~= Seq::<RecordModel>::empty());
        assert(run_ops(m, p) == run_ops(apply_op(m, op), p.drop_first()));
    } else {
        assert(p[0] == ops[0]);
        assert(p.drop_first() =~= ops.drop_first().push(op));
        lemma_run_ops_push(apply_op(m, ops[0]), ops.drop_first(), op);
    }
}

pub proof fn lemma_run_ops_concat(
    m: Map<Seq<char>, Seq<char>>,
    a: Seq<RecordModel>,
    b: Seq<RecordModel>,
)
    ensures
        run_ops(m, a + b) == run_ops(run_ops(m, a), b),
    decreases a.len(),
{
    if a.len() == 0 {
        assert(a + b =~= b);
    } else {
        assert((a + b)[0] == a[0]);
        assert((a + b).drop_first() =~= a.drop_first() + b);
        lemma_run_ops_concat(apply_op(m, a[0]), a.drop_first(), b);
    }
}

/// Operations that never speak of `k` leave `k`'s binding alone.
pub proof fn lemma_run_ops_frame(m: Map<Seq<char>, Seq<char>>, ops: Seq<RecordModel>, k: Seq<char>)
    requires
        forall|t: int| 0 <= t < ops.len() ==> key_of(#[trigger] ops[t]) != k,
    ensures
        run_ops(m, ops).contains_key(k) == m.contains_key(k),
        m.contains_key(k) ==> run_ops(m, ops)[k] == m[k],
    decreases ops.len(),
{
    if ops.len() > 0 {
        let m1 = apply_op(m, ops[0]);
        assert(m1.contains_key(k) == m.contains_key(k));
        assert(forall|t: int| 0 <= t < ops.drop_first().len() ==> ops.drop_first()[t] == ops[t
            + 1]);
        lemma_run_ops_frame(m1, ops.drop_first(), k);
    }
}

/// Operations that never write `k` (no `Put` on `k`) keep `k` absent.
pub proof fn lemma_run_ops_no_put(m: Map<Seq<char>, Seq<char>>, ops: Seq<RecordModel>, k: Seq<char>)
    requires
        !m.contains_key(k),
        forall|t: int|
            0 <= t < ops.len() ==> !((#[trigger] ops[t]) is Put && key_of(ops[t]) == k),
    ensures
        !run_ops(m, ops).contains_key(k),
    decreases ops.len(),
{
    if ops.len() > 0 {
        let m1 = apply_op(m, ops[0]);
        assert(!m1.contains_key(k));
        assert(forall|t: int| 0 <= t < ops.drop_first().len() ==> ops.drop_first()[t] == ops[t
            + 1]);
        lemma_run_ops_no_put(m1, ops.drop_first(), k);
    }
}

/// Get-after-set: for any sequence of operations whose last write to `key`
/// is `set(key, value)` at position `i`, the key reads back as `value`.
pub proof fn law_get_after_set(
    m: Map<Seq<char>, Seq<char>>,
    ops: Seq<RecordModel>,
    i: int,
    key: Seq<char>,
    value: Seq<char>,
)
    requires
        0 <= i < ops.len(),
        ops[i] == (RecordModel::Put { key, value }),
        forall|j: int| i < j < ops.len() ==> key_of(#[trigger] ops[j]) != key,
    ensures
        run_ops(m, ops).contains_key(key),
        run_ops(m, ops)[key] == value,
{
    let a = ops.take(i + 1);
    let b = ops.skip(i + 1);
    assert(ops =~= a + b);
    lemma_run_ops_concat(m, a, b);
    assert(a =~= ops.take(i).push(ops[i]));
    lemma_run_ops_push(m, ops.take(i), ops[i]);
    let m1 = run_ops(m, a);
    assert(m1.contains_key(key) && m1[key] == value);
    assert(forall|t: int| 0 <= t < b.len() ==> b[t] == ops[i + 1 + t]);
    lemma_run_ops_frame(m1, b, key);
    assert(run_ops(m, a + b) == run_ops(m1, b));
}

/// Remove-absence: after `remove(key)` at position `i`, the key reads back
/// as absent until a subsequent `set` of that key; later removes of the key
/// or operations on other keys do not resurrect it.
pub proof fn law_remove_absence(
    m: Map<Seq<char>, Seq<char>>,
    ops: Seq<RecordModel>,
    i: int,
    key: Seq<char>,
)
    requires
        0 <= i < ops.len(),
        ops[i] == (RecordModel::Remove { key }),
        forall|j: int|
            i < j < ops.len() ==> !((#[trigger] ops[j]) is Put && key_of(ops[j]) == key),
    ensures
        !run_ops(m, ops).contains_key(key),
{
    let a = ops.take(i + 1);
    let b = ops.skip(i + 1);
    assert(ops =~= a + b);
    lemma_run_ops_concat(m, a, b);
    assert(a =~= ops.take(i).push(ops[i]));
    lemma_run_ops_push(m, ops.take(i), ops[i]);
    let m1 = run_ops(m, a);
    assert(!m1.contains_key(key));
    assert(forall|t: int| 0 <= t < b.len() ==> b[t] == ops[i + 1 + t]);
    lemma_run_ops_no_put(m1, b, key);
    assert(run_ops(m, a + b) == run_ops(m1, b));
}

/// Compaction preserves semantics: compaction leaves the live map untouched
/// (`KvStore::close`, and the compaction the store triggers by itself,
/// promise `live() == old(self).live()`), so a workload with an interleaved
/// compaction ends in the final live map of the workload alone — the
/// operations after the compaction continue from an unchanged map.
pub proof fn law_compaction_preserves(
    m: Map<Seq<char>, Seq<char>>,
    before: Seq<RecordModel>,
    after: Seq<RecordModel>,
    compacted: Map<Seq<char>, Seq<char>>,
)
    requires
        compacted == run_ops(m, before),
    ensures
        run_ops(compacted, after) == run_ops(m, before + after),
{
    lemma_run_ops_concat(m, before, after);
}

/// Two passive files stand for the same datafile: same serial number, same
/// contents.
pub open spec fn pf_like(x: PassiveFile, y: PassiveFile) -> bool {
    x.serial == y.serial && x.content@ == y.content@
}

/// Some file of `b` stands for the same datafile as `x`.
pub open spec fn has_match(x: PassiveFile, b: Seq<PassiveFile>) -> bool {
    exists|j: int| 0 <= j < b.len() && pf_like(x, #[trigger] b[j])
}

/// Replaying passive sequences that pairwise stand for the same datafiles
/// yields the same state.
proof fn lemma_apply_passives_congruent(
    m: Map<Seq<char>, crate::log::EntryModel>,
    a: Seq<PassiveFile>,
    b: Seq<PassiveFile>,
)
    requires
        a.len() == b.len(),
        forall|j: int| 0 <= j < a.len() ==> pf_like(#[trigger] a[j], b[j]),
    ensures
        apply_passives(m, a) == apply_passives(m, b),
    decreases a.len(),
{
    if a.len() > 0 {
        assert(pf_like(a[0], b[0]));
        assert(forall|j: int|
            0 <= j < a.drop_first().len() ==> a.drop_first()[j] == a[j + 1] && b.drop_first()[j]
                == b[j + 1]);
        assert(forall|j: int|
            0 <= j < a.drop_first().len() ==> pf_like(
                #[trigger] a.drop_first()[j],
                b.drop_first()[j],
            ));
        lemma_apply_passives_congruent(
            crate::log::apply_recs(
                m,
                crate::logpointer::DataFile::Passive(a[0].serial),
                crate::log::records_of(a[0].content@),
            ),
            a.drop_first(),
            b.drop_first(),
        );
    }
}

/// In a strictly sorted sequence, a serial number pins down its index.
proof fn lemma_sorted_index_unique(a: Seq<PassiveFile>, i: int, j: int)
    requires
        forall|x: int, y: int| 0 <= x < y < a.len() ==> a[x].serial < a[y].serial,
        0 <= i < a.len(),
        0 <= j < a.len(),
        a[i].serial == a[j].serial,
    ensures
        i == j,
{
    if i < j {
        assert(a[i].serial < a[j].serial);
    } else if j < i {
        assert(a[j].serial < a[i].serial);
    }
}

/// Under the matching hypotheses the heads stand for the same datafile.
proof fn lemma_sorted_heads(a: Seq<PassiveFile>, b: Seq<PassiveFile>)
    requires
        a.len() > 0,
        b.len() > 0,
        forall|i: int, j: int| 0 <= i < j < a.len() ==> a[i].serial < a[j].serial,
        forall|i: int, j: int| 0 <= i < j < b.len() ==> b[i].serial < b[j].serial,
        forall|i: int| 0 <= i < a.len() ==> has_match(#[trigger] a[i], b),
        forall|j: int| 0 <= j < b.len() ==> has_match(#[trigger] b[j], a),
    ensures
        pf_like(a[0], b[0]),
{
    assert(has_match(a[0], b));
    assert(has_match(b[0], a));
    let j0 = choose|j: int| 0 <= j < b.len() && pf_like(a[0], #[trigger] b[j]);
    let i0 = choose|i: int| 0 <= i < a.len() && pf_like(b[0], #[trigger] a[i]);
    assert(b[0].serial <= b[j0].serial);
    assert(a[0].serial <= a[i0].serial);
    assert(a[0].serial == b[0].serial);
    lemma_sorted_index_unique(b, 0, j0);
}

/// The matching hypothesis transfers from the sequences to their tails once
/// the heads match.
proof fn lemma_sorted_tail_transfer(a: Seq<PassiveFile>, b: Seq<PassiveFile>)
    requires
        a.len() > 0,
        b.len() > 0,
        forall|i: int, j: int| 0 <= i < j < a.len() ==> a[i].serial < a[j].serial,
        forall|i: int, j: int| 0 <= i < j < b.len() ==> b[i].serial < b[j].serial,
        forall|i: int| 0 <= i < a.len() ==> has_match(#[trigger] a[i], b),
        pf_like(a[0], b[0]),
    ensures
        forall|i: int|
            0 <= i < a.drop_first().len() ==> has_match(#[trigger] a.drop_first()[i], b.drop_first()),
{
    let at = a.drop_first();
    let bt = b.drop_first();
    assert forall|i: int| 0 <= i < at.len() implies has_match(#[trigger] at[i], bt) by {
        assert(at[i] == a[i + 1]);
        assert(has_match(a[i + 1], b));
        let j = choose|j: int| 0 <= j < b.len() && pf_like(a[i + 1], #[trigger] b[j]);
        assert(a[i + 1].serial > a[0].serial);
        assert(j != 0);
        assert(bt[j - 1] == b[j]);
        assert(pf_like(at[i], bt[j - 1]));
        assert(has_match(at[i], bt));
    }
}

/// Two strictly sorted passive sequences that stand for the same set of
/// datafiles are pointwise the same.
proof fn lemma_sorted_match(a: Seq<PassiveFile>, b: Seq<PassiveFile>)
    requires
        forall|i: int, j: int| 0 <= i < j < a.len() ==> a[i].serial < a[j].serial,
        forall|i: int, j: int| 0 <= i < j < b.len() ==> b[i].serial < b[j].serial,
        forall|i: int| 0 <= i < a.len() ==> has_match(#[trigger] a[i], b),
        forall|j: int| 0 <= j < b.len() ==> has_match(#[trigger] b[j], a),
    ensures
        a.len() == b.len(),
        forall|i: int| 0 <= i < a.len() ==> pf_like(#[trigger] a[i], b[i]),
    decreases a.len(),
{
    if a.len() == 0 {
        if b.len() > 0 {
            assert(has_match(b[0], a));
            let i = choose|i: int| 0 <= i < a.len() && pf_like(b[0], #[trigger] a[i]);
            assert(false);
        }
    } else if b.len() == 0 {
        assert(has_match(a[0], b));
        let j = choose|j: int| 0 <= j < b.len() && pf_like(a[0], #[trigger] b[j]);
        assert(false);
    } else {
        lemma_sorted_heads(a, b);
        let at = a.drop_first();
        let bt = b.drop_first();
        assert(forall|i: int| 0 <= i < at.len() ==> at[i] == a[i + 1]);
        assert(forall|j: int| 0 <= j < bt.len() ==> bt[j] == b[j + 1]);
        lemma_sorted_tail_transfer(a, b);
        assert(pf_like(b[0], a[0]));
        lemma_sorted_tail_transfer(b, a);
        lemma_sorted_match(at, bt);
        assert forall|i: int| 0 <= i < a.len() implies pf_like(#[trigger] a[i], b[i]) by {
            if i > 0 {
                assert(pf_like(at[i - 1], bt[i - 1]));
            }
        }
    }
}

/// Persistence: two logs over the same datafiles — the same active contents
/// and the same set of (serial number, contents) passive files — hold the
/// same live map. Closing a store and reopening it over its directory
/// listing therefore preserves every live key/value pair.
pub proof fn law_persistence(l1: Log, l2: Log)
    requires
        l1.wf_shape(),
        l2.wf_shape(),
        l2.active@ == l1.active@,
        forall|i: int|
            0 <= i < l1.passives@.len() ==> has_match(#[trigger] l1.passives@[i], l2.passives@),
        forall|j: int|
            0 <= j < l2.passives@.len() ==> has_match(#[trigger] l2.passives@[j], l1.passives@),
    ensures
        l2.live() == l1.live(),
{
    lemma_sorted_match(l1.passives@, l2.passives@);
    lemma_apply_passives_congruent(Map::empty(), l1.passives@, l2.passives@);
    assert(l2.passive_model() == l1.passive_model());
    assert(l2.model() == l1.model());
    assert(l2.live() =~= l1.live());
}

/// The canonical passive file name parses back to its serial number, and is
/// never the active file's name.
pub proof fn lemma_passive_name_serial(n: int)
    requires
        1 <= n <= u64::MAX,
    ensures
        passive_serial_of(passive_name(n)) == Some(n),
        !crate::log::is_active_name(passive_name(n)),
{
    let nm = passive_name(n);
    lemma_dec_rep_value(n as nat);
    reveal_strlit(".passive");
    assert(".passive"@.len() == 8);
    let d = crate::text::dec_rep(n as nat);
    assert(nm.len() == d.len() + 8);
    assert(nm.subrange(nm.len() - 8, nm.len() as int) =~= ".passive"@);
    assert(nm.subrange(0, nm.len() - 8) =~= d);
    assert(passive_serial_of(nm) == Some(n));
    reveal_strlit("log.active");
    if crate::log::is_active_name(nm) {
        assert(nm.len() == 10);
        assert(nm[2] == 'g');
        assert(nm.subrange(2, 10)[0] == nm[2]);
        assert(".passive"@[0] == '.');
        assert(false);
    }
}

/// Reopening: a log opened over the directory listing of a well-formed log
/// holds the same live map. The listing is as `KvStore::dir_entries`
/// describes it, and the reopened log relates to the listing as `Log::open`
/// describes.
#[verifier::rlimit(100)]
pub proof fn law_reopen_preserves(l1: Log, entries: Seq<DirEntry>, l2: Log)
    requires
        l1.wf_shape(),
        l2.wf_shape(),
        // the listing of l1
        entries.len() == 1 + l1.passives@.len(),
        entries[0].name@ == "log.active"@,
        entries[0].content@ == l1.active@,
        forall|j: int|
            0 <= j < l1.passives@.len() ==> (#[trigger] entries[j + 1].name@) == passive_name(
                l1.passives@[j].serial as int,
            ) && entries[j + 1].content@ == l1.passives@[j].content@,
        // how l2 was built from the listing, as Log::open promises
        forall|i: int|
            0 <= i < entries.len() && crate::log::is_active_name(#[trigger] entries[i].name@)
                ==> l2.active@ == entries[i].content@,
        forall|i: int|
            0 <= i < entries.len() && passive_serial_of(#[trigger] entries[i].name@) is Some
                ==> exists|j: int|
                0 <= j < l2.passives@.len() && (#[trigger] l2.passives@[j]).serial as int
                    == passive_serial_of(entries[i].name@)->0 && l2.passives@[j].content@
                    == entries[i].content@,
        forall|j: int|
            0 <= j < l2.passives@.len() ==> exists|i: int|
                0 <= i < entries.len() && passive_serial_of(#[trigger] entries[i].name@) == Some(
                    (#[trigger] l2.passives@[j]).serial as int,
                ) && entries[i].content@ == l2.passives@[j].content@,
    ensures
        l2.live() == l1.live(),
{
    assert(crate::log::is_active_name(entries[0].name@));
    assert(l2.active@ == l1.active@);
    assert forall|i: int| 0 <= i < l1.passives@.len() implies has_match(
        #[trigger] l1.passives@[i],
        l2.passives@,
    ) by {
        lemma_passive_name_serial(l1.passives@[i].serial as int);
        assert(passive_serial_of(entries[i + 1].name@) == Some(l1.passives@[i].serial as int));
        let j = choose|j: int|
            0 <= j < l2.passives@.len() && (#[trigger] l2.passives@[j]).serial as int
                == passive_serial_of(entries[i + 1].name@)->0 && l2.passives@[j].content@
                == entries[i + 1].content@;
        assert(pf_like(l1.passives@[i], l2.passives@[j]));
        assert(has_match(l1.passives@[i], l2.passives@));
    }
    assert forall|j: int| 0 <= j < l2.passives@.len() implies has_match(
        #[trigger] l2.passives@[j],
        l1.passives@,
    ) by {
        let i = choose|i: int|
            0 <= i < entries.len() && passive_serial_of(#[trigger] entries[i].name@) == Some(
                (l2.passives@[j]).serial as int,
            ) && entries[i].content@ == l2.passives@[j].content@;
        if i == 0 {
            crate::log::lemma_active_not_passive(entries[0].name@);
            assert(false);
        }
        lemma_passive_name_serial(l1.passives@[i - 1].serial as int);
        assert(entries[(i - 1) + 1].name@ == passive_name(l1.passives@[i - 1].serial as int)
            && entries[(i - 1) + 1].content@ == l1.passives@[i - 1].content@);
        assert(entries[i] == entries[(i - 1) + 1]);
        assert(passive_serial_of(entries[i].name@) == Some(l1.passives@[i - 1].serial as int));
        assert(pf_like(l2.passives@[j], l1.passives@[i - 1]));
        assert(has_match(l2.passives@[j], l1.passives@));
    }
    law_persistence(l1, l2);
}

} // verus!
