//! The log-structured storage engine.
//!
//! The store keeps an in-memory image of every `<N>.log` file in its
//! directory, an index from key to the log position of that key's latest
//! `Put` record, a stale-record counter that triggers compaction, and the
//! number of the active (newest) log file. Mutations append an encoded
//! record to the active image and queue a matching effect; the surrounding
//! process applies the queued effects to the real directory to keep it equal
//! to the in-memory image.
//!
//! The store's mathematical value is the map obtained by replaying every
//! record of every log file in order — `Put` inserts, `Rm` removes — and
//! the central invariant is that the index describes exactly that map.

use vstd::prelude::*;
use crate::codec::{
    decode_op_at, encode_op, lemma_decode_op_implies, lemma_decode_op_encoded,
    lemma_decode_records_of_clean, lemma_decode_records_parse_back, lemma_records_bytes_concat,
    lemma_records_bytes_push, op_encodable, ops_encodable, records_bytes, spec_decode_consumed,
    spec_decode_op_at, spec_decode_records, spec_encode_op, Op, OpView,
};
use crate::dir::{check_kvs_dir, spec_is_tree_marker, DirEntry};
use crate::error::Error;

verus! {

/// How many stale log records (overwritten or removed entries) accumulate
/// before the log is compacted automatically.
pub const COMPACTION_LIMIT: u16 = 50;

/// The location of one record: which log file, and the byte offset of the
/// record inside it.
#[derive(Debug, Clone, Copy, PartialEq, Eq, Structural)]
pub struct LogPtr {
    pub file_num: u64,
    pub pos: u64,
}

/// One log file as the surrounding process reads or writes it: its number
/// and its full contents.
#[derive(Debug)]
pub struct DiskFile {
    pub file_num: u64,
    pub data: Vec<u8>,
}

/// The mathematical value of a log file: its number and its bytes.
#[verifier::ext_equal]
pub struct FileView {
    pub file_num: u64,
    pub data: Seq<u8>,
}

impl View for DiskFile {
    type V = FileView;

    open spec fn view(&self) -> FileView {
        FileView { file_num: self.file_num, data: self.data@ }
    }
}

impl Clone for DiskFile {
    fn clone(&self) -> (r: Self)
        ensures
            r@ == self@,
    {
        DiskFile {
            file_num: self.file_num,
            data: vstd::slice::slice_to_vec(self.data.as_slice()),
        }
    }
}

/// A change the store has made to its in-memory file images that the
/// surrounding process must replay against the real directory.
#[derive(Debug)]
pub enum LogEffect {
    /// Append `bytes` to `<file_num>.log`, creating the file if absent.
    Append { file_num: u64, bytes: Vec<u8> },
    /// Cut `<file_num>.log` down to its first `len` bytes.
    Truncate { file_num: u64, len: u64 },
    /// Remove `<file_num>.log`.
    Delete { file_num: u64 },
}

#[verifier::ext_equal]
pub enum LogEffectView {
    Append { file_num: u64, bytes: Seq<u8> },
    Truncate { file_num: u64, len: u64 },
    Delete { file_num: u64 },
}

impl View for LogEffect {
    type V = LogEffectView;

    open spec fn view(&self) -> LogEffectView {
        match self {
            LogEffect::Append { file_num, bytes } => LogEffectView::Append {
                file_num: *file_num,
                bytes: bytes@,
            },
            LogEffect::Truncate { file_num, len } => LogEffectView::Truncate {
                file_num: *file_num,
                len: *len,
            },
            LogEffect::Delete { file_num } => LogEffectView::Delete { file_num: *file_num },
        }
    }
}

/// A directory of log files after one effect.
pub open spec fn apply_effect_v(disk: Seq<FileView>, e: LogEffectView) -> Seq<FileView> {
    match e {
        LogEffectView::Append { file_num, bytes } => {
            if disk.len() > 0 && disk.last().file_num == file_num {
                disk.update(
                    disk.len() - 1,
                    FileView { file_num, data: disk.last().data + bytes },
                )
            } else {
                disk.push(FileView { file_num, data: bytes })
            }
        },
        LogEffectView::Truncate { file_num, len } => Seq::new(
            disk.len(),
            |i: int|
                if disk[i].file_num == file_num && len < disk[i].data.len() {
                    FileView { file_num: disk[i].file_num, data: disk[i].data.take(len as int) }
                } else {
                    disk[i]
                },
        ),
        LogEffectView::Delete { file_num } => remove_file_num(disk, file_num),
    }
}

/// The directory without any file numbered `n`.
pub open spec fn remove_file_num(disk: Seq<FileView>, n: u64) -> Seq<FileView>
    decreases disk.len(),
{
    if disk.len() == 0 {
        Seq::empty()
    } else if disk.last().file_num == n {
        remove_file_num(disk.drop_last(), n)
    } else {
        remove_file_num(disk.drop_last(), n).push(disk.last())
    }
}

/// A directory of log files after a whole run of effects, oldest first.
pub open spec fn apply_effects_v(disk: Seq<FileView>, effs: Seq<LogEffectView>) -> Seq<FileView>
    decreases effs.len(),
{
    if effs.len() == 0 {
        disk
    } else {
        apply_effects_v(apply_effect_v(disk, effs.first()), effs.drop_first())
    }
}

pub proof fn lemma_apply_effects_push(disk: Seq<FileView>, effs: Seq<LogEffectView>, e: LogEffectView)
    ensures
        apply_effects_v(disk, effs.push(e)) == apply_effect_v(apply_effects_v(disk, effs), e),
    decreases effs.len(),
{
    if effs.len() == 0 {
        assert(effs.push(e).drop_first() =~= Seq::<LogEffectView>::empty());
        assert(effs.push(e).first() == e);
        assert(apply_effects_v(apply_effect_v(disk, e), Seq::<LogEffectView>::empty())
            == apply_effect_v(disk, e));
    } else {
        assert(effs.push(e).first() == effs.first());
        assert(effs.push(e).drop_first() =~= effs.drop_first().push(e));
        lemma_apply_effects_push(apply_effect_v(disk, effs.first()), effs.drop_first(), e);
    }
}

/// The map a sequence of operations leaves behind after one more operation.
pub open spec fn apply_op(m: Map<Seq<char>, Seq<char>>, op: OpView) -> Map<Seq<char>, Seq<char>> {
    match op {
        OpView::Put { key, value } => m.insert(key, value),
        OpView::Rm { key } => m.remove(key),
    }
}

/// The map obtained by replaying a sequence of operations from nothing.
pub open spec fn replay(ops: Seq<OpView>) -> Map<Seq<char>, Seq<char>>
    decreases ops.len(),
{
    if ops.len() == 0 {
        Map::empty()
    } else {
        apply_op(replay(ops.drop_last()), ops.last())
    }
}

pub proof fn lemma_replay_push(ops: Seq<OpView>, op: OpView)
    ensures
        replay(ops.push(op)) == apply_op(replay(ops), op),
{
    assert(ops.push(op).drop_last() =~= ops);
    assert(ops.push(op).last() == op);
}

/// One log file held by the store: its number, its byte image, and (as
/// ghost state) the records those bytes encode.
struct LogFile {
    file_num: u64,
    data: Vec<u8>,
    ops: Ghost<Seq<OpView>>,
}

/// One index entry: a key, the location of its latest `Put` record, the
/// position of that record's file in the store's file list, and (as ghost
/// state) the record's value and its rank within the file.
struct IndexEntry {
    key: String,
    ptr: LogPtr,
    file_idx: usize,
    val: Ghost<Seq<char>>,
    rec_idx: Ghost<int>,
}

/// The records of every file held by the store, in file order.
spec fn all_ops(files: Seq<LogFile>) -> Seq<OpView>
    decreases files.len(),
{
    if files.len() == 0 {
        Seq::empty()
    } else {
        all_ops(files.drop_last()) + files.last().ops@
    }
}

/// The records a directory of log files encodes: each file's cleanly
/// decodable prefix, in file order.
pub open spec fn disk_ops(files: Seq<FileView>) -> Seq<OpView>
    decreases files.len(),
{
    if files.len() == 0 {
        Seq::empty()
    } else {
        disk_ops(files.drop_last()) + spec_decode_records(files.last().data, 0)
    }
}

/// The mathematical value of a whole directory: replaying every record of
/// every log file, oldest file first.
pub open spec fn disk_replay(files: Seq<FileView>) -> Map<Seq<char>, Seq<char>> {
    replay(disk_ops(files))
}

/// The views of a vector of directory files.
pub open spec fn disk_files_view(files: Seq<DiskFile>) -> Seq<FileView> {
    Seq::new(files.len(), |i: int| files[i]@)
}

proof fn lemma_all_ops_push_file(files: Seq<LogFile>, f: LogFile)
    ensures
        all_ops(files.push(f)) == all_ops(files) + f.ops@,
{
    assert(files.push(f).drop_last() =~= files);
    assert(files.push(f).last() == f);
}

proof fn lemma_all_ops_active_push(files: Seq<LogFile>, f2: LogFile, op: OpView)
    requires
        files.len() > 0,
        f2.ops@ == files.last().ops@.push(op),
    ensures
        all_ops(files.drop_last().push(f2)) == all_ops(files).push(op),
{
    let files2 = files.drop_last().push(f2);
    assert(files2.drop_last() =~= files.drop_last());
    assert(files2.last() == f2);
    assert(all_ops(files.drop_last()) + files.last().ops@.push(op) =~= (all_ops(
        files.drop_last(),
    ) + files.last().ops@).push(op));
}

/// When every file image is clean (its bytes re-encode its records), the
/// directory decodes back to exactly the store's records.
proof fn lemma_disk_ops_of_clean(files: Seq<LogFile>)
    requires
        forall|i: int|
            0 <= i < files.len() ==> (#[trigger] files[i].data@) == records_bytes(files[i].ops@),
        forall|i: int| 0 <= i < files.len() ==> ops_encodable(#[trigger] files[i].ops@),
    ensures
        disk_ops(files_view(files)) == all_ops(files),
    decreases files.len(),
{
    if files.len() > 0 {
        let pre = files.drop_last();
        assert forall|i: int| 0 <= i < pre.len() implies (#[trigger] pre[i].data@) == records_bytes(
            pre[i].ops@,
        ) && ops_encodable(pre[i].ops@) by {
            assert(pre[i] == files[i]);
        }
        lemma_disk_ops_of_clean(pre);
        assert(files_view(files).drop_last() =~= files_view(pre));
        let lf = files.last();
        assert(files_view(files).last().data == lf.data@);
        assert(lf.data@ == records_bytes(lf.ops@) && ops_encodable(lf.ops@)) by {
            assert(files[files.len() - 1] == lf);
        }
        assert(lf.data@.subrange(0, lf.data@.len() as int) =~= lf.data@);
        lemma_decode_records_of_clean(lf.data@, 0, lf.ops@);
    }
}

spec fn files_view(files: Seq<LogFile>) -> Seq<FileView> {
    Seq::new(files.len(), |i: int| FileView { file_num: files[i].file_num, data: files[i].data@ })
}

pub open spec fn effects_view(effs: Seq<LogEffect>) -> Seq<LogEffectView> {
    Seq::new(effs.len(), |i: int| effs[i]@)
}

/// The map described by an association list of index entries; later entries
/// win, though a well-formed index never repeats a key.
spec fn entries_map(entries: Seq<IndexEntry>) -> Map<Seq<char>, Seq<char>>
    decreases entries.len(),
{
    if entries.len() == 0 {
        Map::empty()
    } else {
        entries_map(entries.drop_last()).insert(entries.last().key@, entries.last().val@)
    }
}

spec fn keys_unique(entries: Seq<IndexEntry>) -> bool {
    forall|i: int, j: int|
        0 <= i < j < entries.len() ==> #[trigger] entries[i].key@ != #[trigger] entries[j].key@
}

proof fn lemma_entries_map_push(entries: Seq<IndexEntry>, e: IndexEntry)
    ensures
        entries_map(entries.push(e)) == entries_map(entries).insert(e.key@, e.val@),
{
    assert(entries.push(e).drop_last() =~= entries);
    assert(entries.push(e).last() == e);
}

proof fn lemma_entries_map_contains(entries: Seq<IndexEntry>, k: Seq<char>)
    ensures
        entries_map(entries).contains_key(k) <==> exists|i: int|
            0 <= i < entries.len() && #[trigger] entries[i].key@ == k,
    decreases entries.len(),
{
    if entries.len() > 0 {
        let pre = entries.drop_last();
        lemma_entries_map_contains(pre, k);
        if entries_map(entries).contains_key(k) {
            if k == entries.last().key@ {
                assert(entries[entries.len() - 1].key@ == k);
            } else {
                assert(entries_map(pre).contains_key(k));
                let i = choose|i: int| 0 <= i < pre.len() && #[trigger] pre[i].key@ == k;
                assert(pre[i] == entries[i]);
                assert(entries[i].key@ == k);
            }
        }
        if exists|i: int| 0 <= i < entries.len() && #[trigger] entries[i].key@ == k {
            let i = choose|i: int| 0 <= i < entries.len() && #[trigger] entries[i].key@ == k;
            if i < entries.len() - 1 {
                assert(pre[i] == entries[i]);
                assert(pre[i].key@ == k);
            }
            assert(entries_map(entries).contains_key(k));
        }
    }
}

proof fn lemma_entries_map_lookup(entries: Seq<IndexEntry>, i: int)
    requires
        keys_unique(entries),
        0 <= i < entries.len(),
    ensures
        entries_map(entries).contains_key(entries[i].key@),
        entries_map(entries)[entries[i].key@] == entries[i].val@,
    decreases entries.len(),
{
    if i == entries.len() - 1 {
    } else {
        let pre = entries.drop_last();
        assert(pre[i] == entries[i]);
        lemma_entries_map_lookup(pre, i);
        assert(entries[i].key@ != entries.last().key@);
    }
}

proof fn lemma_entries_map_update(entries: Seq<IndexEntry>, i: int, e: IndexEntry)
    requires
        keys_unique(entries),
        0 <= i < entries.len(),
        e.key@ == entries[i].key@,
    ensures
        entries_map(entries.update(i, e)) == entries_map(entries).insert(e.key@, e.val@),
    decreases entries.len(),
{
    let upd = entries.update(i, e);
    if i == entries.len() - 1 {
        assert(upd.drop_last() =~= entries.drop_last());
        assert(upd.last() == e);
        assert(entries_map(entries.drop_last()).insert(e.key@, e.val@) =~= entries_map(
            entries,
        ).insert(e.key@, e.val@));
    } else {
        let pre = entries.drop_last();
        assert(pre[i] == entries[i]);
        assert(upd.drop_last() =~= pre.update(i, e));
        assert(upd.last() == entries.last());
        lemma_entries_map_update(pre, i, e);
        assert(e.key@ != entries.last().key@);
        assert(entries_map(pre).insert(e.key@, e.val@).insert(
            entries.last().key@,
            entries.last().val@,
        ) =~= entries_map(pre).insert(entries.last().key@, entries.last().val@).insert(
            e.key@,
            e.val@,
        ));
    }
}

proof fn lemma_entries_map_remove(entries: Seq<IndexEntry>, i: int)
    requires
        keys_unique(entries),
        0 <= i < entries.len(),
    ensures
        entries_map(entries.remove(i)) == entries_map(entries).remove(entries[i].key@),
    decreases entries.len(),
{
    let rem = entries.remove(i);
    let k = entries[i].key@;
    if i == entries.len() - 1 {
        assert(rem =~= entries.drop_last());
        lemma_entries_map_contains(entries.drop_last(), k);
        assert(!entries_map(entries.drop_last()).contains_key(k));
        assert(entries_map(entries.drop_last()) =~= entries_map(entries.drop_last()).insert(
            k,
            entries.last().val@,
        ).remove(k));
    } else {
        let pre = entries.drop_last();
        assert(pre[i] == entries[i]);
        assert(rem.drop_last() =~= pre.remove(i));
        assert(rem.last() == entries.last());
        lemma_entries_map_remove(pre, i);
        assert(k != entries.last().key@);
        assert(entries_map(pre).remove(k).insert(entries.last().key@, entries.last().val@)
            =~= entries_map(pre).insert(entries.last().key@, entries.last().val@).remove(k));
    }
}

proof fn lemma_entries_map_dom(entries: Seq<IndexEntry>)
    requires
        keys_unique(entries),
    ensures
        entries_map(entries).dom().finite(),
        entries_map(entries).dom().len() == entries.len(),
    decreases entries.len(),
{
    if entries.len() > 0 {
        let pre = entries.drop_last();
        lemma_entries_map_dom(pre);
        lemma_entries_map_contains(pre, entries.last().key@);
        assert(!entries_map(pre).contains_key(entries.last().key@));
        assert(entries_map(entries).dom() =~= entries_map(pre).dom().insert(
            entries.last().key@,
        ));
        vstd::set_lib::lemma_set_insert_finite_iff(entries_map(pre).dom(), entries.last().key@);
        vstd::set::axiom_set_insert_len(entries_map(pre).dom(), entries.last().key@);
    }
}

/// The key-value store: the log-structured engine itself.
///
/// The index is an association list with a keys-unique invariant rather
/// than a hash map, so a lookup walks the live keys; a `String`-keyed std
/// map would give the verifier nothing to reason with.
pub struct KvStore {
    files: Vec<LogFile>,
    index: Vec<IndexEntry>,
    compactions: u16,
    monotonic: u64,
    pending: Vec<LogEffect>,
    disk: Ghost<Seq<FileView>>,
    model: Ghost<Map<Seq<char>, Seq<char>>>,
}

impl View for KvStore {
    type V = Map<Seq<char>, Seq<char>>;

    closed spec fn view(&self) -> Map<Seq<char>, Seq<char>> {
        self.model@
    }
}

spec fn entry_ok(files: Seq<LogFile>, e: IndexEntry) -> bool {
    &&& 0 <= e.file_idx < files.len()
    &&& files[e.file_idx as int].file_num == e.ptr.file_num
    &&& 0 <= e.rec_idx@ < files[e.file_idx as int].ops@.len()
    &&& files[e.file_idx as int].ops@[e.rec_idx@] == (OpView::Put { key: e.key@, value: e.val@ })
    &&& e.ptr.pos == records_bytes(files[e.file_idx as int].ops@.take(e.rec_idx@)).len()
}

impl KvStore {
    /// The store's internal invariant: the file images are clean record
    /// streams in ascending file order, the index points at the latest
    /// `Put` record of each live key, the map value agrees with both the
    /// index and a full replay of the log, and the queued effects bring
    /// the directory up to date with the file images.
    pub closed spec fn wf(self) -> bool {
        &&& self.files@.len() >= 1
        &&& self.compactions <= COMPACTION_LIMIT
        &&& forall|i: int, j: int|
            0 <= i < j < self.files@.len() ==> (#[trigger] self.files@[i].file_num)
                < (#[trigger] self.files@[j].file_num)
        &&& self.files@.last().file_num == self.monotonic
        &&& forall|i: int|
            0 <= i < self.files@.len() ==> (#[trigger] self.files@[i].data@) == records_bytes(
                self.files@[i].ops@,
            )
        &&& forall|i: int| 0 <= i < self.files@.len() ==> ops_encodable(#[trigger] self.files@[i].ops@)
        &&& keys_unique(self.index@)
        &&& forall|i: int| 0 <= i < self.index@.len() ==> entry_ok(self.files@, #[trigger] self.index@[i])
        &&& self.model@ == entries_map(self.index@)
        &&& replay(all_ops(self.files@)) == self.model@
        &&& apply_effects_v(self.disk@, effects_view(self.pending@)) == files_view(self.files@)
    }

    /// How many log files the store currently holds.
    pub closed spec fn spec_num_files(self) -> nat {
        self.files@.len()
    }

    pub fn num_log_files(&self) -> (r: usize)
        ensures
            r == self.spec_num_files(),
    {
        self.files.len()
    }

    /// The number of the active log file.
    pub closed spec fn spec_active_file_num(self) -> u64 {
        self.monotonic
    }

    pub fn active_file_num(&self) -> (r: u64)
        ensures
            r == self.spec_active_file_num(),
    {
        self.monotonic
    }

    /// How many stale records have accumulated since the last compaction.
    pub closed spec fn spec_stale_count(self) -> u16 {
        self.compactions
    }

    pub fn stale_count(&self) -> (r: u16)
        ensures
            r == self.spec_stale_count(),
    {
        self.compactions
    }

    /// How many keys are live.
    pub closed spec fn spec_live_count(self) -> nat {
        self.index@.len()
    }

    pub fn live_key_count(&self) -> (r: usize)
        ensures
            r == self.spec_live_count(),
    {
        self.index.len()
    }

    /// Size in bytes of the active log file's image.
    pub closed spec fn spec_active_log_len(self) -> nat {
        self.files@.last().data@.len()
    }

    pub fn active_log_len(&self) -> (r: usize)
        requires
            self.wf(),
        ensures
            r == self.spec_active_log_len(),
    {
        let i = self.files.len() - 1;
        self.files[i].data.len()
    }

    /// A well-formed store has as many live keys as its map has entries.
    pub proof fn lemma_live_count(self)
        requires
            self.wf(),
        ensures
            self@.dom().finite(),
            self@.dom().len() == self.spec_live_count(),
    {
        lemma_entries_map_dom(self.index@);
    }
}

/// The shape compaction leaves behind: a single log file holding exactly
/// one record per live key, and a stale counter back at zero.
pub open spec fn compacted_shape(s: KvStore) -> bool {
    &&& s.spec_num_files() == 1
    &&& s.spec_stale_count() == 0
    &&& s.spec_record_count() == s.spec_live_count()
}

/// The operations of a vector of decoded records.
spec fn recs_ops(recs: Seq<(Op, usize)>) -> Seq<OpView> {
    Seq::new(recs.len(), |i: int| recs[i].0@)
}

/// Decode every record of one file image from the front, returning each
/// record with its byte offset, and how many bytes decoded cleanly.
fn decode_all(data: &Vec<u8>) -> (r: (Vec<(Op, usize)>, usize))
    ensures
        recs_ops(r.0@) == spec_decode_records(data@, 0),
        r.1 as int == spec_decode_consumed(data@, 0),
        r.1 <= data@.len(),
        forall|i: int|
            0 <= i < r.0@.len() ==> (#[trigger] r.0@[i]).1 as int == records_bytes(
                spec_decode_records(data@, 0).take(i),
            ).len(),
{
    let mut recs: Vec<(Op, usize)> = Vec::new();
    let mut pos: usize = 0;
    let mut stopped = false;
    while !stopped
        invariant
            pos <= data@.len(),
            spec_decode_records(data@, 0) == recs_ops(recs@) + spec_decode_records(
                data@,
                pos as int,
            ),
            spec_decode_consumed(data@, 0) == spec_decode_consumed(data@, pos as int),
            pos as int == records_bytes(recs_ops(recs@)).len(),
            forall|i: int|
                0 <= i < recs@.len() ==> (#[trigger] recs@[i]).1 as int == records_bytes(
                    recs_ops(recs@).take(i),
                ).len(),
            stopped ==> spec_decode_op_at(data@, pos as int) is None,
        decreases data@.len() - pos + (if stopped { 0int } else { 1int }),
    {
        match decode_op_at(data, pos) {
            Some((op, end)) => {
                proof {
                    lemma_decode_op_implies(data@, pos as int);
                    let old_ops = recs_ops(recs@);
                    let op_v = op@;
                    let rest = spec_decode_records(data@, end as int);
                    assert(spec_decode_records(data@, pos as int) == seq![op_v] + rest);
                    assert(spec_decode_consumed(data@, pos as int) == spec_decode_consumed(
                        data@,
                        end as int,
                    ));
                    let new_ops = old_ops.push(op_v);
                    assert(recs_ops(recs@.push((op, pos))) =~= new_ops);
                    assert(old_ops + (seq![op_v] + rest) =~= new_ops + rest);
                    lemma_records_bytes_push(old_ops, op_v);
                    assert forall|i: int| 0 <= i < new_ops.len() implies records_bytes(
                        new_ops.take(i),
                    ).len() == records_bytes(old_ops.take(i)).len() by {
                        assert(new_ops.take(i) =~= old_ops.take(i));
                    }
                    assert(new_ops.take(recs@.len() as int) =~= old_ops);
                }
                recs.push((op, pos));
                pos = end;
            },
            None => {
                stopped = true;
            },
        }
    }
    proof {
        assert(spec_decode_records(data@, pos as int) =~= Seq::<OpView>::empty());
        assert(recs_ops(recs@) + Seq::<OpView>::empty() =~= recs_ops(recs@));
        assert(spec_decode_consumed(data@, pos as int) == pos as int);
        assert forall|i: int| 0 <= i < recs@.len() implies (#[trigger] recs@[i]).1 as int
            == records_bytes(spec_decode_records(data@, 0).take(i)).len() by {
            assert(spec_decode_records(data@, 0).take(i) =~= recs_ops(recs@).take(i));
        }
    }
    (recs, pos)
}

/// Position of the entry for `key` in the index, if the key is live.
fn find_entry(index: &Vec<IndexEntry>, key: &String) -> (r: Option<usize>)
    ensures
        match r {
            Some(i) => i < index@.len() && index@[i as int].key@ == key@,
            None => forall|j: int| 0 <= j < index@.len() ==> (#[trigger] index@[j].key@) != key@,
        },
{
    let mut i: usize = 0;
    while i < index.len()
        invariant
            i <= index@.len(),
            forall|j: int| 0 <= j < i ==> (#[trigger] index@[j].key@) != key@,
        decreases index@.len() - i,
    {
        if index[i].key == *key {
            return Some(i);
        }
        i = i + 1;
    }
    None
}

/// `disk_ops` of a directory whose files decode to the given records.
proof fn lemma_disk_ops_decode(files: Seq<LogFile>, disks: Seq<FileView>)
    requires
        files.len() == disks.len(),
        forall|i: int|
            0 <= i < files.len() ==> (#[trigger] files[i].ops@) == spec_decode_records(
                disks[i].data,
                0,
            ),
    ensures
        disk_ops(disks) == all_ops(files),
    decreases files.len(),
{
    if files.len() > 0 {
        let fp = files.drop_last();
        let dp = disks.drop_last();
        assert forall|i: int| 0 <= i < fp.len() implies (#[trigger] fp[i].ops@)
            == spec_decode_records(dp[i].data, 0) by {
            assert(fp[i] == files[i]);
            assert(dp[i] == disks[i]);
        }
        lemma_disk_ops_decode(fp, dp);
        assert(files[files.len() - 1].ops@ == spec_decode_records(disks[disks.len() - 1].data, 0));
    }
}

impl KvStore {
    /// Open a store from the log files of its directory, oldest first.
    ///
    /// The caller hands over each `<N>.log` file with its full contents, in
    /// strictly ascending order of `N` — the order `dir::sorted_file_nums`
    /// produces. Every file is replayed in order to rebuild the index; a
    /// partial trailing record is silently cut off, and a matching
    /// `Truncate` effect is queued so the directory is cut to match. On an
    /// empty directory a fresh `1.log` is started.
    pub fn open(files: Vec<DiskFile>) -> (r: KvStore)
        requires
            forall|i: int, j: int|
                0 <= i < j < files@.len() ==> (#[trigger] files@[i].file_num)
                    < (#[trigger] files@[j].file_num),
        ensures
            r.wf(),
            r@ == disk_replay(disk_files_view(files@)),
            r.spec_disk() == disk_files_view(files@),
            r.spec_active_file_num() == if files@.len() == 0 {
                1u64
            } else {
                files@.last().file_num
            },
            r.spec_num_files() == if files@.len() == 0 {
                1nat
            } else {
                files@.len()
            },
            files@.len() == 0 ==> r.spec_stale_count() == 0 && r.spec_live_count() == 0,
    {
        let ghost orig = files@;
        let ghost input_view = disk_files_view(orig);
        let mut st = KvStore {
            files: Vec::new(),
            index: Vec::new(),
            compactions: 0u16,
            monotonic: 1u64,
            pending: Vec::new(),
            disk: Ghost(input_view),
            model: Ghost(Map::empty()),
        };
        if files.len() == 0 {
            st.files.push(LogFile { file_num: 1, data: Vec::new(), ops: Ghost(Seq::empty()) });
            st.pending.push(LogEffect::Append { file_num: 1, bytes: Vec::new() });
            proof {
                let f = st.files@[0];
                assert(f.ops@ =~= Seq::<OpView>::empty());
                assert(st.files@.drop_last() =~= Seq::<LogFile>::empty());
                assert(all_ops(Seq::<LogFile>::empty()) == Seq::<OpView>::empty());
                assert(records_bytes(Seq::<OpView>::empty()) == Seq::<u8>::empty());
                assert(all_ops(st.files@) =~= Seq::<OpView>::empty());
                assert(replay(Seq::<OpView>::empty()) =~= Map::<Seq<char>, Seq<char>>::empty());
                assert(entries_map(st.index@) =~= Map::<Seq<char>, Seq<char>>::empty());
                let e = st.pending@[0]@;
                let evs = effects_view(st.pending@);
                assert(evs =~= seq![e]);
                assert(evs.first() == e);
                assert(evs.drop_first() =~= Seq::<LogEffectView>::empty());
                assert(input_view =~= Seq::<FileView>::empty());
                let after = apply_effect_v(input_view, e);
                assert(after =~~= files_view(st.files@));
                assert(apply_effects_v(after, Seq::<LogEffectView>::empty()) == after);
                assert(apply_effects_v(input_view, effects_view(st.pending@)) == files_view(
                    st.files@,
                ));
                assert(disk_ops(input_view) =~= Seq::<OpView>::empty());
            }
            return st;
        }
        let mut files = files;
        while files.len() > 0
            invariant
                st.files@.len() + files@.len() == orig.len(),
                files@ =~= orig.skip(st.files@.len() as int),
                forall|i: int, j: int|
                    0 <= i < j < orig.len() ==> (#[trigger] orig[i].file_num)
                        < (#[trigger] orig[j].file_num),
                forall|i: int|
                    0 <= i < st.files@.len() ==> (#[trigger] st.files@[i].file_num)
                        == orig[i].file_num,
                forall|i: int|
                    0 <= i < st.files@.len() ==> (#[trigger] st.files@[i].data@) == records_bytes(
                        st.files@[i].ops@,
                    ),
                forall|i: int|
                    0 <= i < st.files@.len() ==> ops_encodable(#[trigger] st.files@[i].ops@),
                forall|i: int|
                    0 <= i < st.files@.len() ==> (#[trigger] st.files@[i].ops@)
                        == spec_decode_records(orig[i]@.data, 0),
                st.compactions <= COMPACTION_LIMIT,
                keys_unique(st.index@),
                forall|i: int|
                    0 <= i < st.index@.len() ==> entry_ok(st.files@, #[trigger] st.index@[i]),
                st.model@ == entries_map(st.index@),
                replay(all_ops(st.files@)) == st.model@,
                st.disk@ == input_view,
                apply_effects_v(input_view, effects_view(st.pending@)) =~= files_view(st.files@)
                    + disk_files_view(files@),
            decreases files@.len(),
        {
            let ghost k = st.files@.len() as int;
            let ghost sf_old = st.files@;
            let ghost pending_old = st.pending@;
            let ghost rem_old = files@;
            let f: DiskFile = files.remove(0);
            proof {
                assert(f == orig[k]);
                assert(files@ =~= orig.skip(k + 1));
            }
            let fnum = f.file_num;
            let (recs, consumed) = decode_all(&f.data);
            let ghost fops = spec_decode_records(orig[k]@.data, 0);
            let full_len = f.data.len();
            let mut data = f.data;
            let truncated = consumed < full_len;
            if truncated {
                st.pending.push(LogEffect::Truncate { file_num: fnum, len: consumed as u64 });
            }
            data.truncate(consumed);
            proof {
                lemma_decode_records_parse_back(orig[k]@.data, 0);
                assert(data@ =~= records_bytes(fops)) by {
                    assert(orig[k]@.data.take(consumed as int) =~= orig[k]@.data.subrange(
                        0,
                        consumed as int,
                    ));
                }
            }
            st.files.push(LogFile { file_num: fnum, data, ops: Ghost(fops) });
            proof {
                // The directory after the queued effects matches the images
                // plus what is still unprocessed.
                let newf_v = FileView { file_num: fnum, data: records_bytes(fops) };
                assert(st.files@ =~= sf_old.push(LogFile { file_num: fnum, data: st.files@.last().data, ops: Ghost(fops) }));
                assert(files_view(st.files@) =~= files_view(sf_old).push(newf_v));
                if truncated {
                    let te = LogEffectView::Truncate { file_num: fnum, len: consumed as u64 };
                    assert(effects_view(st.pending@) =~= effects_view(pending_old).push(te));
                    lemma_apply_effects_push(input_view, effects_view(pending_old), te);
                    let before = files_view(sf_old) + disk_files_view(rem_old);
                    let after = apply_effect_v(before, te);
                    assert forall|i: int| 0 <= i < before.len() implies after[i] == (if i == k {
                        newf_v
                    } else {
                        before[i]
                    }) by {
                        if i < k {
                            assert(before[i] == files_view(sf_old)[i]);
                            assert(before[i].file_num == orig[i].file_num);
                            assert(orig[i].file_num != fnum);
                        } else if i == k {
                            assert(before[i] == disk_files_view(rem_old)[0]);
                            assert(before[i].data == orig[k]@.data);
                            assert(before[i].data.take(consumed as int) =~= records_bytes(fops));
                        } else {
                            assert(before[i] == disk_files_view(rem_old)[i - k]);
                            assert(before[i].file_num == orig[i].file_num);
                            assert(orig[i].file_num != fnum);
                        }
                    }
                    assert(after =~~= files_view(st.files@) + disk_files_view(files@));
                } else {
                    assert(newf_v =~~= orig[k]@) by {
                        assert(orig[k]@.data.take(consumed as int) =~= orig[k]@.data);
                    }
                    assert(files_view(sf_old) + disk_files_view(rem_old) =~~= files_view(st.files@)
                        + disk_files_view(files@));
                }
            }
            // Replay this file's records into the index.
            let fidx = st.files.len() - 1;
            let ghost files_snap = st.files@;
            let ghost pending_snap = st.pending@;
            let ghost recs0 = recs@;
            let mut recs = recs;
            let _rlen: usize = recs.len();
            let mut j: usize = 0;
            proof {
                assert(all_ops(files_snap) =~= all_ops(files_snap.drop_last()) + fops);
                assert(files_snap.drop_last() =~= sf_old);
                assert(fops.take(0) =~= Seq::<OpView>::empty());
                assert(all_ops(sf_old) + Seq::<OpView>::empty() =~= all_ops(sf_old));
            }
            while recs.len() > 0
                invariant
                    st.files@ == files_snap,
                    st.pending@ == pending_snap,
                    st.disk@ == input_view,
                    files_snap.len() == k + 1,
                    0 <= k,
                    fidx as int == k,
                    files_snap[k].ops@ == fops,
                    files_snap[k].file_num == fnum,
                    ops_encodable(fops),
                    j + recs@.len() == recs0.len(),
                    recs0.len() <= usize::MAX,
                    recs@ =~= recs0.skip(j as int),
                    recs_ops(recs0) == fops,
                    forall|i: int|
                        0 <= i < recs0.len() ==> (#[trigger] recs0[i]).1 as int == records_bytes(
                            fops.take(i),
                        ).len(),
                    st.compactions <= COMPACTION_LIMIT,
                    keys_unique(st.index@),
                    forall|i: int|
                        0 <= i < st.index@.len() ==> entry_ok(st.files@, #[trigger] st.index@[i]),
                    st.model@ == entries_map(st.index@),
                    replay(all_ops(sf_old) + fops.take(j as int)) == st.model@,
                decreases recs@.len(),
            {
                let (op, off) = recs.remove(0);
                proof {
                    assert(recs0[j as int] == (op, off));
                    assert(recs@ =~= recs0.skip(j as int + 1));
                    assert(op@ == fops[j as int]);
                    assert(off as int == records_bytes(fops.take(j as int)).len());
                    assert((all_ops(sf_old) + fops.take(j as int)).push(fops[j as int]) =~= all_ops(
                        sf_old,
                    ) + fops.take(j as int + 1));
                    lemma_replay_push(all_ops(sf_old) + fops.take(j as int), fops[j as int]);
                }
                match op {
                    Op::Put { key, value } => {
                        let ghost vv = value@;
                        let e = IndexEntry {
                            key,
                            ptr: LogPtr { file_num: fnum, pos: off as u64 },
                            file_idx: fidx,
                            val: Ghost(vv),
                            rec_idx: Ghost(j as int),
                        };
                        match find_entry(&st.index, &e.key) {
                            Some(i) => {
                                proof {
                                    lemma_entries_map_update(st.index@, i as int, e);
                                }
                                *vstd::std_specs::vec::vec_index_mut(&mut st.index, i) = e;
                                if st.compactions < COMPACTION_LIMIT {
                                    st.compactions = st.compactions + 1;
                                }
                            },
                            None => {
                                proof {
                                    lemma_entries_map_push(st.index@, e);
                                }
                                st.index.push(e);
                            },
                        }
                        proof {
                            st.model@ = st.model@.insert(e.key@, vv);
                        }
                    },
                    Op::Rm { key } => {
                        match find_entry(&st.index, &key) {
                            Some(i) => {
                                proof {
                                    lemma_entries_map_remove(st.index@, i as int);
                                }
                                st.index.remove(i);
                                if st.compactions < COMPACTION_LIMIT {
                                    st.compactions = st.compactions + 1;
                                }
                            },
                            None => {
                                proof {
                                    lemma_entries_map_contains(st.index@, key@);
                                    assert(!st.model@.contains_key(key@));
                                    assert(st.model@.remove(key@) =~= st.model@);
                                }
                            },
                        }
                        proof {
                            st.model@ = st.model@.remove(key@);
                        }
                    },
                }
                j = j + 1;
            }
            proof {
                assert(fops.take(j as int) =~= fops);
                assert(replay(all_ops(st.files@)) == st.model@);
            }
        }
        let last = st.files.len() - 1;
        let mnum = st.files[last].file_num;
        st.monotonic = mnum;
        proof {
            assert(disk_files_view(files@) =~= Seq::<FileView>::empty());
            assert(files_view(st.files@) + Seq::<FileView>::empty() =~= files_view(st.files@));
            assert forall|i: int, j2: int|
                0 <= i < j2 < st.files@.len() implies (#[trigger] st.files@[i].file_num)
                < (#[trigger] st.files@[j2].file_num) by {
                assert(st.files@[i].file_num == orig[i].file_num);
                assert(st.files@[j2].file_num == orig[j2].file_num);
            }
            assert forall|i: int| 0 <= i < st.files@.len() implies (#[trigger] st.files@[i].ops@)
                == spec_decode_records(disk_files_view(orig)[i].data, 0) by {}
            lemma_disk_ops_decode(st.files@, disk_files_view(orig));
            assert(st.files@.last().file_num == orig.last().file_num);
        }
        st
    }

    /// Open the log engine on a directory, refusing one owned by the
    /// tree backend: the startup guard and the replay in one step. The
    /// refusal happens if and only if the directory holds a tree-backend
    /// marker, and a refused directory is left untouched.
    pub fn open_dir(entries: &Vec<DirEntry>, files: Vec<DiskFile>) -> (r: Result<KvStore, Error>)
        requires
            forall|i: int, j: int|
                0 <= i < j < files@.len() ==> (#[trigger] files@[i].file_num)
                    < (#[trigger] files@[j].file_num),
        ensures
            (exists|k: int|
                0 <= k < entries@.len() && spec_is_tree_marker(
                    #[trigger] entries@[k].name@,
                    entries@[k].is_dir,
                )) <==> (r matches Err(e) && e is EngineMismatch),
            r matches Ok(s) ==> {
                &&& s.wf()
                &&& s@ == disk_replay(disk_files_view(files@))
                &&& s.spec_disk() == disk_files_view(files@)
                &&& s.spec_active_file_num() == if files@.len() == 0 {
                    1u64
                } else {
                    files@.last().file_num
                }
            },
    {
        match check_kvs_dir(entries) {
            Err(e) => Err(e),
            Ok(()) => Ok(KvStore::open(files)),
        }
    }

    /// The views of the store's current log file images.
    pub closed spec fn spec_files(self) -> Seq<FileView> {
        files_view(self.files@)
    }

    /// The directory contents the surrounding process currently holds, as
    /// of the last `take_effects`.
    pub closed spec fn spec_disk(self) -> Seq<FileView> {
        self.disk@
    }

    /// Get the value associated with `key`: `Some(value)` if the key is
    /// live, otherwise `None`. Under the store's invariant this never
    /// fails: the index always points at a decodable `Put` record.
    pub fn get(&self, key: String) -> (r: Result<Option<String>, Error>)
        requires
            self.wf(),
        ensures
            r matches Ok(o) && match o {
                Some(s) => self@.contains_key(key@) && s@ == self@[key@],
                None => !self@.contains_key(key@),
            },
    {
        match find_entry(&self.index, &key) {
            None => {
                proof {
                    lemma_entries_map_contains(self.index@, key@);
                }
                Ok(None)
            },
            Some(i) => {
                proof {
                    assert(entry_ok(self.files@, self.index@[i as int]));
                    lemma_entry_decodes(self.files@, self.index@[i as int]);
                    lemma_entries_map_lookup(self.index@, i as int);
                }
                let fi = self.index[i].file_idx;
                match value_at_pos(&self.files[fi].data, self.index[i].ptr.pos) {
                    Ok(v) => Ok(Some(v)),
                    Err(e) => {
                        proof {
                            assert(false);
                        }
                        Err(e)
                    },
                }
            },
        }
    }

    /// Hand over the queued effects. Applying them, in order, to the
    /// directory as it stood after the previous hand-over yields exactly
    /// the store's current file images.
    pub fn take_effects(&mut self) -> (effs: Vec<LogEffect>)
        requires
            old(self).wf(),
        ensures
            final(self).wf(),
            final(self)@ == old(self)@,
            final(self).spec_files() == old(self).spec_files(),
            apply_effects_v(old(self).spec_disk(), effects_view(effs@)) == old(self).spec_files(),
            final(self).spec_disk() == final(self).spec_files(),
    {
        let mut effs: Vec<LogEffect> = Vec::new();
        core::mem::swap(&mut effs, &mut self.pending);
        proof {
            self.disk@ = files_view(self.files@);
            assert(effects_view(self.pending@) =~= Seq::<LogEffectView>::empty());
            assert(apply_effects_v(self.disk@, Seq::<LogEffectView>::empty()) == self.disk@);
        }
        effs
    }
}

proof fn lemma_remove_absent(s: Seq<FileView>, n: u64)
    requires
        forall|i: int| 0 <= i < s.len() ==> (#[trigger] s[i].file_num) != n,
    ensures
        remove_file_num(s, n) == s,
    decreases s.len(),
{
    if s.len() > 0 {
        let pre = s.drop_last();
        assert forall|i: int| 0 <= i < pre.len() implies (#[trigger] pre[i].file_num) != n by {
            assert(pre[i] == s[i]);
        }
        assert(s[s.len() - 1].file_num != n);
        lemma_remove_absent(pre, n);
        assert(pre.push(s.last()) =~= s);
    }
}

proof fn lemma_remove_head(s: Seq<FileView>, n: u64)
    requires
        s.len() > 0,
        s[0].file_num == n,
        forall|i: int| 0 < i < s.len() ==> (#[trigger] s[i].file_num) != n,
    ensures
        remove_file_num(s, n) == s.drop_first(),
    decreases s.len(),
{
    if s.len() == 1 {
        assert(s.drop_last() =~= Seq::<FileView>::empty());
        assert(remove_file_num(Seq::<FileView>::empty(), n) == Seq::<FileView>::empty());
        assert(s.last() == s[0]);
        assert(remove_file_num(s, n) =~= s.drop_first());
    } else {
        let pre = s.drop_last();
        assert(s[s.len() - 1].file_num != n);
        assert(pre[0] == s[0]);
        assert forall|i: int| 0 < i < pre.len() implies (#[trigger] pre[i].file_num) != n by {
            assert(pre[i] == s[i]);
        }
        lemma_remove_head(pre, n);
        assert(pre.drop_first().push(s.last()) =~= s.drop_first());
    }
}

impl KvStore {
    /// Set the value of `key` to `value`, overwriting any existing entry.
    /// A `Put` record is appended at the end of the active log; if this
    /// displaced an older entry, the stale counter rises, and reaching the
    /// threshold compacts the log down to one file with the counter reset.
    pub fn set(&mut self, key: String, value: String) -> (r: Result<(), Error>)
        requires
            old(self).wf(),
        ensures
            final(self).wf(),
            r is Ok,
            final(self)@ == old(self)@.insert(key@, value@),
            final(self).spec_disk() == old(self).spec_disk(),
            old(self).spec_active_file_num() < u64::MAX ==> final(self).spec_stale_count()
                < COMPACTION_LIMIT,
            final(self).spec_num_files() == old(self).spec_num_files()
                || final(self).spec_num_files() == 1,
            ({
                let appended = apply_effect_v(
                    old(self).spec_files(),
                    LogEffectView::Append {
                        file_num: old(self).spec_active_file_num(),
                        bytes: spec_encode_op(OpView::Put { key: key@, value: value@ }),
                    },
                );
                ||| {
                    &&& final(self).spec_files() == appended
                    &&& final(self).spec_active_file_num() == old(self).spec_active_file_num()
                    &&& final(self).spec_stale_count() == (if old(self)@.contains_key(key@)
                        && old(self).spec_stale_count() < COMPACTION_LIMIT {
                        (old(self).spec_stale_count() + 1) as u16
                    } else {
                        old(self).spec_stale_count()
                    })
                }
                ||| {
                    &&& compacted_shape(*final(self))
                    &&& final(self).spec_active_file_num() == old(self).spec_active_file_num()
                        + 1
                }
            }),
    {
        let ghost kk = key@;
        let ghost vv = value@;
        proof {
            lemma_entries_map_contains(self.index@, kk);
        }
        let op = Op::Put { key: key.clone(), value };
        let rec = encode_op(&op);
        let rec2 = encode_op(&op);
        let li = self.files.len() - 1;
        let fnum = self.monotonic;
        let mut active = self.files.pop().unwrap();
        let ghost old_ops = active.ops@;
        let pos_usize = active.data.len();
        let pos64: u64 = pos_usize as u64;
        let mut rec_m = rec;
        active.data.append(&mut rec_m);
        proof {
            active.ops@ = old_ops.push(op@);
            lemma_records_bytes_push(old_ops, op@);
        }
        let ghost new_active = active;
        self.files.push(active);
        self.pending.push(LogEffect::Append { file_num: fnum, bytes: rec2 });
        let e = IndexEntry {
            key,
            ptr: LogPtr { file_num: fnum, pos: pos64 },
            file_idx: li,
            val: Ghost(vv),
            rec_idx: Ghost(old_ops.len() as int),
        };
        proof {
            let of = old(self).files@;
            assert(self.files@ =~= of.drop_last().push(new_active));
            lemma_all_ops_active_push(of, new_active, op@);
            lemma_replay_push(all_ops(of), op@);
            assert(ops_encodable(old_ops)) by {
                assert(of[of.len() - 1].ops@ == old_ops);
            }
            assert(ops_encodable(old_ops.push(op@))) by {
                assert forall|i: int| 0 <= i < old_ops.push(op@).len() implies op_encodable(
                    #[trigger] old_ops.push(op@)[i],
                ) by {
                    if i < old_ops.len() {
                        assert(old_ops.push(op@)[i] == old_ops[i]);
                    }
                }
            }
            let ae = LogEffectView::Append { file_num: fnum, bytes: spec_encode_op(op@) };
            assert(effects_view(self.pending@) =~= effects_view(old(self).pending@).push(ae));
            lemma_apply_effects_push(self.disk@, effects_view(old(self).pending@), ae);
            let fv_old = files_view(of);
            assert(fv_old.last().file_num == fnum);
            assert(apply_effect_v(fv_old, ae) =~~= files_view(self.files@));
        }
        let ghost mut epos: int = 0;
        match find_entry(&self.index, &e.key) {
            Some(i) => {
                proof {
                    lemma_entries_map_update(self.index@, i as int, e);
                    epos = i as int;
                }
                *vstd::std_specs::vec::vec_index_mut(&mut self.index, i) = e;
                proof {
                    let oi = old(self).index@;
                    assert forall|t: int| 0 <= t < self.index@.len() implies (t == epos
                        && #[trigger] self.index@[t] == e) || (t != epos && 0 <= t < oi.len()
                        && self.index@[t] == oi[t] && oi[t].key@ != kk) by {
                        if t != epos {
                            assert(self.index@[t] == oi[t]);
                            assert(oi[epos].key@ == kk);
                        }
                    }
                }
                if self.compactions < COMPACTION_LIMIT {
                    self.compactions = self.compactions + 1;
                }
            },
            None => {
                proof {
                    lemma_entries_map_push(self.index@, e);
                    epos = self.index@.len() as int;
                }
                self.index.push(e);
                proof {
                    let oi = old(self).index@;
                    assert forall|t: int| 0 <= t < self.index@.len() implies (t == epos
                        && #[trigger] self.index@[t] == e) || (t != epos && 0 <= t < oi.len()
                        && self.index@[t] == oi[t] && oi[t].key@ != kk) by {}
                }
            },
        }
        proof {
            self.model@ = self.model@.insert(kk, vv);
            let of = old(self).files@;
            let oi = old(self).index@;
            assert forall|a: int, b: int| 0 <= a < b < self.index@.len() implies (
            #[trigger] self.index@[a].key@) != (#[trigger] self.index@[b].key@) by {
                if a != epos && b != epos {
                    assert(oi[a].key@ != oi[b].key@);
                }
            }
            assert forall|t: int| 0 <= t < self.index@.len() implies entry_ok(
                self.files@,
                #[trigger] self.index@[t],
            ) by {
                let e2 = self.index@[t];
                if t == epos {
                    assert(self.files@[li as int].ops@ == old_ops.push(op@));
                    assert(old_ops.push(op@)[old_ops.len() as int] == op@);
                    assert(old_ops.push(op@).take(old_ops.len() as int) =~= old_ops);
                    assert(of[of.len() - 1].data@ == records_bytes(old_ops));
                } else {
                    assert(e2 == oi[t]);
                    assert(entry_ok(of, e2));
                    if e2.file_idx < li {
                        assert(self.files@[e2.file_idx as int] == of[e2.file_idx as int]);
                    } else {
                        assert(e2.file_idx == li);
                        assert(of[li as int].ops@ == old_ops);
                        assert(old_ops.push(op@)[e2.rec_idx@] == old_ops[e2.rec_idx@]);
                        assert(old_ops.push(op@).take(e2.rec_idx@) =~= old_ops.take(e2.rec_idx@));
                    }
                }
            }
            assert(self.wf());
        }
        self.compact_maybe();
        Ok(())
    }

    /// Remove the entry for `key`. Fails with `KeyNotFound` exactly when
    /// the key is absent; otherwise an `Rm` record is appended at the end
    /// of the active log, the entry leaves the index, the stale counter
    /// rises, and reaching the threshold compacts the log.
    pub fn remove(&mut self, key: String) -> (r: Result<(), Error>)
        requires
            old(self).wf(),
        ensures
            final(self).wf(),
            final(self).spec_disk() == old(self).spec_disk(),
            old(self)@.contains_key(key@) ==> r is Ok && final(self)@ == old(self)@.remove(key@),
            !old(self)@.contains_key(key@) ==> (r matches Err(e) && (e matches Error::KeyNotFound {
                key: k,
            } && k@ == key@) && *final(self) == *old(self)),
            old(self)@.contains_key(key@) ==> {
                &&& old(self).spec_active_file_num() < u64::MAX ==> final(
                    self).spec_stale_count() < COMPACTION_LIMIT
                &&& (final(self).spec_num_files() == old(self).spec_num_files()
                    || final(self).spec_num_files() == 1)
                &&& ({
                    let appended = apply_effect_v(
                        old(self).spec_files(),
                        LogEffectView::Append {
                            file_num: old(self).spec_active_file_num(),
                            bytes: spec_encode_op(OpView::Rm { key: key@ }),
                        },
                    );
                    ||| {
                        &&& final(self).spec_files() == appended
                        &&& final(self).spec_active_file_num() == old(
                            self).spec_active_file_num()
                        &&& final(self).spec_stale_count() == (if old(self).spec_stale_count()
                            < COMPACTION_LIMIT {
                            (old(self).spec_stale_count() + 1) as u16
                        } else {
                            old(self).spec_stale_count()
                        })
                    }
                    ||| {
                        &&& compacted_shape(*final(self))
                        &&& final(self).spec_active_file_num() == old(self).spec_active_file_num()
                            + 1
                    }
                })
            },
    {
        proof {
            lemma_entries_map_contains(self.index@, key@);
        }
        let idx = match find_entry(&self.index, &key) {
            Some(i) => i,
            None => {
                return Err(Error::KeyNotFound { key });
            },
        };
        let ghost kk = key@;
        let op = Op::Rm { key };
        let rec = encode_op(&op);
        let rec2 = encode_op(&op);
        let li = self.files.len() - 1;
        let fnum = self.monotonic;
        let mut active = self.files.pop().unwrap();
        let ghost old_ops = active.ops@;
        let mut rec_m = rec;
        active.data.append(&mut rec_m);
        proof {
            active.ops@ = old_ops.push(op@);
            lemma_records_bytes_push(old_ops, op@);
        }
        let ghost new_active = active;
        self.files.push(active);
        self.pending.push(LogEffect::Append { file_num: fnum, bytes: rec2 });
        proof {
            let of = old(self).files@;
            assert(self.files@ =~= of.drop_last().push(new_active));
            lemma_all_ops_active_push(of, new_active, op@);
            lemma_replay_push(all_ops(of), op@);
            assert(ops_encodable(old_ops)) by {
                assert(of[of.len() - 1].ops@ == old_ops);
            }
            assert(ops_encodable(old_ops.push(op@))) by {
                assert forall|i: int| 0 <= i < old_ops.push(op@).len() implies op_encodable(
                    #[trigger] old_ops.push(op@)[i],
                ) by {
                    if i < old_ops.len() {
                        assert(old_ops.push(op@)[i] == old_ops[i]);
                    }
                }
            }
            let ae = LogEffectView::Append { file_num: fnum, bytes: spec_encode_op(op@) };
            assert(effects_view(self.pending@) =~= effects_view(old(self).pending@).push(ae));
            lemma_apply_effects_push(self.disk@, effects_view(old(self).pending@), ae);
            let fv_old = files_view(of);
            assert(fv_old.last().file_num == fnum);
            assert(apply_effect_v(fv_old, ae) =~~= files_view(self.files@));
            lemma_entries_map_remove(self.index@, idx as int);
        }
        self.index.remove(idx);
        proof {
            self.model@ = self.model@.remove(kk);
            let of = old(self).files@;
            let oi = old(self).index@;
            assert forall|a: int, b: int| 0 <= a < b < self.index@.len() implies (
            #[trigger] self.index@[a].key@) != (#[trigger] self.index@[b].key@) by {
                let a0 = if a < idx as int {
                    a
                } else {
                    a + 1
                };
                let b0 = if b < idx as int {
                    b
                } else {
                    b + 1
                };
                assert(self.index@[a] == oi[a0]);
                assert(self.index@[b] == oi[b0]);
            }
            assert forall|i: int| 0 <= i < self.index@.len() implies entry_ok(
                self.files@,
                #[trigger] self.index@[i],
            ) by {
                let i0 = if i < idx as int {
                    i
                } else {
                    i + 1
                };
                let e2 = oi[i0];
                assert(self.index@[i] == e2);
                assert(entry_ok(of, e2));
                if e2.file_idx < li {
                    assert(self.files@[e2.file_idx as int] == of[e2.file_idx as int]);
                } else {
                    assert(e2.file_idx == li);
                    assert(of[li as int].ops@ == old_ops);
                    assert(old_ops.push(op@)[e2.rec_idx@] == old_ops[e2.rec_idx@]);
                    assert(old_ops.push(op@).take(e2.rec_idx@) =~= old_ops.take(e2.rec_idx@));
                }
            }
            assert(self.wf());
        }
        if self.compactions < COMPACTION_LIMIT {
            self.compactions = self.compactions + 1;
        }
        self.compact_maybe();
        Ok(())
    }

    /// Compact when the stale counter has reached the threshold (and the
    /// file counter can still advance — a machine limit); otherwise leave
    /// the store untouched.
    fn compact_maybe(&mut self)
        requires
            old(self).wf(),
        ensures
            final(self).wf(),
            final(self)@ == old(self)@,
            final(self).spec_disk() == old(self).spec_disk(),
            (old(self).spec_stale_count() >= COMPACTION_LIMIT && old(self).spec_active_file_num()
                < u64::MAX) ==> {
                &&& compacted_shape(*final(self))
                &&& final(self).spec_active_file_num() == old(self).spec_active_file_num() + 1
                &&& final(self).spec_live_count() == old(self).spec_live_count()
            },
            !(old(self).spec_stale_count() >= COMPACTION_LIMIT && old(self).spec_active_file_num()
                < u64::MAX) ==> *final(self) == *old(self),
    {
        if self.compactions >= COMPACTION_LIMIT && self.monotonic < u64::MAX {
            self.compact();
        }
    }

    /// Rewrite the log: one fresh `Put` record per live key goes into a new
    /// log file, every old file is deleted, and the stale counter resets.
    /// The store's map is unchanged, and afterwards the log holds exactly
    /// one record per live key — its size no longer depends on history.
    pub fn compact(&mut self)
        requires
            old(self).wf(),
            old(self).spec_active_file_num() < u64::MAX,
        ensures
            final(self).wf(),
            final(self)@ == old(self)@,
            final(self).spec_disk() == old(self).spec_disk(),
            final(self).spec_num_files() == 1,
            final(self).spec_stale_count() == 0,
            final(self).spec_active_file_num() == old(self).spec_active_file_num() + 1,
            final(self).spec_live_count() == old(self).spec_live_count(),
            final(self).spec_record_count() == final(self).spec_live_count(),
    {
        let new_num = self.monotonic + 1;
        let mut new_data: Vec<u8> = Vec::new();
        let mut new_index: Vec<IndexEntry> = Vec::new();
        let ghost mut new_ops: Seq<OpView> = Seq::empty();
        self.pending.push(LogEffect::Append { file_num: new_num, bytes: Vec::new() });
        proof {
            let e0 = LogEffectView::Append { file_num: new_num, bytes: Seq::empty() };
            assert(effects_view(self.pending@) =~= effects_view(old(self).pending@).push(e0));
            lemma_apply_effects_push(self.disk@, effects_view(old(self).pending@), e0);
            let fv = files_view(old(self).files@);
            assert(fv.last().file_num != new_num);
            assert(apply_effect_v(fv, e0) =~~= fv.push(
                FileView { file_num: new_num, data: new_data@ },
            ));
            assert(records_bytes(new_ops) == Seq::<u8>::empty());
            assert(replay(new_ops) =~= entries_map(new_index@));
            assert(entries_map(old(self).index@.take(0)) =~= Map::<Seq<char>, Seq<char>>::empty());
            assert(entries_map(new_index@) =~= Map::<Seq<char>, Seq<char>>::empty());
        }
        let mut j: usize = 0;
        while j < self.index.len()
            invariant
                old(self).wf(),
                j <= self.index@.len(),
                self.files@ == old(self).files@,
                self.index@ == old(self).index@,
                self.model@ == old(self).model@,
                self.disk@ == old(self).disk@,
                self.monotonic == old(self).monotonic,
                new_num == self.monotonic + 1,
                new_data@ == records_bytes(new_ops),
                ops_encodable(new_ops),
                new_ops.len() == j,
                new_index@.len() == j,
                forall|t: int|
                    0 <= t < j ==> {
                        let ne = #[trigger] new_index@[t];
                        &&& ne.key@ == old(self).index@[t].key@
                        &&& ne.val@ == old(self).index@[t].val@
                        &&& ne.file_idx == 0
                        &&& ne.ptr.file_num == new_num
                        &&& ne.rec_idx@ == t
                        &&& ne.ptr.pos as int == records_bytes(new_ops.take(t)).len()
                    },
                forall|t: int|
                    0 <= t < j ==> #[trigger] new_ops[t] == (OpView::Put {
                        key: old(self).index@[t].key@,
                        value: old(self).index@[t].val@,
                    }),
                entries_map(new_index@) == entries_map(old(self).index@.take(j as int)),
                replay(new_ops) == entries_map(new_index@),
                apply_effects_v(old(self).disk@, effects_view(self.pending@)) =~~= files_view(
                    old(self).files@,
                ).push(FileView { file_num: new_num, data: new_data@ }),
            decreases self.index@.len() - j,
        {
            proof {
                lemma_entry_decodes(self.files@, self.index@[j as int]);
                assert(entry_ok(self.files@, self.index@[j as int]));
            }
            let eptr: LogPtr = self.index[j].ptr;
            let efi: usize = self.index[j].file_idx;
            let value = match value_at_pos(&self.files[efi].data, eptr.pos) {
                Ok(v) => v,
                Err(_) => {
                    proof {
                        assert(false);
                    }
                    String::new()
                },
            };
            let ghost vv = self.index@[j as int].val@;
            let op = Op::Put { key: self.index[j].key.clone(), value };
            let rec = encode_op(&op);
            let rec2 = encode_op(&op);
            let pos64: u64 = new_data.len() as u64;
            let ghost nd0 = new_data@;
            let ghost pend0 = self.pending@;
            let mut rec_m = rec;
            new_data.append(&mut rec_m);
            self.pending.push(LogEffect::Append { file_num: new_num, bytes: rec2 });
            let e = IndexEntry {
                key: self.index[j].key.clone(),
                ptr: LogPtr { file_num: new_num, pos: pos64 },
                file_idx: 0,
                val: Ghost(vv),
                rec_idx: Ghost(j as int),
            };
            let ghost ev = e;
            let ghost ni0 = new_index@;
            new_index.push(e);
            proof {
                let ghost old_new_ops = new_ops;
                new_ops = new_ops.push(op@);
                lemma_records_bytes_push(old_new_ops, op@);
                assert forall|t: int| 0 <= t < j + 1 implies {
                    let ne = #[trigger] new_index@[t];
                    &&& ne.key@ == old(self).index@[t].key@
                    &&& ne.val@ == old(self).index@[t].val@
                    &&& ne.file_idx == 0
                    &&& ne.ptr.file_num == new_num
                    &&& ne.rec_idx@ == t
                    &&& ne.ptr.pos as int == records_bytes(new_ops.take(t)).len()
                } by {
                    if t < j {
                        assert(new_ops.take(t) =~= old_new_ops.take(t));
                    } else {
                        assert(new_ops.take(t) =~= old_new_ops);
                    }
                }
                assert forall|t: int| 0 <= t < j + 1 implies #[trigger] new_ops[t] == (OpView::Put {
                    key: old(self).index@[t].key@,
                    value: old(self).index@[t].val@,
                }) by {
                    if t < j {
                        assert(new_ops[t] == old_new_ops[t]);
                    }
                }
                lemma_entries_map_push(ni0, ev);
                assert(ni0.push(ev) =~= new_index@);
                assert(entries_map(new_index@) == entries_map(ni0).insert(ev.key@, ev.val@));
                let oi = old(self).index@;
                assert(ev.key@ == oi[j as int].key@);
                assert(ev.val@ == oi[j as int].val@);
                assert(oi.take(j + 1).drop_last() =~= oi.take(j as int));
                assert(oi.take(j + 1).last() == oi[j as int]);
                assert(entries_map(oi.take(j + 1)) == entries_map(oi.take(j as int)).insert(
                    oi[j as int].key@,
                    oi[j as int].val@,
                ));
                lemma_replay_push(old_new_ops, op@);
                assert(op@ == (OpView::Put { key: oi[j as int].key@, value: oi[j as int].val@ }));
                assert(replay(new_ops) == replay(old_new_ops).insert(
                    oi[j as int].key@,
                    oi[j as int].val@,
                ));
                let ae = LogEffectView::Append { file_num: new_num, bytes: spec_encode_op(op@) };
                assert(effects_view(self.pending@) =~= effects_view(pend0).push(ae));
                lemma_apply_effects_push(old(self).disk@, effects_view(pend0), ae);
                let fv = files_view(old(self).files@);
                let mid = fv.push(FileView { file_num: new_num, data: nd0 });
                assert(apply_effects_v(old(self).disk@, effects_view(pend0)) =~~= mid);
                assert(mid.last().file_num == new_num);
                assert(apply_effect_v(mid, ae) =~~= fv.push(
                    FileView { file_num: new_num, data: new_data@ },
                ));
            }
            j = j + 1;
        }
        proof {
            assert(old(self).index@.take(self.index@.len() as int) =~= old(self).index@);
        }
        let mut di: usize = 0;
        while di < self.files.len()
            invariant
                old(self).wf(),
                di <= self.files@.len(),
                self.files@ == old(self).files@,
                self.index@ == old(self).index@,
                self.model@ == old(self).model@,
                self.disk@ == old(self).disk@,
                self.monotonic == old(self).monotonic,
                new_num == self.monotonic + 1,
                apply_effects_v(old(self).disk@, effects_view(self.pending@)) =~~= files_view(
                    old(self).files@,
                ).skip(di as int).push(FileView { file_num: new_num, data: new_data@ }),
            decreases self.files@.len() - di,
        {
            let dn = self.files[di].file_num;
            let ghost pend0 = self.pending@;
            self.pending.push(LogEffect::Delete { file_num: dn });
            proof {
                let de = LogEffectView::Delete { file_num: dn };
                assert(effects_view(self.pending@) =~= effects_view(pend0).push(de));
                lemma_apply_effects_push(old(self).disk@, effects_view(pend0), de);
                let fv = files_view(old(self).files@);
                let newfv = FileView { file_num: new_num, data: new_data@ };
                let s = fv.skip(di as int);
                let cur = s.push(newfv);
                assert(apply_effects_v(old(self).disk@, effects_view(pend0)) =~~= cur);
                assert(dn == old(self).files@[di as int].file_num);
                assert(dn < new_num) by {
                    let lastn = old(self).files@[old(self).files@.len() - 1].file_num;
                    assert(lastn == old(self).monotonic);
                    if (di as int) < old(self).files@.len() - 1 {
                        assert(old(self).files@[di as int].file_num < lastn);
                    }
                }
                assert(cur.drop_last() =~= s);
                assert(cur.last() == newfv);
                assert(remove_file_num(cur, dn) == remove_file_num(s, dn).push(newfv));
                assert(s.len() > 0);
                assert(s[0].file_num == dn);
                assert forall|i: int| 0 < i < s.len() implies (#[trigger] s[i].file_num) != dn by {
                    assert(s[i] == fv[di as int + i]);
                    assert(old(self).files@[di as int].file_num < old(self).files@[di as int
                        + i].file_num);
                }
                lemma_remove_head(s, dn);
                assert(s.drop_first() =~= fv.skip(di as int + 1));
            }
            di = di + 1;
        }
        let ghost ni = new_index@;
        let ghost nd = new_data@;
        let mut nf_vec: Vec<LogFile> = Vec::new();
        nf_vec.push(LogFile { file_num: new_num, data: new_data, ops: Ghost(new_ops) });
        self.files = nf_vec;
        self.index = new_index;
        self.monotonic = new_num;
        self.compactions = 0;
        proof {
            let nf = self.files@[0];
            assert(self.files@ =~= seq![nf]);
            assert(nf.ops@ == new_ops && nf.data@ == nd && nf.file_num == new_num);
            assert(seq![nf].drop_last() =~= Seq::<LogFile>::empty());
            assert(all_ops(Seq::<LogFile>::empty()) == Seq::<OpView>::empty());
            assert(all_ops(self.files@) =~= new_ops);
            assert(self.index@ == ni);
            let oi = old(self).index@;
            assert forall|a: int, b: int| 0 <= a < b < ni.len() implies (#[trigger] ni[a].key@)
                != (#[trigger] ni[b].key@) by {
                assert(ni[a].key@ == oi[a].key@);
                assert(ni[b].key@ == oi[b].key@);
            }
            assert forall|t: int| 0 <= t < ni.len() implies entry_ok(
                self.files@,
                #[trigger] ni[t],
            ) by {
                assert(new_ops[t] == (OpView::Put { key: oi[t].key@, value: oi[t].val@ }));
                assert(ni[t].key@ == oi[t].key@ && ni[t].val@ == oi[t].val@);
            }
            assert(entries_map(ni) == entries_map(oi));
            assert(self.model@ == entries_map(self.index@));
            assert(replay(all_ops(self.files@)) == self.model@);
            let fv = files_view(old(self).files@);
            assert(fv.skip(fv.len() as int) =~= Seq::<FileView>::empty());
            assert(Seq::<FileView>::empty().push(FileView { file_num: new_num, data: nd })
                =~= seq![FileView { file_num: new_num, data: nd }]);
            assert(files_view(self.files@) =~~= seq![FileView { file_num: new_num, data: nd }]);
            assert(apply_effects_v(self.disk@, effects_view(self.pending@)) == files_view(
                self.files@,
            ));
            assert(self.wf());
        }
    }

    /// Total number of records across all log files.
    pub closed spec fn spec_record_count(self) -> nat {
        all_ops(self.files@).len()
    }
}

/// Apply one effect to a directory image, the way the surrounding process
/// applies it to the real directory: append to (or create) one `<N>.log`
/// file, cut one down, or remove one.
pub fn apply_effect(disk: &mut Vec<DiskFile>, eff: &LogEffect)
    ensures
        disk_files_view(final(disk)@) == apply_effect_v(disk_files_view(old(disk)@), eff@),
{
    match eff {
        LogEffect::Append { file_num, bytes } => {
            let n = disk.len();
            if n > 0 && disk[n - 1].file_num == *file_num {
                let mut f = disk.pop().unwrap();
                let mut tail: Vec<u8> = vstd::slice::slice_to_vec(bytes.as_slice());
                f.data.append(&mut tail);
                disk.push(f);
                proof {
                    let before = disk_files_view(old(disk)@);
                    assert(disk_files_view(disk@) =~~= before.update(
                        before.len() - 1,
                        FileView { file_num: *file_num, data: before.last().data + bytes@ },
                    ));
                }
            } else {
                disk.push(
                    DiskFile { file_num: *file_num, data: vstd::slice::slice_to_vec(bytes.as_slice()) },
                );
                proof {
                    let before = disk_files_view(old(disk)@);
                    assert(disk_files_view(disk@) =~~= before.push(
                        FileView { file_num: *file_num, data: bytes@ },
                    ));
                }
            }
        },
        LogEffect::Truncate { file_num, len } => {
            let mut i: usize = 0;
            while i < disk.len()
                invariant
                    i <= disk@.len(),
                    disk@.len() == old(disk)@.len(),
                    eff@ == (LogEffectView::Truncate { file_num: *file_num, len: *len }),
                    forall|t: int|
                        0 <= t < i ==> (#[trigger] disk@[t])@ == apply_effect_v(
                            disk_files_view(old(disk)@),
                            eff@,
                        )[t],
                    forall|t: int| i <= t < disk@.len() ==> #[trigger] disk@[t] == old(disk)@[t],
                decreases disk@.len() - i,
            {
                if disk[i].file_num == *file_num && *len < disk[i].data.len() as u64 {
                    let ghost pre = disk@;
                    let mut f = disk.remove(i);
                    f.data.truncate(*len as usize);
                    let ghost f2 = f;
                    disk.insert(i, f);
                    proof {
                        assert(disk@ =~= pre.update(i as int, f2));
                        assert(f2@.data =~= pre[i as int]@.data.take(*len as int));
                    }
                }
                i = i + 1;
            }
            proof {
                assert(disk_files_view(disk@) =~~= apply_effect_v(
                    disk_files_view(old(disk)@),
                    eff@,
                ));
            }
        },
        LogEffect::Delete { file_num } => {
            let ghost orig = disk@;
            let mut src: Vec<DiskFile> = Vec::new();
            core::mem::swap(disk, &mut src);
            proof {
                assert(disk_files_view(orig.take(0)) =~= Seq::<FileView>::empty());
                assert(remove_file_num(Seq::<FileView>::empty(), *file_num)
                    == Seq::<FileView>::empty());
                assert(disk_files_view(disk@) =~= Seq::<FileView>::empty());
            }
            while src.len() > 0
                invariant
                    src@.len() <= orig.len(),
                    src@ =~= orig.skip(orig.len() - src@.len()),
                    disk_files_view(disk@) == remove_file_num(
                        disk_files_view(orig.take(orig.len() - src@.len())),
                        *file_num,
                    ),
                decreases src@.len(),
            {
                let ghost p = orig.len() - src@.len();
                let f = src.remove(0);
                proof {
                    assert(f == orig[p]);
                    assert(src@ =~= orig.skip(p + 1));
                    assert(disk_files_view(orig.take(p + 1)) =~= disk_files_view(
                        orig.take(p),
                    ).push(orig[p]@));
                    let s = disk_files_view(orig.take(p));
                    assert(s.push(orig[p]@).drop_last() =~= s);
                    assert(s.push(orig[p]@).last() == orig[p]@);
                }
                if f.file_num != *file_num {
                    disk.push(f);
                    proof {
                        assert(disk_files_view(disk@) =~~= remove_file_num(
                            disk_files_view(orig.take(p)),
                            *file_num,
                        ).push(orig[p]@));
                    }
                }
            }
            proof {
                assert(orig.take(orig.len() as int) =~= orig);
            }
        },
    }
}

/// Apply a whole batch of effects to a directory image, in order: what
/// the surrounding process does with everything `take_effects` handed
/// over. Afterwards the image equals the store's own file images.
pub fn apply_effects(disk: &mut Vec<DiskFile>, effs: &Vec<LogEffect>)
    ensures
        disk_files_view(final(disk)@) == apply_effects_v(
            disk_files_view(old(disk)@),
            effects_view(effs@),
        ),
{
    let ghost orig = disk_files_view(disk@);
    let mut i: usize = 0;
    proof {
        assert(effects_view(effs@).take(0) =~= Seq::<LogEffectView>::empty());
    }
    while i < effs.len()
        invariant
            i <= effs@.len(),
            disk_files_view(disk@) == apply_effects_v(orig, effects_view(effs@).take(i as int)),
        decreases effs@.len() - i,
    {
        apply_effect(disk, &effs[i]);
        proof {
            let evs = effects_view(effs@);
            assert(evs.take(i + 1) =~= evs.take(i as int).push(evs[i as int]));
            lemma_apply_effects_push(orig, evs.take(i as int), evs[i as int]);
        }
        i = i + 1;
    }
    proof {
        assert(effects_view(effs@).take(effs@.len() as int) =~= effects_view(effs@));
    }
}

/// Read the value of the record at byte offset `pos` of a log file image.
/// The record there must be a `Put`: an `Rm` means the index is corrupt,
/// and undecodable bytes are a serialization failure.
pub fn value_at_pos(data: &Vec<u8>, pos: u64) -> (r: Result<String, Error>)
    ensures
        match spec_decode_op_at(data@, pos as int) {
            Some((op, end)) => match op {
                OpView::Put { key, value } => r matches Ok(s) && s@ == value,
                OpView::Rm { key } => r matches Err(e) && e is Corruption,
            },
            None => r matches Err(e) && e is Serialization,
        },
{
    if pos > data.len() as u64 {
        return Err(Error::Serialization { msg: String::from_str("no record at position") });
    }
    match decode_op_at(data, pos as usize) {
        Some((Op::Put { key: _, value }, _)) => Ok(value),
        Some((Op::Rm { key: _ }, _)) => Err(Error::Corruption),
        None => Err(Error::Serialization { msg: String::from_str("no record at position") }),
    }
}

impl KvStore {
    /// Reopen idempotence: replaying a well-formed store's own log files
    /// from scratch — what `open` does after a close — rebuilds exactly
    /// the store's current map.
    pub proof fn lemma_reopen(self)
        requires
            self.wf(),
        ensures
            disk_replay(self.spec_files()) == self@,
    {
        lemma_disk_ops_of_clean(self.files@);
    }

    /// A well-formed store's file images carry strictly ascending file
    /// numbers, one image per log file. Together with `take_effects` and
    /// `apply_effects` this lets the close-and-reopen chain compose: the
    /// images satisfy exactly what `open` requires of a directory.
    pub proof fn lemma_files_ascending(self)
        requires
            self.wf(),
        ensures
            self.spec_files().len() == self.spec_num_files(),
            forall|i: int, j: int|
                0 <= i < j < self.spec_files().len() ==> (#[trigger] self.spec_files()[i]).file_num
                    < (#[trigger] self.spec_files()[j]).file_num,
    {
        assert forall|i: int, j: int|
            0 <= i < j < self.spec_files().len() implies (#[trigger] self.spec_files()[
        i]).file_num < (#[trigger] self.spec_files()[j]).file_num by {
            assert(self.spec_files()[i].file_num == self.files@[i].file_num);
            assert(self.spec_files()[j].file_num == self.files@[j].file_num);
        }
    }

    /// The active log is always the newest: its number dominates every
    /// log file the store holds.
    pub proof fn lemma_active_is_newest(self)
        requires
            self.wf(),
        ensures
            self.spec_files().len() >= 1,
            forall|i: int|
                0 <= i < self.spec_files().len() ==> (#[trigger] self.spec_files()[i]).file_num
                    <= self.spec_active_file_num(),
    {
        assert forall|i: int| 0 <= i < self.spec_files().len() implies (
        #[trigger] self.spec_files()[i]).file_num <= self.spec_active_file_num() by {
            if i < self.files@.len() - 1 {
                assert(self.files@[i].file_num < self.files@[self.files@.len() - 1].file_num);
            }
        }
    }
}

/// Get-after-set: once `k` is bound to `v`, looking `k` up yields `v`.
/// Together with the contracts of `set` and `get` this pins the observable
/// behaviour of a write followed by a read.
pub proof fn lemma_get_after_set(m: Map<Seq<char>, Seq<char>>, k: Seq<char>, v: Seq<char>)
    ensures
        m.insert(k, v).contains_key(k),
        m.insert(k, v)[k] == v,
{
}

/// Get-after-remove: once `k` is removed, looking `k` up finds nothing.
pub proof fn lemma_get_after_remove(m: Map<Seq<char>, Seq<char>>, k: Seq<char>)
    ensures
        !m.remove(k).contains_key(k),
{
}

/// The map after binding `k` to each value of `vs` in turn.
pub open spec fn set_all(m: Map<Seq<char>, Seq<char>>, k: Seq<char>, vs: Seq<Seq<char>>) -> Map<
    Seq<char>,
    Seq<char>,
>
    decreases vs.len(),
{
    if vs.len() == 0 {
        m
    } else {
        set_all(m, k, vs.drop_last()).insert(k, vs.last())
    }
}

/// Overwrite: after a whole run of writes to one key, a read sees the last
/// value written.
pub proof fn lemma_overwrite(m: Map<Seq<char>, Seq<char>>, k: Seq<char>, vs: Seq<Seq<char>>)
    requires
        vs.len() > 0,
    ensures
        set_all(m, k, vs).contains_key(k),
        set_all(m, k, vs)[k] == vs.last(),
{
}

/// The record an index entry points at decodes to that entry's key and
/// value: the bytes at `ptr.pos` of the entry's file are its `Put` record.
proof fn lemma_entry_decodes(files: Seq<LogFile>, e: IndexEntry)
    requires
        forall|i: int|
            0 <= i < files.len() ==> (#[trigger] files[i].data@) == records_bytes(files[i].ops@),
        forall|i: int| 0 <= i < files.len() ==> ops_encodable(#[trigger] files[i].ops@),
        entry_ok(files, e),
    ensures
        spec_decode_op_at(files[e.file_idx as int].data@, e.ptr.pos as int) matches Some((op, end))
            && op == (OpView::Put { key: e.key@, value: e.val@ }),
{
    let f = files[e.file_idx as int];
    let ops = f.ops@;
    let i = e.rec_idx@;
    let op = ops[i];
    assert(op_encodable(op));
    lemma_records_bytes_concat(ops.take(i), ops.skip(i));
    assert(ops.take(i) + ops.skip(i) =~= ops);
    assert(ops.skip(i).len() > 0);
    assert(ops.skip(i).first() == op);
    assert(records_bytes(ops.skip(i)) == spec_encode_op(op) + records_bytes(ops.skip(i).drop_first()));
    let pos = e.ptr.pos as int;
    let enc = spec_encode_op(op);
    assert(f.data@.subrange(pos, pos + enc.len()) =~= enc) by {
        assert(f.data@ =~= records_bytes(ops.take(i)) + records_bytes(ops.skip(i)));
        assert(records_bytes(ops.skip(i)).subrange(0, enc.len() as int) =~= enc);
    }
    lemma_decode_op_encoded(f.data@, pos, op);
}

} // verus!
