//! The store: segment files with rotation, the write buffer and its flush,
//! point deletion, start-up loading and time-to-live eviction.
//!
//! The library holds what the segment files hold; the caller performs the file
//! operations. After an operation that appends, the segments from the one that
//! was active before (or from the former end, where none was) up to the last
//! one are to be written out; after a deletion, the segment it reports.
use vstd::prelude::*;
use crate::codec::{Entry, EntryModel, models, encode_segment, decode_segment, parse_segment, copy_range};
use crate::error::DbError;
use crate::ttl::Ttl;
use crate::MAX_ENTRIES_PER_FILE;

verus! {

/// One segment file: its name and its records, in file order.
pub struct Segment {
    pub name: String,
    pub entries: Vec<Entry>,
}

/// The records of every segment, and which segment takes appends.
pub struct Layout {
    pub segments: Seq<Seq<EntryModel>>,
    pub active: Option<int>,
}

pub open spec fn seg_models(segs: Seq<Segment>) -> Seq<Seq<EntryModel>> {
    segs.map_values(|s: Segment| models(s.entries@))
}

/// Appends `e` to the active segment, opening a new last segment when none is
/// active; when the segment reaches capacity, a new empty segment is opened
/// after the last one and becomes active.
pub open spec fn put(m: Layout, e: EntryModel) -> Layout {
    let segs = match m.active {
        Some(a) => m.segments,
        None => m.segments.push(Seq::empty()),
    };
    let a = match m.active {
        Some(a) => a,
        None => m.segments.len() as int,
    };
    let s = segs[a].push(e);
    let filled = segs.update(a, s);
    if s.len() < MAX_ENTRIES_PER_FILE {
        Layout { segments: filled, active: Some(a) }
    } else {
        Layout { segments: filled.push(Seq::empty()), active: Some(filled.len() as int) }
    }
}

/// Appends each of `es` in turn.
pub open spec fn put_all(m: Layout, es: Seq<EntryModel>) -> Layout
    decreases es.len(),
{
    if es.len() == 0 {
        m
    } else {
        put_all(put(m, es[0]), es.drop_first())
    }
}

/// The last segment with room left, if any: the one that takes appends after
/// loading.
pub open spec fn last_incomplete(segs: Seq<Seq<EntryModel>>) -> Option<int>
    decreases segs.len(),
{
    if segs.len() == 0 {
        None
    } else if segs.last().len() < MAX_ENTRIES_PER_FILE {
        Some(segs.len() - 1)
    } else {
        last_incomplete(segs.drop_last())
    }
}

/// All records of all segments, segment after segment.
pub open spec fn flatten(segs: Seq<Seq<EntryModel>>) -> Seq<EntryModel>
    decreases segs.len(),
{
    if segs.len() == 0 {
        Seq::empty()
    } else {
        flatten(segs.drop_last()) + segs.last()
    }
}

/// Record `i` of segment `s` is the first record with identifier `id`:
/// no earlier segment holds it, nor an earlier position of segment `s`.
pub open spec fn first_match(segs: Seq<Seq<EntryModel>>, s: int, i: int, id: Seq<u8>) -> bool {
    &&& 0 <= s < segs.len()
    &&& 0 <= i < segs[s].len()
    &&& segs[s][i].id == id
    &&& forall|j: int| 0 <= j < i ==> #[trigger] segs[s][j].id != id
    &&& forall|t: int, j: int| 0 <= t < s && 0 <= j < segs[t].len() ==> #[trigger] segs[t][j].id != id
}

/// `after` is `before` with record `i` of segment `s`, the first record with
/// identifier `id`, taken out.
pub open spec fn removed_first(
    before: Seq<Seq<EntryModel>>,
    after: Seq<Seq<EntryModel>>,
    s: int,
    i: int,
    id: Seq<u8>,
) -> bool {
    first_match(before, s, i, id) && after == before.update(s, before[s].remove(i))
}

/// The segments after deleting the first record `id` where one exists, and
/// the segment it was taken from.
pub open spec fn delete_first(segs: Seq<Seq<EntryModel>>, id: Seq<u8>) -> (Seq<Seq<EntryModel>>, Option<int>) {
    if exists|s: int, i: int| #[trigger] first_match(segs, s, i, id) {
        let (s, i) = choose|s: int, i: int| #[trigger] first_match(segs, s, i, id);
        (segs.update(s, segs[s].remove(i)), Some(s))
    } else {
        (segs, None)
    }
}

/// Deletes, for each identifier of `ids` in order, its first record where one
/// exists: the resulting segments, and the segment of each deletion in order.
pub open spec fn sweep(segs: Seq<Seq<EntryModel>>, ids: Seq<Seq<u8>>) -> (Seq<Seq<EntryModel>>, Seq<int>)
    decreases ids.len(),
{
    if ids.len() == 0 {
        (segs, Seq::empty())
    } else {
        let (p, r) = sweep(segs, ids.drop_last());
        let (q, s) = delete_first(p, ids.last());
        (q, match s {
            Some(s) => r.push(s),
            None => r,
        })
    }
}

proof fn lemma_first_match_unique(segs: Seq<Seq<EntryModel>>, s: int, i: int, t: int, j: int, id: Seq<u8>)
    requires
        first_match(segs, s, i, id),
        first_match(segs, t, j, id),
    ensures
        s == t && i == j,
{
    if s < t {
        assert(segs[s][i].id != id);
    } else if t < s {
        assert(segs[t][j].id != id);
    } else if i < j {
        assert(segs[s][i].id != id);
    } else if j < i {
        assert(segs[t][j].id != id);
    }
}

proof fn lemma_delete_first_found(
    before: Seq<Seq<EntryModel>>,
    after: Seq<Seq<EntryModel>>,
    s: int,
    i: int,
    id: Seq<u8>,
)
    requires
        removed_first(before, after, s, i, id),
    ensures
        delete_first(before, id) == (after, Some(s)),
{
    let (t, j) = choose|t: int, j: int| #[trigger] first_match(before, t, j, id);
    lemma_first_match_unique(before, s, i, t, j, id);
}

proof fn lemma_delete_first_absent(segs: Seq<Seq<EntryModel>>, id: Seq<u8>)
    requires
        absent(segs, id),
    ensures
        delete_first(segs, id) == (segs, Option::<int>::None),
{
    if exists|s: int, i: int| #[trigger] first_match(segs, s, i, id) {
        let (s, i) = choose|s: int, i: int| #[trigger] first_match(segs, s, i, id);
        assert(segs[s][i].id != id);
    }
}

/// No segment holds a record with identifier `id`.
pub open spec fn absent(segs: Seq<Seq<EntryModel>>, id: Seq<u8>) -> bool {
    forall|t: int, j: int| 0 <= t < segs.len() && 0 <= j < segs[t].len() ==> #[trigger] segs[t][j].id != id
}

/// The deadlines registered for `es` at instant `now`, one for each record
/// that carries a time-to-live, in order.
pub open spec fn registrations(es: Seq<EntryModel>, now: u64) -> Seq<(Seq<u8>, u64)>
    decreases es.len(),
{
    if es.len() == 0 {
        Seq::empty()
    } else {
        let r = registrations(es.drop_last(), now);
        match es.last().ttl {
            Some(t) => r.push((es.last().id, (now + t) as u64)),
            None => r,
        }
    }
}

/// Bytes reckoned for one buffered record when the buffer is weighed against
/// the flush threshold.
pub const RECORD_FOOTPRINT: usize = 64;

/// Kilobytes that `n` buffered records are reckoned to take.
pub open spec fn footprint_kb(n: nat) -> nat {
    n * RECORD_FOOTPRINT as nat / 1000
}

/// Relies on uuid::Uuid::new_v4 and its text form: a fresh random name for a
/// new segment file. Nothing is promised of the name.
#[verifier::external_body]
fn fresh_segment_name() -> (r: String) {
    uuid::Uuid::new_v4().to_string()
}

/// Whether two byte strings are equal.
pub fn same_bytes(a: &Vec<u8>, b: &Vec<u8>) -> (r: bool)
    ensures
        r == (a@ == b@),
{
    if a.len() != b.len() {
        return false;
    }
    let mut i: usize = 0;
    while i < a.len()
        invariant
            i <= a@.len(),
            a@.len() == b@.len(),
            a@.take(i as int) == b@.take(i as int),
        decreases a@.len() - i,
    {
        if a[i] != b[i] {
            assert(a@[i as int] != b@[i as int]);
            return false;
        }
        assert(a@.take(i + 1) =~= a@.take(i as int).push(a@[i as int]));
        assert(b@.take(i + 1) =~= b@.take(i as int).push(b@[i as int]));
        i = i + 1;
    }
    assert(a@.take(i as int) =~= a@);
    assert(b@.take(i as int) =~= b@);
    true
}

fn copy_entry(e: &Entry) -> (r: Entry)
    ensures
        r@ == e@,
{
    let id = copy_range(&e.id, 0, e.id.len());
    let data = copy_range(&e.data, 0, e.data.len());
    assert(e.id@.subrange(0, e.id@.len() as int) =~= e.id@);
    assert(e.data@.subrange(0, e.data@.len() as int) =~= e.data@);
    Entry { id, ttl: e.ttl, data }
}

/// One instance of the store.
pub struct Instance {
    segments: Vec<Segment>,
    active: Option<usize>,
    /// The records found at start-up.
    pub entries: Vec<Entry>,
    memtable: Vec<Entry>,
    /// Above how many kilobytes buffered records are written out; 0 writes
    /// every record at once.
    memtable_flush_size_in_kb: usize,
    ttl: Ttl,
}

impl Instance {
    pub closed spec fn layout(&self) -> Layout {
        Layout {
            segments: seg_models(self.segments@),
            active: match self.active {
                Some(a) => Some(a as int),
                None => None,
            },
        }
    }

    pub closed spec fn names(&self) -> Seq<Seq<char>> {
        self.segments@.map_values(|s: Segment| s.name@)
    }

    pub closed spec fn buffered(&self) -> Seq<EntryModel> {
        models(self.memtable@)
    }

    pub closed spec fn threshold(&self) -> usize {
        self.memtable_flush_size_in_kb
    }

    pub closed spec fn schedule(&self) -> Seq<(Seq<u8>, u64)> {
        self.ttl.view()
    }

    pub closed spec fn world(&self) -> Seq<EntryModel> {
        models(self.entries@)
    }

    /// The active segment, if any, exists and has room.
    pub closed spec fn wf(&self) -> bool {
        match self.active {
            Some(a) => a < self.segments@.len() && self.segments@[a as int].entries@.len()
                < MAX_ENTRIES_PER_FILE,
            None => true,
        }
    }

    fn put_entry(&mut self, e: Entry)
        requires
            old(self).wf(),
        ensures
            final(self).wf(),
            final(self).layout() == put(old(self).layout(), e@),
            final(self).names().len() >= old(self).names().len(),
            final(self).names().take(old(self).names().len() as int) == old(self).names(),
            final(self).memtable == old(self).memtable,
            final(self).entries == old(self).entries,
            final(self).ttl == old(self).ttl,
            final(self).memtable_flush_size_in_kb == old(self).memtable_flush_size_in_kb,
    {
        let ghost m = self.layout();
        let ghost names0 = self.names();
        let a: usize = match self.active {
            Some(a) => a,
            None => {
                let name = fresh_segment_name();
                let fresh: Vec<Entry> = Vec::new();
                assert(models(fresh@) =~= Seq::<EntryModel>::empty());
                self.segments.push(Segment { name, entries: fresh });
                assert(seg_models(self.segments@) =~= m.segments.push(Seq::empty()));
                self.segments.len() - 1
            },
        };
        assert(self.names().take(names0.len() as int) =~= names0);
        let ghost segs = seg_models(self.segments@);
        let ghost before = self.segments@[a as int].entries@;
        self.segments[a].entries.push(e);
        let n = self.segments[a].entries.len();
        assert(models(self.segments@[a as int].entries@) =~= models(before).push(e@));
        assert(seg_models(self.segments@) =~= segs.update(a as int, segs[a as int].push(e@)));
        if n < MAX_ENTRIES_PER_FILE {
            self.active = Some(a);
        } else {
            let ghost filled = seg_models(self.segments@);
            let name = fresh_segment_name();
            let fresh: Vec<Entry> = Vec::new();
            assert(models(fresh@) =~= Seq::<EntryModel>::empty());
            self.segments.push(Segment { name, entries: fresh });
            assert(seg_models(self.segments@) =~= filled.push(Seq::empty()));
            self.active = Some(self.segments.len() - 1);
        }
        assert(self.names().take(names0.len() as int) =~= names0);
    }

    /// Writes every buffered record out, in order, filling the active segment
    /// to capacity and continuing in new segments as needed; the buffer is then
    /// empty.
    pub fn flush(&mut self) -> (r: Result<(), DbError>)
        requires
            old(self).wf(),
        ensures
            r is Ok,
            final(self).wf(),
            final(self).layout() == put_all(old(self).layout(), old(self).buffered()),
            final(self).buffered() == Seq::<EntryModel>::empty(),
            final(self).names().take(old(self).names().len() as int) == old(self).names(),
            final(self).world() == old(self).world(),
            final(self).schedule() == old(self).schedule(),
            final(self).threshold() == old(self).threshold(),
    {
        let ghost m0 = self.layout();
        let ghost names0 = self.names();
        let mut pending: Vec<Entry> = Vec::new();
        std::mem::swap(&mut pending, &mut self.memtable);
        let ghost all = models(pending@);
        let mut i: usize = 0;
        assert(all.skip(0) =~= all);
        assert(self.layout() == m0);
        while i < pending.len()
            invariant
                self.wf(),
                i <= pending@.len(),
                all == models(pending@),
                put_all(self.layout(), all.skip(i as int)) == put_all(m0, all),
                self.names().len() >= names0.len(),
                self.names().take(names0.len() as int) == names0,
                self.memtable@.len() == 0,
                self.entries == old(self).entries,
                self.ttl == old(self).ttl,
                self.memtable_flush_size_in_kb == old(self).memtable_flush_size_in_kb,
            decreases pending@.len() - i,
        {
            let e = copy_entry(&pending[i]);
            let ghost prev_names = self.names();
            let ghost lay = self.layout();
            self.put_entry(e);
            proof {
                let s = all.skip(i as int);
                assert(s[0] == all[i as int]);
                assert(s.drop_first() =~= all.skip(i + 1));
                assert(self.names().take(names0.len() as int) =~= prev_names.take(
                    prev_names.len() as int,
                ).take(names0.len() as int));
                assert(prev_names.take(prev_names.len() as int) =~= prev_names);
            }
            i = i + 1;
        }
        assert(all.skip(i as int) =~= Seq::<EntryModel>::empty());
        assert(models(self.memtable@) =~= Seq::<EntryModel>::empty());
        Ok(())
    }

    /// Stores one record, registering its deadline first when it carries a
    /// time-to-live. With a threshold of 0 the record goes straight to the
    /// active segment; otherwise it is buffered, and the buffer is flushed once
    /// it takes more kilobytes than the threshold. Fails, changing nothing,
    /// when the deadline `now + ttl` does not fit in a `u64`.
    pub fn set(&mut self, data: Entry, now: u64) -> (r: Result<(), DbError>)
        requires
            old(self).wf(),
        ensures
            final(self).wf(),
            final(self).world() == old(self).world(),
            final(self).threshold() == old(self).threshold(),
            final(self).names().take(old(self).names().len() as int) == old(self).names(),
            r is Err <==> (data.ttl matches Some(t) && now + t > u64::MAX),
            r is Err ==> r == Err::<(), DbError>(DbError::Unspecified) && final(self).layout()
                == old(self).layout() && final(self).buffered() == old(self).buffered()
                && final(self).schedule() == old(self).schedule(),
            r is Ok ==> final(self).schedule() == match data.ttl {
                Some(t) => old(self).schedule().push((data.id@, (now + t) as u64)),
                None => old(self).schedule(),
            },
            r is Ok && old(self).threshold() == 0 ==> final(self).layout() == put(
                old(self).layout(),
                data@,
            ) && final(self).buffered() == old(self).buffered(),
            r is Ok && old(self).threshold() > 0 ==> ({
                let b = old(self).buffered().push(data@);
                if old(self).threshold() < footprint_kb(b.len()) {
                    final(self).layout() == put_all(old(self).layout(), b)
                        && final(self).buffered() == Seq::<EntryModel>::empty()
                } else {
                    final(self).layout() == old(self).layout() && final(self).buffered() == b
                }
            }),
    {
        if let Some(t) = data.ttl {
            let id = copy_range(&data.id, 0, data.id.len());
            assert(data.id@.subrange(0, data.id@.len() as int) =~= data.id@);
            let added = self.ttl.add_entry(id, now, t);
            if added.is_err() {
                return Err(DbError::Unspecified);
            }
        }
        if self.memtable_flush_size_in_kb == 0 {
            self.put_entry(data);
            assert(self.names().take(old(self).names().len() as int) == old(self).names());
        } else {
            let ghost b0 = models(self.memtable@);
            self.memtable.push(data);
            assert(models(self.memtable@) =~= b0.push(data@));
            let used: u128 = (self.memtable.len() as u128) * (RECORD_FOOTPRINT as u128) / 1000;
            if (self.memtable_flush_size_in_kb as u128) < used {
                let _ = self.flush();
            } else {
                assert(self.names().take(old(self).names().len() as int) =~= old(self).names());
            }
        }
        Ok(())
    }

    /// Where the record `id` is stored: the first segment that holds it, and
    /// the position of its first occurrence there. The search runs over the
    /// records the store holds, so it sees every record written since start-up.
    pub fn locate(&self, id: &Vec<u8>) -> (r: Option<(usize, usize)>)
        ensures
            match r {
                Some((s, i)) => first_match(self.layout().segments, s as int, i as int, id@),
                None => absent(self.layout().segments, id@),
            },
    {
        let ghost segs = self.layout().segments;
        let mut s: usize = 0;
        while s < self.segments.len()
            invariant
                segs == self.layout().segments,
                s <= self.segments@.len(),
                forall|t: int, j: int| 0 <= t < s && 0 <= j < segs[t].len() ==> #[trigger] segs[t][j].id
                    != id@,
            decreases self.segments@.len() - s,
        {
            let entries = &self.segments[s].entries;
            assert(segs[s as int] == models(entries@));
            let mut i: usize = 0;
            while i < entries.len()
                invariant
                    segs == self.layout().segments,
                    s < self.segments@.len(),
                    segs[s as int] == models(entries@),
                    i <= entries@.len(),
                    forall|j: int| 0 <= j < i ==> #[trigger] segs[s as int][j].id != id@,
                    forall|t: int, j: int| 0 <= t < s && 0 <= j < segs[t].len() ==> #[trigger] segs[t][j].id
                        != id@,
                decreases entries@.len() - i,
            {
                if same_bytes(&entries[i].id, id) {
                    return Some((s, i));
                }
                i = i + 1;
            }
            s = s + 1;
        }
        None
    }

    /// Deletes the record `id`: its first occurrence is taken out of the first
    /// segment that holds it, every other record keeping its place; the
    /// segment and the position the record had there are returned. Buffered
    /// records are not searched. Fails, changing nothing, when no segment holds
    /// the identifier.
    pub fn delete(&mut self, id: Vec<u8>) -> (r: Result<(usize, usize), DbError>)
        requires
            old(self).wf(),
        ensures
            final(self).wf(),
            final(self).buffered() == old(self).buffered(),
            final(self).schedule() == old(self).schedule(),
            final(self).world() == old(self).world(),
            final(self).names() == old(self).names(),
            final(self).threshold() == old(self).threshold(),
            final(self).layout().active == old(self).layout().active,
            match r {
                Ok((s, i)) => removed_first(
                    old(self).layout().segments,
                    final(self).layout().segments,
                    s as int,
                    i as int,
                    id@,
                ),
                Err(e) => e == DbError::Unspecified && final(self).layout() == old(self).layout()
                    && absent(old(self).layout().segments, id@),
            },
    {
        match self.locate(&id) {
            None => Err(DbError::Unspecified),
            Some((s, i)) => {
                let ghost segs = self.layout().segments;
                let ghost before = self.segments@[s as int].entries@;
                let ghost names0 = self.names();
                self.segments[s].entries.remove(i);
                assert(models(self.segments@[s as int].entries@) =~= models(before).remove(i as int));
                assert(self.layout().segments =~= segs.update(s as int, segs[s as int].remove(i as int)));
                assert(self.names() =~= names0);
                assert(first_match(segs, s as int, i as int, id@));
                assert(removed_first(segs, self.layout().segments, s as int, i as int, id@));
                Ok((s, i))
            },
        }
    }

    /// Opens the store over the segment files found at start-up, given as
    /// (name, contents) in the order they were listed. Every record of every
    /// file is loaded into `entries`, in order; the last file with room left
    /// takes appends (where several have room, the others are only read and
    /// deleted from). A file holding more records than a segment's capacity is
    /// loaded as it is and never takes appends. Fails when any file is not a
    /// sequence of whole records: loading is all or nothing.
    pub fn new(files: Vec<(String, Vec<u8>)>, memtable_flush_size_in_kb: usize) -> (r: Result<
        Instance,
        DbError,
    >)
        ensures
            r is Ok <==> forall|k: int| 0 <= k < files@.len() ==> (#[trigger] parse_segment(files@[k].1@)) is Some,
            r is Err ==> r == Err::<Instance, DbError>(DbError::FailedDeserialization),
            r matches Ok(inst) ==> {
                &&& inst.wf()
                &&& inst.layout().segments.len() == files@.len()
                &&& forall|k: int| 0 <= k < files@.len() ==> parse_segment(files@[k].1@) == Some(
                    #[trigger] inst.layout().segments[k],
                )
                &&& inst.names() == files@.map_values(|f: (String, Vec<u8>)| f.0@)
                &&& inst.layout().active == last_incomplete(inst.layout().segments)
                &&& inst.world() == flatten(inst.layout().segments)
                &&& inst.buffered() == Seq::<EntryModel>::empty()
                &&& inst.schedule() == Seq::<(Seq<u8>, u64)>::empty()
                &&& inst.threshold() == memtable_flush_size_in_kb
            },
    {
        let mut segments: Vec<Segment> = Vec::new();
        let mut world: Vec<Entry> = Vec::new();
        let mut active: Option<usize> = None;
        let mut k: usize = 0;
        while k < files.len()
            invariant
                k <= files@.len(),
                segments@.len() == k,
                forall|j: int| 0 <= j < k ==> parse_segment(files@[j].1@) == Some(
                    #[trigger] seg_models(segments@)[j],
                ),
                segments@.map_values(|s: Segment| s.name@) == files@.take(k as int).map_values(
                    |f: (String, Vec<u8>)| f.0@,
                ),
                match active {
                    Some(a) => Some(a as int) == last_incomplete(seg_models(segments@)),
                    None => last_incomplete(seg_models(segments@)) is None,
                },
                match active {
                    Some(a) => a < segments@.len() && segments@[a as int].entries@.len()
                        < MAX_ENTRIES_PER_FILE,
                    None => true,
                },
                models(world@) == flatten(seg_models(segments@)),
            decreases files@.len() - k,
        {
            let entries = match decode_segment(&files[k].1) {
                None => {
                    assert(parse_segment(files@[k as int].1@) is None);
                    return Err(DbError::FailedDeserialization);
                },
                Some(v) => v,
            };
            let ghost segs0 = seg_models(segments@);
            let ghost names0 = segments@.map_values(|s: Segment| s.name@);
            let ghost w0 = models(world@);
            let mut j: usize = 0;
            while j < entries.len()
                invariant
                    j <= entries@.len(),
                    models(world@) == w0 + models(entries@).take(j as int),
                decreases entries@.len() - j,
            {
                let e = copy_entry(&entries[j]);
                let ghost wj = models(world@);
                world.push(e);
                assert(models(world@) =~= wj.push(entries@[j as int]@));
                assert(models(entries@).take(j + 1) =~= models(entries@).take(j as int).push(
                    entries@[j as int]@,
                ));
                j = j + 1;
            }
            assert(models(entries@).take(j as int) =~= models(entries@));
            let n = entries.len();
            let name = files[k].0.clone();
            segments.push(Segment { name, entries });
            proof {
                let segs1 = seg_models(segments@);
                assert(segs1 =~= segs0.push(models(entries@)));
                assert(segs1.drop_last() =~= segs0);
                assert(segments@.map_values(|s: Segment| s.name@) =~= names0.push(files@[k as int].0@));
                assert(files@.take(k + 1).map_values(|f: (String, Vec<u8>)| f.0@) =~= files@.take(
                    k as int,
                ).map_values(|f: (String, Vec<u8>)| f.0@).push(files@[k as int].0@));
                assert(segments@.map_values(|s: Segment| s.name@) =~= files@.take(k + 1).map_values(
                    |f: (String, Vec<u8>)| f.0@,
                ));
                assert forall|i: int| 0 <= i < k + 1 implies parse_segment(files@[i].1@) == Some(
                    #[trigger] seg_models(segments@)[i],
                ) by {
                    if i < k {
                        assert(segs1[i] == segs0[i]);
                    }
                }
            }
            if n < MAX_ENTRIES_PER_FILE {
                active = Some(k);
            }
            k = k + 1;
        }
        assert(files@.take(k as int) =~= files@);
        assert forall|j: int| 0 <= j < files@.len() implies (#[trigger] parse_segment(
            files@[j].1@,
        )) is Some by {
            assert(parse_segment(files@[j].1@) == Some(seg_models(segments@)[j]));
        }
        let inst = Instance {
            segments,
            active,
            entries: world,
            memtable: Vec::new(),
            memtable_flush_size_in_kb,
            ttl: Ttl::new(),
        };
        assert(inst.buffered() =~= Seq::<EntryModel>::empty());
        Ok(inst)
    }

    /// Registers the deadline of every record loaded at start-up that carries
    /// a time-to-live, counted from instant `now`, in order. Fails, changing
    /// nothing, when some record's deadline does not fit in a `u64`.
    pub fn start_ttl(&mut self, now: u64) -> (r: Result<(), DbError>)
        requires
            old(self).wf(),
        ensures
            final(self).wf(),
            final(self).layout() == old(self).layout(),
            final(self).buffered() == old(self).buffered(),
            final(self).world() == old(self).world(),
            final(self).names() == old(self).names(),
            final(self).threshold() == old(self).threshold(),
            r is Ok <==> forall|k: int| 0 <= k < old(self).world().len() ==> (
                #[trigger] old(self).world()[k].ttl matches Some(t) ==> now + t <= u64::MAX
            ),
            r is Ok ==> final(self).schedule() == old(self).schedule() + registrations(old(self).world(), now),
            r is Err ==> r == Err::<(), DbError>(DbError::Unspecified) && final(self).schedule()
                == old(self).schedule(),
    {
        let mut c: usize = 0;
        while c < self.entries.len()
            invariant
                self.wf(),
                c <= self.entries@.len(),
                forall|j: int| 0 <= j < c ==> (#[trigger] self.world()[j].ttl matches Some(t) ==> now + t <= u64::MAX),
            decreases self.entries@.len() - c,
        {
            if let Some(t) = self.entries[c].ttl {
                if now.checked_add(t).is_none() {
                    assert(self.world()[c as int].ttl == Some(t));
                    return Err(DbError::Unspecified);
                }
            }
            c = c + 1;
        }
        let ghost w = self.world();
        let ghost s0 = self.schedule();
        let mut k: usize = 0;
        assert(w.take(0) =~= Seq::<EntryModel>::empty());
        assert(s0 + Seq::<(Seq<u8>, u64)>::empty() =~= s0);
        while k < self.entries.len()
            invariant
                self.wf(),
                k <= self.entries@.len(),
                w == self.world(),
                w == old(self).world(),
                self.entries == old(self).entries,
                self.layout() == old(self).layout(),
                self.memtable == old(self).memtable,
                self.names() == old(self).names(),
                self.memtable_flush_size_in_kb == old(self).memtable_flush_size_in_kb,
                self.schedule() == s0 + registrations(w.take(k as int), now),
                forall|j: int| 0 <= j < w.len() ==> (#[trigger] w[j].ttl matches Some(t) ==> now + t <= u64::MAX),
            decreases self.entries@.len() - k,
        {
            assert(w.take(k + 1).drop_last() =~= w.take(k as int));
            assert(w.take(k + 1).last() == w[k as int]);
            if let Some(t) = self.entries[k].ttl {
                let id = copy_range(&self.entries[k].id, 0, self.entries[k].id.len());
                let ghost kid = self.entries@[k as int].id@;
                assert(kid.subrange(0, kid.len() as int) =~= kid);
                let added = self.ttl.add_entry(id, now, t);
                assert(w[k as int].ttl == Some(t));
                assert(added is Ok);
                assert(self.schedule() =~= s0 + registrations(w.take(k + 1), now));
            }
            k = k + 1;
        }
        assert(w.take(k as int) =~= w);
        Ok(())
    }

    /// Removes from the schedule every deadline reached at instant `now` and,
    /// for each of those identifiers in turn, deletes its first record from
    /// the segments as `delete` does; returns the segment of each deletion, in
    /// order. An identifier that no segment holds (a record still in the
    /// buffer, or one already deleted) loses its deadline and nothing else.
    pub fn expire(&mut self, now: u64) -> (r: Vec<usize>)
        requires
            old(self).wf(),
        ensures
            final(self).wf(),
            final(self).schedule() == crate::ttl::pending(old(self).schedule(), now),
            final(self).layout().segments == sweep(
                old(self).layout().segments,
                crate::ttl::expired(old(self).schedule(), now),
            ).0,
            r@.map_values(|x: usize| x as int) == sweep(
                old(self).layout().segments,
                crate::ttl::expired(old(self).schedule(), now),
            ).1,
            final(self).buffered() == old(self).buffered(),
            final(self).names() == old(self).names(),
            final(self).world() == old(self).world(),
            final(self).threshold() == old(self).threshold(),
            final(self).layout().active == old(self).layout().active,
    {
        let ghost segs0 = self.layout().segments;
        let ids = self.ttl.take_expired(now);
        let ghost idv = ids@.map_values(|v: Vec<u8>| v@);
        let mut touched: Vec<usize> = Vec::new();
        let mut k: usize = 0;
        assert(idv.take(0) =~= Seq::<Seq<u8>>::empty());
        assert(touched@.map_values(|x: usize| x as int) =~= Seq::<int>::empty());
        while k < ids.len()
            invariant
                self.wf(),
                k <= ids@.len(),
                idv == ids@.map_values(|v: Vec<u8>| v@),
                self.schedule() == crate::ttl::pending(old(self).schedule(), now),
                self.buffered() == old(self).buffered(),
                self.names() == old(self).names(),
                self.world() == old(self).world(),
                self.threshold() == old(self).threshold(),
                self.layout().active == old(self).layout().active,
                self.layout().segments == sweep(segs0, idv.take(k as int)).0,
                touched@.map_values(|x: usize| x as int) == sweep(segs0, idv.take(k as int)).1,
            decreases ids@.len() - k,
        {
            let id = copy_range(&ids[k], 0, ids[k].len());
            assert(ids@[k as int]@.subrange(0, ids@[k as int]@.len() as int) =~= idv[k as int]);
            let ghost before = self.layout().segments;
            let ghost t0 = touched@.map_values(|x: usize| x as int);
            assert(idv.take(k + 1).drop_last() =~= idv.take(k as int));
            assert(idv.take(k + 1).last() == idv[k as int]);
            match self.delete(id) {
                Ok((s, i)) => {
                    proof {
                        let after = self.layout().segments;
                        lemma_delete_first_found(before, after, s as int, i as int, idv[k as int]);
                    }
                    touched.push(s);
                    assert(touched@.map_values(|x: usize| x as int) =~= t0.push(s as int));
                },
                Err(_) => {
                    proof { lemma_delete_first_absent(before, idv[k as int]); }
                },
            }
            k = k + 1;
        }
        assert(idv.take(k as int) =~= idv);
        touched
    }

    /// The number of segment files.
    pub fn segment_count(&self) -> (r: usize)
        ensures
            r == self.layout().segments.len(),
    {
        self.segments.len()
    }

    /// The segment that takes appends, if any.
    pub fn active_segment(&self) -> (r: Option<usize>)
        ensures
            r matches Some(a) ==> self.layout().active == Some(a as int),
            r is None ==> self.layout().active is None,
    {
        self.active
    }

    /// The name of segment `i`.
    pub fn segment_name(&self, i: usize) -> (r: String)
        requires
            i < self.layout().segments.len(),
        ensures
            r@ == self.names()[i as int],
    {
        self.segments[i].name.clone()
    }

    /// The number of records in segment `i`.
    pub fn segment_len(&self, i: usize) -> (r: usize)
        requires
            i < self.layout().segments.len(),
        ensures
            r == self.layout().segments[i as int].len(),
    {
        self.segments[i].entries.len()
    }

    /// The contents of the file of segment `i`.
    pub fn segment_file(&self, i: usize) -> (r: Vec<u8>)
        requires
            i < self.layout().segments.len(),
        ensures
            r@ == crate::codec::segment_bytes(self.layout().segments[i as int]),
            parse_segment(r@) == Some(self.layout().segments[i as int]),
    {
        let entries = &self.segments[i].entries;
        proof {
            assert forall|j: int| 0 <= j < entries@.len() implies crate::codec::entry_fits(
                #[trigger] models(entries@)[j],
            ) by {
                let e = entries@[j];
                assert(e.id@.len() == e.id.len());
                assert(e.data@.len() == e.data.len());
            }
            crate::codec::lemma_segment_round_trip(models(entries@));
        }
        encode_segment(entries)
    }

    /// The number of buffered records.
    pub fn buffered_len(&self) -> (r: usize)
        ensures
            r == self.buffered().len(),
    {
        self.memtable.len()
    }
}

proof fn lemma_put_all_push(m: Layout, es: Seq<EntryModel>, e: EntryModel)
    ensures
        put_all(m, es.push(e)) == put(put_all(m, es), e),
    decreases es.len(),
{
    let ep = es.push(e);
    assert(ep[0] == if es.len() == 0 { e } else { es[0] });
    if es.len() == 0 {
        assert(ep.drop_first() =~= Seq::<EntryModel>::empty());
        assert(put_all(put(m, e), Seq::<EntryModel>::empty()) == put(m, e));
        assert(put_all(m, es) == m);
    } else {
        assert(ep.drop_first() =~= es.drop_first().push(e));
        lemma_put_all_push(put(m, es[0]), es.drop_first(), e);
        assert(put_all(m, ep) == put_all(put(m, es[0]), ep.drop_first()));
        assert(put_all(m, es) == put_all(put(m, es[0]), es.drop_first()));
    }
}

proof fn lemma_fill_new(m: Layout, es: Seq<EntryModel>, k: int)
    requires
        m.active is None,
        1 <= k <= es.len(),
        k < MAX_ENTRIES_PER_FILE,
    ensures
        put_all(m, es.take(k)) == (Layout {
            segments: m.segments.push(es.take(k)),
            active: Some(m.segments.len() as int),
        }),
    decreases k,
{
    let len = m.segments.len() as int;
    if k == 1 {
        let one = es.take(1);
        assert(one[0] == es[0]);
        assert(one.drop_first() =~= Seq::<EntryModel>::empty());
        assert(put_all(put(m, es[0]), Seq::<EntryModel>::empty()) == put(m, es[0]));
        assert(put_all(m, one) == put(m, es[0]));
        let segs = m.segments.push(Seq::empty());
        assert(segs[len].push(es[0]) =~= one);
        assert(segs.update(len, one) =~= m.segments.push(one));
    } else {
        lemma_fill_new(m, es, k - 1);
        assert(es.take(k) =~= es.take(k - 1).push(es[k - 1]));
        lemma_put_all_push(m, es.take(k - 1), es[k - 1]);
        let prev = put_all(m, es.take(k - 1));
        assert(prev.active == Some(len));
        assert(prev.segments[len] == es.take(k - 1));
        assert(prev.segments.update(len, es.take(k)) =~= m.segments.push(es.take(k)));
    }
}

/// Fewer records than a segment holds, written while no segment takes
/// appends (the store is empty, or its last segment is full), all go, in
/// order, into one new segment after the existing ones, which are left as
/// they were; that segment then takes appends.
pub proof fn lemma_flush_into_new_segment(m: Layout, es: Seq<EntryModel>)
    requires
        m.active is None,
        1 <= es.len() < MAX_ENTRIES_PER_FILE,
    ensures
        put_all(m, es).segments == m.segments.push(es),
        put_all(m, es).active == Some(m.segments.len() as int),
{
    lemma_fill_new(m, es, es.len() as int);
    assert(es.take(es.len() as int) =~= es);
}

/// Writing one record more than a segment holds into an empty store gives
/// exactly two segments: the first holds the first records, as many as a
/// segment holds, and the second, which takes appends, the last record.
pub proof fn lemma_rotation(es: Seq<EntryModel>)
    requires
        es.len() == MAX_ENTRIES_PER_FILE + 1,
    ensures
        put_all(Layout { segments: Seq::empty(), active: None }, es).segments == seq![
            es.take(MAX_ENTRIES_PER_FILE as int),
            seq![es[MAX_ENTRIES_PER_FILE as int]],
        ],
        put_all(Layout { segments: Seq::empty(), active: None }, es).active == Some(1int),
{
    let m = Layout { segments: Seq::empty(), active: None };
    let n = MAX_ENTRIES_PER_FILE as int;
    lemma_fill_new(m, es, n - 1);
    assert(es.take(n) =~= es.take(n - 1).push(es[n - 1]));
    lemma_put_all_push(m, es.take(n - 1), es[n - 1]);
    let almost = put_all(m, es.take(n - 1));
    assert(almost.segments =~= seq![es.take(n - 1)]);
    let full = put_all(m, es.take(n));
    assert(full == put(almost, es[n - 1]));
    assert(almost.segments.update(0, es.take(n)) =~= seq![es.take(n)]);
    assert(full.segments =~= seq![es.take(n), Seq::empty()]);
    assert(full.active == Some(1int));
    assert(es =~= es.take(n).push(es[n]));
    lemma_put_all_push(m, es.take(n), es[n]);
    assert(Seq::<EntryModel>::empty().push(es[n]) =~= seq![es[n]]);
    assert(full.segments.update(1, seq![es[n]]) =~= seq![es.take(n), seq![es[n]]]);
}

/// The active segment, if any, is one of the segments.
pub open spec fn valid(m: Layout) -> bool {
    m.active matches Some(a) ==> 0 <= a < m.segments.len()
}

/// Some segment holds record `e`.
pub open spec fn stored(segs: Seq<Seq<EntryModel>>, e: EntryModel) -> bool {
    exists|t: int, j: int| 0 <= t < segs.len() && 0 <= j < segs[t].len() && #[trigger] segs[t][j] == e
}

/// A well-formed instance has a valid layout.
pub proof fn lemma_wf_valid(inst: &Instance)
    requires
        inst.wf(),
    ensures
        valid(inst.layout()),
{
}

proof fn lemma_put(m: Layout, e: EntryModel)
    requires
        valid(m),
    ensures
        valid(put(m, e)),
        stored(put(m, e).segments, e),
        forall|x: EntryModel| stored(m.segments, x) ==> stored(put(m, e).segments, x),
{
    let a = match m.active {
        Some(a) => a,
        None => m.segments.len() as int,
    };
    let n = put(m, e).segments;
    assert(n[a][n[a].len() - 1] == e);
    assert forall|x: EntryModel| stored(m.segments, x) implies stored(n, x) by {
        let (t, j) = choose|t: int, j: int| 0 <= t < m.segments.len() && 0 <= j
            < m.segments[t].len() && #[trigger] m.segments[t][j] == x;
        assert(n[t][j] == x);
    }
}

/// Flushing loses nothing: after the buffered records `es` are written out,
/// each of them, and each record stored before, is held by some segment.
pub proof fn lemma_flush_persists(m: Layout, es: Seq<EntryModel>)
    requires
        valid(m),
    ensures
        valid(put_all(m, es)),
        forall|k: int| 0 <= k < es.len() ==> stored(put_all(m, es).segments, #[trigger] es[k]),
        forall|x: EntryModel| stored(m.segments, x) ==> stored(put_all(m, es).segments, x),
    decreases es.len(),
{
    if es.len() > 0 {
        let m1 = put(m, es[0]);
        let tail = es.drop_first();
        lemma_put(m, es[0]);
        lemma_flush_persists(m1, tail);
        assert forall|k: int| 0 <= k < es.len() implies stored(
            put_all(m, es).segments,
            #[trigger] es[k],
        ) by {
            if k > 0 {
                assert(es[k] == tail[k - 1]);
            }
        }
    }
}

/// After a deletion, reading the rewritten segment file back gives that
/// segment's former records, in their order, without the deleted one; every
/// other segment is as it was.
pub proof fn lemma_delete_reload(
    before: Seq<Seq<EntryModel>>,
    after: Seq<Seq<EntryModel>>,
    s: int,
    i: int,
    id: Seq<u8>,
)
    requires
        removed_first(before, after, s, i, id),
        forall|j: int| 0 <= j < before[s].len() ==> crate::codec::entry_fits(#[trigger] before[s][j]),
    ensures
        parse_segment(crate::codec::segment_bytes(after[s])) == Some(before[s].remove(i)),
        forall|t: int| 0 <= t < before.len() && t != s ==> #[trigger] after[t] == before[t],
        after.len() == before.len(),
{
    let r = before[s].remove(i);
    assert forall|j: int| 0 <= j < r.len() implies crate::codec::entry_fits(#[trigger] r[j]) by {
        if j < i {
            assert(r[j] == before[s][j]);
        } else {
            assert(r[j] == before[s][j + 1]);
        }
    }
    crate::codec::lemma_segment_round_trip(r);
}

proof fn lemma_delete_first_spares(segs: Seq<Seq<EntryModel>>, id: Seq<u8>, e: EntryModel)
    requires
        stored(segs, e),
        e.id != id,
    ensures
        stored(delete_first(segs, id).0, e),
{
    if exists|s: int, i: int| #[trigger] first_match(segs, s, i, id) {
        let (s, i) = choose|s: int, i: int| #[trigger] first_match(segs, s, i, id);
        let after = delete_first(segs, id).0;
        let (t, j) = choose|t: int, j: int| 0 <= t < segs.len() && 0 <= j < segs[t].len() && #[trigger] segs[t][j] == e;
        if t != s {
            assert(after[t][j] == e);
        } else if j < i {
            assert(after[t][j] == e);
        } else {
            assert(j != i);
            assert(after[t][j - 1] == e);
        }
    }
}

/// The sweep removes nothing but expired records: a stored record whose
/// identifier is not among the expired ones (a permanent record, which is
/// never scheduled, or one whose deadline is not reached) is still stored
/// after it.
pub proof fn lemma_sweep_spares(segs: Seq<Seq<EntryModel>>, ids: Seq<Seq<u8>>, e: EntryModel)
    requires
        stored(segs, e),
        !ids.contains(e.id),
    ensures
        stored(sweep(segs, ids).0, e),
    decreases ids.len(),
{
    if ids.len() > 0 {
        let d = ids.drop_last();
        assert(!d.contains(e.id)) by {
            if d.contains(e.id) {
                let k = choose|k: int| 0 <= k < d.len() && d[k] == e.id;
                assert(ids[k] == e.id);
            }
        }
        lemma_sweep_spares(segs, d, e);
        assert(ids.last() == ids[ids.len() - 1]);
        lemma_delete_first_spares(sweep(segs, d).0, ids.last(), e);
    }
}

/// At most one record carries identifier `id`.
pub open spec fn at_most_once(segs: Seq<Seq<EntryModel>>, id: Seq<u8>) -> bool {
    forall|t: int, j: int, u: int, k: int|
        0 <= t < segs.len() && 0 <= j < segs[t].len() && 0 <= u < segs.len() && 0 <= k < segs[u].len()
            && #[trigger] segs[t][j].id == id && #[trigger] segs[u][k].id == id ==> t == u && j == k
}

proof fn lemma_delete_first_keeps_absent(segs: Seq<Seq<EntryModel>>, x: Seq<u8>, id: Seq<u8>)
    requires
        absent(segs, id),
    ensures
        absent(delete_first(segs, x).0, id),
{
    let after = delete_first(segs, x).0;
    if exists|s: int, i: int| #[trigger] first_match(segs, s, i, x) {
        let (s, i) = choose|s: int, i: int| #[trigger] first_match(segs, s, i, x);
        assert(after == segs.update(s, segs[s].remove(i)));
        assert forall|t: int, j: int| 0 <= t < after.len() && 0 <= j < after[t].len() implies
            #[trigger] after[t][j].id != id by {
            let jj = if t == s && j >= i { j + 1 } else { j };
            assert(after[t][j] == segs[t][jj]);
        }
    }
}

proof fn lemma_delete_first_keeps_once(segs: Seq<Seq<EntryModel>>, x: Seq<u8>, id: Seq<u8>)
    requires
        at_most_once(segs, id),
    ensures
        at_most_once(delete_first(segs, x).0, id),
        x == id ==> absent(delete_first(segs, x).0, id),
{
    let after = delete_first(segs, x).0;
    if exists|s: int, i: int| #[trigger] first_match(segs, s, i, x) {
        let (s, i) = choose|s: int, i: int| #[trigger] first_match(segs, s, i, x);
        assert(after == segs.update(s, segs[s].remove(i)));
        assert forall|t: int, j: int, u: int, k: int|
            0 <= t < after.len() && 0 <= j < after[t].len() && 0 <= u < after.len() && 0 <= k < after[u].len()
                && #[trigger] after[t][j].id == id && #[trigger] after[u][k].id == id implies t == u && j == k by {
            let jj = if t == s && j >= i { j + 1 } else { j };
            let kk = if u == s && k >= i { k + 1 } else { k };
            assert(after[t][j] == segs[t][jj]);
            assert(after[u][k] == segs[u][kk]);
            assert(segs[t][jj].id == id && segs[u][kk].id == id);
        }
        if x == id {
            assert forall|t: int, j: int| 0 <= t < after.len() && 0 <= j < after[t].len() implies
            #[trigger] after[t][j].id != id by {
                let jj = if t == s && j >= i { j + 1 } else { j };
                assert(after[t][j] == segs[t][jj]);
                if after[t][j].id == id {
                    assert(segs[s][i].id == id);
                    assert(segs[t][jj].id == id);
                }
            }
        }
    } else {
        if x == id {
            assert forall|t: int, j: int| 0 <= t < after.len() && 0 <= j < after[t].len() implies
            #[trigger] after[t][j].id != id by {
                if segs[t][j].id == id {
                    assert(first_match(segs, t, j, id));
                }
            }
        }
    }
}

/// The sweep removes every expired record: where at most one record carries
/// an identifier that is among the expired ones, no record carries it after
/// the sweep.
pub proof fn lemma_sweep_removes(segs: Seq<Seq<EntryModel>>, ids: Seq<Seq<u8>>, id: Seq<u8>)
    requires
        at_most_once(segs, id),
        ids.contains(id),
    ensures
        absent(sweep(segs, ids).0, id),
    decreases ids.len(),
{
    let d = ids.drop_last();
    assert(ids.last() == ids[ids.len() - 1]);
    lemma_sweep_keeps_once(segs, d, id);
    if d.contains(id) {
        lemma_sweep_removes(segs, d, id);
        lemma_delete_first_keeps_absent(sweep(segs, d).0, ids.last(), id);
    } else {
        let k = choose|k: int| 0 <= k < ids.len() && ids[k] == id;
        if k < d.len() {
            assert(d[k] == id);
        }
        lemma_delete_first_keeps_once(sweep(segs, d).0, ids.last(), id);
    }
}

proof fn lemma_sweep_keeps_once(segs: Seq<Seq<EntryModel>>, ids: Seq<Seq<u8>>, id: Seq<u8>)
    requires
        at_most_once(segs, id),
    ensures
        at_most_once(sweep(segs, ids).0, id),
    decreases ids.len(),
{
    if ids.len() > 0 {
        lemma_sweep_keeps_once(segs, ids.drop_last(), id);
        lemma_delete_first_keeps_once(sweep(segs, ids.drop_last()).0, ids.last(), id);
    }
}

proof fn lemma_stored_loaded(segs: Seq<Seq<EntryModel>>, e: EntryModel)
    requires
        stored(segs, e),
    ensures
        flatten(segs).contains(e),
    decreases segs.len(),
{
    let (t, j) = choose|t: int, j: int| 0 <= t < segs.len() && 0 <= j < segs[t].len() && #[trigger] segs[t][j] == e;
    let d = segs.drop_last();
    if t == segs.len() - 1 {
        assert(flatten(segs)[flatten(d).len() + j] == e);
    } else {
        assert(d[t][j] == e);
        lemma_stored_loaded(d, e);
        let k = choose|k: int| 0 <= k < flatten(d).len() && flatten(d)[k] == e;
        assert(flatten(segs)[k] == e);
    }
}

/// Flushed records survive a restart: after the buffered records `es` are
/// flushed, loading the segment files (whose records `new` reads back as
/// `flatten` of the segments, each file decoding to its segment as
/// `segment_file` states) returns each of them and every record stored
/// before.
pub proof fn lemma_flush_then_reload(m: Layout, es: Seq<EntryModel>)
    requires
        valid(m),
    ensures
        forall|k: int| 0 <= k < es.len() ==> flatten(put_all(m, es).segments).contains(#[trigger] es[k]),
        forall|x: EntryModel| stored(m.segments, x) ==> flatten(put_all(m, es).segments).contains(x),
{
    lemma_flush_persists(m, es);
    assert forall|k: int| 0 <= k < es.len() implies flatten(put_all(m, es).segments).contains(#[trigger] es[k]) by {
        lemma_stored_loaded(put_all(m, es).segments, es[k]);
    }
    assert forall|x: EntryModel| stored(m.segments, x) implies flatten(put_all(m, es).segments).contains(x) by {
        lemma_stored_loaded(put_all(m, es).segments, x);
    }
}

} // verus!
