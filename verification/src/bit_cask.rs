//! The log-structured storage engine.
//!
//! Values live in append-only segments; the key directory points each key at
//! the segment, offset and length of its most recent record.  A segment is
//! sealed once its end offset crosses the configured cap and a fresh active
//! segment takes over; compaction rewrites every live record into one new
//! segment and drops the files nothing references any more.
//!
//! The engine models the segment files in memory: each segment holds its
//! records together with the byte offsets they would occupy on disk, so the
//! directory arithmetic is exactly that of the file format.

use vstd::prelude::*;
use vstd::utf8::encode_utf8;
use crate::directory::{DirEntry, KeyDir, lemma_dir_as_map};
use crate::error::KvError;
use crate::storage::{KV, KVStorage, put_all, lemma_put_all_push};
use crate::segment::ScanRecord;

verus! {

/// A segment is sealed once appending pushes its end offset past this cap.
pub const FILE_MAX_OFFSET: u64 = 10_000_000;

/// The largest value byte length one record may carry.
pub const VALUE_MAX: u64 = 0xffff_ffff;

/// The byte length of the UTF-8 form of a string, as `str::len` reports it.
#[verifier::opaque]
pub open spec fn byte_len(s: Seq<char>) -> usize {
    encode_utf8(s).len() as usize
}

/// One record as it stands in a segment: header fields, the byte offset the
/// record occupies, and the value.
pub struct StoredRecord {
    pub ts: u64,
    pub key: usize,
    pub offset: u64,
    pub vlen: u64,
    pub value: String,
}

/// One segment file: its creation tag, its records in write order, and the
/// byte offset where the next record would start.
pub struct Segment {
    pub tag: u64,
    pub recs: Vec<StoredRecord>,
    pub end_off: u64,
}

/// The records of a segment are laid out back to back starting at `base`:
/// each record sits at the running offset, carries its value's byte length,
/// and the running offset never overflows.
pub open spec fn recs_layout(recs: Seq<StoredRecord>, base: u64) -> bool
    decreases recs.len(),
{
    if recs.len() == 0 {
        true
    } else {
        &&& recs[0].offset == base
        &&& recs[0].vlen <= VALUE_MAX
        &&& recs[0].vlen == byte_len(recs[0].value@) as u64
        &&& base + 24 + recs[0].vlen <= u64::MAX
        &&& recs_layout(recs.drop_first(), (base + 24 + recs[0].vlen) as u64)
    }
}

/// The offset just past the last record of a layout starting at `base`.
pub open spec fn recs_end(recs: Seq<StoredRecord>, base: u64) -> u64
    decreases recs.len(),
{
    if recs.len() == 0 {
        base
    } else {
        recs_end(recs.drop_first(), (base + 24 + recs[0].vlen) as u64)
    }
}

/// A segment is well formed when its records are laid out from offset zero
/// and its end offset is where the next record would go.
pub open spec fn seg_wf(seg: Segment) -> bool {
    &&& recs_layout(seg.recs@, 0)
    &&& seg.end_off == recs_end(seg.recs@, 0)
    &&& seg.end_off <= FILE_MAX_OFFSET + 24 + VALUE_MAX
}

/// In a layout, every record lies between `base` and the end offset.
pub proof fn lemma_layout_bounds(recs: Seq<StoredRecord>, base: u64)
    requires
        recs_layout(recs, base),
    ensures
        base <= recs_end(recs, base),
        forall|i: int|
            0 <= i < recs.len() ==> base <= (#[trigger] recs[i]).offset && recs[i].offset + 24
                + recs[i].vlen <= recs_end(recs, base) && recs[i].vlen <= VALUE_MAX
                && recs[i].vlen == byte_len(recs[i].value@) as u64,
    decreases recs.len(),
{
    if recs.len() > 0 {
        let rest = recs.drop_first();
        let base2 = (base + 24 + recs[0].vlen) as u64;
        lemma_layout_bounds(rest, base2);
        assert(forall|i: int| 1 <= i < recs.len() ==> recs[i] == rest[i - 1]);
    }
}

/// Appending a record at the end offset extends the layout.
pub proof fn lemma_layout_push(recs: Seq<StoredRecord>, base: u64, r: StoredRecord)
    requires
        recs_layout(recs, base),
        r.offset == recs_end(recs, base),
        r.vlen <= VALUE_MAX,
        r.vlen == byte_len(r.value@) as u64,
        recs_end(recs, base) + 24 + r.vlen <= u64::MAX,
    ensures
        recs_layout(recs.push(r), base),
        recs_end(recs.push(r), base) == recs_end(recs, base) + 24 + r.vlen,
    decreases recs.len(),
{
    reveal_with_fuel(recs_layout, 3);
    reveal_with_fuel(recs_end, 3);
    if recs.len() == 0 {
        assert(recs.push(r)[0] == r);
        assert(recs.push(r).drop_first() =~= Seq::<StoredRecord>::empty());
    } else {
        assert(recs.push(r)[0] == recs[0]);
        assert(recs.push(r).drop_first() =~= recs.drop_first().push(r));
        lemma_layout_push(recs.drop_first(), (base + 24 + recs[0].vlen) as u64, r);
    }
}

/// The index of the first segment with tag `tag`, or `-1`.
pub open spec fn find_seg(segs: Seq<Segment>, tag: u64) -> int
    decreases segs.len(),
{
    if segs.len() == 0 {
        -1
    } else if segs[0].tag == tag {
        0
    } else {
        let r = find_seg(segs.drop_first(), tag);
        if r < 0 {
            -1
        } else {
            r + 1
        }
    }
}

/// What `find_seg` returns: the first index with the tag, or `-1` when no
/// segment has it.
pub proof fn lemma_find_seg(segs: Seq<Segment>, tag: u64)
    ensures
        find_seg(segs, tag) == -1 ==> (forall|i: int|
            0 <= i < segs.len() ==> (#[trigger] segs[i]).tag != tag),
        find_seg(segs, tag) >= 0 ==> {
            &&& find_seg(segs, tag) < segs.len()
            &&& segs[find_seg(segs, tag)].tag == tag
            &&& forall|i: int| 0 <= i < find_seg(segs, tag) ==> (#[trigger] segs[i]).tag != tag
        },
    decreases segs.len(),
{
    if segs.len() > 0 && segs[0].tag != tag {
        lemma_find_seg(segs.drop_first(), tag);
        let t = segs.drop_first();
        assert(forall|i: int| 1 <= i < segs.len() ==> segs[i] == t[i - 1]);
    }
}

/// The index of the first record at byte offset `off`, or `-1`.
pub open spec fn find_rec(recs: Seq<StoredRecord>, off: u64) -> int
    decreases recs.len(),
{
    if recs.len() == 0 {
        -1
    } else if recs[0].offset == off {
        0
    } else {
        let r = find_rec(recs.drop_first(), off);
        if r < 0 {
            -1
        } else {
            r + 1
        }
    }
}

/// What `find_rec` returns: the first index at the offset, or `-1` when no
/// record starts there.
pub proof fn lemma_find_rec(recs: Seq<StoredRecord>, off: u64)
    ensures
        find_rec(recs, off) == -1 ==> (forall|i: int|
            0 <= i < recs.len() ==> (#[trigger] recs[i]).offset != off),
        find_rec(recs, off) >= 0 ==> {
            &&& find_rec(recs, off) < recs.len()
            &&& recs[find_rec(recs, off)].offset == off
            &&& forall|i: int| 0 <= i < find_rec(recs, off) ==> (#[trigger] recs[i]).offset != off
        },
    decreases recs.len(),
{
    if recs.len() > 0 && recs[0].offset != off {
        lemma_find_rec(recs.drop_first(), off);
        let t = recs.drop_first();
        assert(forall|i: int| 1 <= i < recs.len() ==> recs[i] == t[i - 1]);
    }
}

/// Appending a record leaves every earlier find untouched.
pub proof fn lemma_find_rec_push(recs: Seq<StoredRecord>, r: StoredRecord, off: u64)
    ensures
        find_rec(recs, off) >= 0 ==> find_rec(recs.push(r), off) == find_rec(recs, off),
        find_rec(recs, off) == -1 && r.offset == off ==> find_rec(recs.push(r), off)
            == recs.len(),
        find_rec(recs, off) == -1 && r.offset != off ==> find_rec(recs.push(r), off) == -1,
    decreases recs.len(),
{
    reveal_with_fuel(find_rec, 3);
    if recs.len() == 0 {
        assert(recs.push(r)[0] == r);
        if r.offset != off {
            assert(recs.push(r).drop_first() =~= Seq::<StoredRecord>::empty());
        }
    } else {
        assert(recs.push(r)[0] == recs[0]);
        if recs[0].offset != off {
            assert(recs.push(r).drop_first() =~= recs.drop_first().push(r));
            lemma_find_rec_push(recs.drop_first(), r, off);
        }
    }
}

/// Appending a segment leaves every earlier find untouched.
pub proof fn lemma_find_seg_push(segs: Seq<Segment>, s: Segment, tag: u64)
    ensures
        find_seg(segs, tag) >= 0 ==> find_seg(segs.push(s), tag) == find_seg(segs, tag),
        find_seg(segs, tag) == -1 && s.tag == tag ==> find_seg(segs.push(s), tag) == segs.len(),
        find_seg(segs, tag) == -1 && s.tag != tag ==> find_seg(segs.push(s), tag) == -1,
    decreases segs.len(),
{
    reveal_with_fuel(find_seg, 3);
    if segs.len() == 0 {
        assert(segs.push(s)[0] == s);
        if s.tag != tag {
            assert(segs.push(s).drop_first() =~= Seq::<Segment>::empty());
        }
    } else {
        assert(segs.push(s)[0] == segs[0]);
        if segs[0].tag != tag {
            assert(segs.push(s).drop_first() =~= segs.drop_first().push(s));
            lemma_find_seg_push(segs.drop_first(), s, tag);
        }
    }
}

/// Replacing one segment by another with the same tag moves no find.
pub proof fn lemma_find_seg_update(segs: Seq<Segment>, i: int, s: Segment, tag: u64)
    requires
        0 <= i < segs.len(),
        segs[i].tag == s.tag,
    ensures
        find_seg(segs.update(i, s), tag) == find_seg(segs, tag),
    decreases segs.len(),
{
    if segs.len() > 0 {
        if i == 0 {
            assert(segs.update(i, s)[0] == s);
            if segs[0].tag != tag {
                assert(segs.update(i, s).drop_first() =~= segs.drop_first());
            }
        } else {
            assert(segs.update(i, s)[0] == segs[0]);
            if segs[0].tag != tag {
                assert(segs.update(i, s).drop_first() =~= segs.drop_first().update(i - 1, s));
                lemma_find_seg_update(segs.drop_first(), i - 1, s, tag);
            }
        }
    }
}

/// The value stored at a location, as segments and directory describe it;
/// the empty string when the location does not exist.
pub open spec fn lookup_value(segs: Seq<Segment>, tag: u64, off: u64) -> Seq<char> {
    let si = find_seg(segs, tag);
    if si < 0 {
        Seq::empty()
    } else {
        let ri = find_rec(segs[si].recs@, off);
        if ri < 0 {
            Seq::empty()
        } else {
            segs[si].recs@[ri].value@
        }
    }
}

/// The log-structured storage engine.
pub struct BitCask {
    /// The directory the segment files would live in.
    pub data_dir: String,
    /// The one segment currently open for appends.
    pub active: Segment,
    /// Every sealed segment, in creation order.
    pub sealed: Vec<Segment>,
    /// The in-memory key directory.
    pub key_dir: KeyDir,
    /// The creation tag the next segment will get.
    pub next_tag: u64,
    /// The timestamp the next record will be written with.
    pub clock: u64,
}

impl BitCask {
    /// All segments, sealed ones first, the active one last.
    pub open spec fn all_segs(&self) -> Seq<Segment> {
        self.sealed@.push(self.active)
    }

    /// Whether a directory entry points at an existing record that agrees
    /// with it.
    pub open spec fn entry_valid(&self, e: DirEntry) -> bool {
        let si = find_seg(self.all_segs(), e.file_tag);
        &&& si >= 0
        &&& {
            let ri = find_rec(self.all_segs()[si].recs@, e.offset);
            &&& ri >= 0
            &&& self.all_segs()[si].recs@[ri].key == e.name
            &&& self.all_segs()[si].recs@[ri].vlen == e.length
            &&& self.all_segs()[si].recs@[ri].ts == e.timestamp
        }
    }

    /// The engine's representation invariant.
    pub open spec fn wf(&self) -> bool {
        &&& self.key_dir.wf()
        &&& forall|i: int| 0 <= i < self.all_segs().len() ==> seg_wf(#[trigger] self.all_segs()[i])
        &&& forall|i: int, j: int|
            0 <= i < j < self.all_segs().len() ==> (#[trigger] self.all_segs()[i]).tag != (
            #[trigger] self.all_segs()[j]).tag
        &&& forall|i: int|
            0 <= i < self.all_segs().len() ==> (#[trigger] self.all_segs()[i]).tag < self.next_tag
        &&& self.active.end_off <= FILE_MAX_OFFSET
        &&& forall|k: usize|
            self.key_dir@.contains_key(k) ==> (#[trigger] self.key_dir@[k]).name == k
                && self.entry_valid(self.key_dir@[k])
        &&& forall|i: int, j: int|
            0 <= i < self.all_segs().len() && 0 <= j < (#[trigger] self.all_segs()[i]).recs@.len()
                ==> (#[trigger] self.all_segs()[i].recs@[j]).ts < self.clock
    }

    /// What the engine stores: the map from key to current value.
    pub open spec fn view_map(&self) -> Map<usize, Seq<char>> {
        Map::new(
            |k: usize| self.key_dir@.contains_key(k),
            |k: usize|
                lookup_value(
                    self.all_segs(),
                    self.key_dir@[k].file_tag,
                    self.key_dir@[k].offset,
                ),
        )
    }
}

impl BitCask {
    /// Reads the value a directory entry points at.
    fn read_value(&self, e: &DirEntry) -> (v: String)
        requires
            self.wf(),
            self.entry_valid(*e),
        ensures
            v@ == lookup_value(self.all_segs(), e.file_tag, e.offset),
    {
        proof {
            lemma_find_seg(self.all_segs(), e.file_tag);
        }
        let ns = self.sealed.len();
        let mut i: usize = 0;
        let ghost si = find_seg(self.all_segs(), e.file_tag);
        while i < ns && self.sealed[i].tag != e.file_tag
            invariant
                i <= ns,
                ns == self.sealed@.len(),
                self.wf(),
                self.entry_valid(*e),
                si == find_seg(self.all_segs(), e.file_tag),
                forall|j: int| 0 <= j < i ==> (#[trigger] self.all_segs()[j]).tag != e.file_tag,
            decreases ns - i,
        {
            proof {
                assert(self.all_segs()[i as int] == self.sealed@[i as int]);
            }
            i = i + 1;
        }
        proof {
            lemma_find_seg(self.all_segs(), e.file_tag);
            if i < ns {
                assert(self.all_segs()[i as int] == self.sealed@[i as int]);
            } else {
                assert(self.all_segs()[ns as int] == self.active);
                assert(self.active.tag == e.file_tag) by {
                    assert(si >= 0 && self.all_segs()[si].tag == e.file_tag);
                    if si < ns {
                        assert(self.all_segs()[si].tag != e.file_tag);
                    }
                }
            }
            assert(si == i as int) by {
                assert(self.all_segs()[i as int].tag == e.file_tag);
                if si < i {
                    assert(self.all_segs()[si].tag == e.file_tag);
                }
                if si > i {
                    assert(self.all_segs()[i as int].tag != e.file_tag);
                }
            }
        }
        let seg: &Segment = if i < ns {
            &self.sealed[i]
        } else {
            &self.active
        };
        proof {
            assert(*seg == self.all_segs()[si]);
            lemma_find_rec(seg.recs@, e.offset);
        }
        let nr = seg.recs.len();
        let ghost ri = find_rec(seg.recs@, e.offset);
        let mut j: usize = 0;
        while j < nr && seg.recs[j].offset != e.offset
            invariant
                j <= nr,
                nr == seg.recs@.len(),
                ri == find_rec(seg.recs@, e.offset),
                0 <= ri < nr,
                seg.recs@[ri].offset == e.offset,
                forall|l: int| 0 <= l < ri ==> (#[trigger] seg.recs@[l]).offset != e.offset,
                forall|l: int| 0 <= l < j ==> (#[trigger] seg.recs@[l]).offset != e.offset,
            decreases nr - j,
        {
            j = j + 1;
        }
        proof {
            assert(j < nr) by {
                if j == nr {
                    assert(seg.recs@[ri].offset != e.offset);
                }
            }
            assert(ri == j as int) by {
                if ri < j {
                    assert(seg.recs@[ri].offset != e.offset);
                }
                if ri > j {
                    assert(seg.recs@[j as int].offset != e.offset);
                }
            }
        }
        seg.recs[j].value.clone()
    }

    /// Appends one record with a fresh timestamp to the active segment,
    /// sealing it and opening a new one when the write pushed it past the
    /// cap.  Returns the directory entry describing the written record.
    fn append_record(&mut self, key: usize, value: String, vlen: u64) -> (e: DirEntry)
        requires
            old(self).wf(),
            old(self).clock < u64::MAX,
            old(self).next_tag < u64::MAX,
            vlen == byte_len(value@) as u64,
            vlen <= VALUE_MAX,
        ensures
            final(self).wf(),
            final(self).key_dir == old(self).key_dir,
            final(self).data_dir == old(self).data_dir,
            final(self).clock == old(self).clock + 1,
            final(self).next_tag <= old(self).next_tag + 1,
            e.name == key,
            e.length == vlen,
            final(self).entry_valid(e),
            lookup_value(final(self).all_segs(), e.file_tag, e.offset) == value@,
            forall|e2: DirEntry|
                old(self).entry_valid(e2) ==> final(self).entry_valid(e2) && lookup_value(
                    final(self).all_segs(),
                    e2.file_tag,
                    e2.offset,
                ) == lookup_value(old(self).all_segs(), e2.file_tag, e2.offset),
    {
        let ts = self.clock;
        self.clock = self.clock + 1;
        let offset = self.active.end_off;
        let tag = self.active.tag;
        let rec = StoredRecord { ts, key, offset, vlen, value };
        let ghost old_active = self.active;
        let ghost old_all = old(self).all_segs();
        proof {
            assert(old_all[old_all.len() - 1] == self.active);
            assert(seg_wf(self.active));
            lemma_layout_bounds(self.active.recs@, 0);
        }
        self.active.recs.push(rec);
        self.active.end_off = offset + 24 + vlen;
        let ghost grown = self.active;
        let ghost rec_g = rec;
        proof {
            lemma_layout_push(old_active.recs@, 0, rec_g);
            assert(seg_wf(grown));
        }
        let e = DirEntry { file_tag: tag, timestamp: ts, name: key, offset, length: vlen };
        if self.active.end_off > FILE_MAX_OFFSET {
            let new_tag = self.next_tag;
            self.next_tag = self.next_tag + 1;
            let mut fresh = Segment { tag: new_tag, recs: Vec::new(), end_off: 0 };
            core::mem::swap(&mut self.active, &mut fresh);
            self.sealed.push(fresh);
            proof {
                assert(seg_wf(self.active));
                assert(self.all_segs() =~= old_all.update(old_all.len() - 1, grown).push(
                    self.active,
                ));
            }
        } else {
            proof {
                assert(self.all_segs() =~= old_all.update(old_all.len() - 1, grown));
            }
        }
        proof {
            let mid = old_all.update(old_all.len() - 1, grown);
            let lastidx = old_all.len() - 1;
            // the new record is found at the old end offset of the active segment
            lemma_find_rec(old_active.recs@, offset);
            assert(find_rec(old_active.recs@, offset) == -1) by {
                if find_rec(old_active.recs@, offset) >= 0 {
                    let l = find_rec(old_active.recs@, offset);
                    lemma_layout_bounds(old_active.recs@, 0);
                    assert(old_active.recs@[l].offset + 24 + old_active.recs@[l].vlen
                        <= old_active.end_off);
                }
            }
            lemma_find_rec_push(old_active.recs@, rec_g, offset);
            assert(find_rec(grown.recs@, offset) == old_active.recs@.len());
            assert(grown.recs@[old_active.recs@.len() as int] == rec_g);
            // the active segment is found at its old position
            lemma_find_seg(mid, tag);
            assert(find_seg(mid, tag) == lastidx) by {
                assert(mid[lastidx].tag == tag);
                if find_seg(mid, tag) == -1 {
                    assert(mid[lastidx].tag != tag);
                }
                let si = find_seg(mid, tag);
                if si < lastidx {
                    assert(old_all[si] == mid[si]);
                    assert(old_all[si].tag != old_all[lastidx].tag);
                }
            }
            assert(lookup_value(mid, tag, offset) == value@);
            // every location valid before stays valid and keeps its value
            assert forall|e2: DirEntry| old(self).entry_valid(e2) implies lookup_value(
                mid,
                e2.file_tag,
                e2.offset,
            ) == lookup_value(old_all, e2.file_tag, e2.offset) && {
                let si = find_seg(mid, e2.file_tag);
                &&& si >= 0
                &&& {
                    let ri = find_rec(mid[si].recs@, e2.offset);
                    &&& ri >= 0
                    &&& mid[si].recs@[ri].key == e2.name
                    &&& mid[si].recs@[ri].vlen == e2.length
                    &&& mid[si].recs@[ri].ts == e2.timestamp
                }
            } by {
                let si = find_seg(old_all, e2.file_tag);
                lemma_find_seg(old_all, e2.file_tag);
                lemma_find_seg_update(old_all, lastidx, grown, e2.file_tag);
                if si == lastidx {
                    assert(old_all[si] == old_active);
                    lemma_find_rec(old_active.recs@, e2.offset);
                    lemma_find_rec_push(old_active.recs@, rec_g, e2.offset);
                    assert(grown.recs@ == old_active.recs@.push(rec_g));
                    let ri = find_rec(old_active.recs@, e2.offset);
                    assert(find_rec(grown.recs@, e2.offset) == ri);
                    assert(grown.recs@[ri] == old_active.recs@[ri]);
                } else {
                    assert(mid[si] == old_all[si]);
                }
            }
            let fin = self.all_segs();
            if fin.len() == mid.len() + 1 {
                // the roll-over case: facts carry across the final push
                let added = fin[mid.len() as int];
                assert(fin =~= mid.push(added));
                assert forall|t: u64| find_seg(mid, t) >= 0 implies find_seg(fin, t) == find_seg(
                    mid,
                    t,
                ) && fin[find_seg(mid, t)] == mid[find_seg(mid, t)] by {
                    lemma_find_seg(mid, t);
                    lemma_find_seg_push(mid, added, t);
                }
            } else {
                assert(fin =~= mid);
            }
            // the segments of the final state are well formed
            assert forall|i: int| 0 <= i < fin.len() implies seg_wf(#[trigger] fin[i]) by {
                if i < lastidx {
                    assert(fin[i] == old_all[i]);
                } else if i == lastidx {
                    assert(fin[i] == grown);
                }
            }
            // their tags are pairwise distinct and below the next tag
            assert forall|i: int, j: int| 0 <= i < j < fin.len() implies (
            #[trigger] fin[i]).tag != (#[trigger] fin[j]).tag by {
                if j < mid.len() {
                    assert(fin[i].tag == old_all[i].tag);
                    assert(fin[j].tag == old_all[j].tag);
                } else {
                    assert(fin[i].tag == old_all[i].tag);
                    assert(old_all[i].tag < old(self).next_tag);
                }
            }
            assert forall|i: int| 0 <= i < fin.len() implies (#[trigger] fin[i]).tag
                < self.next_tag by {
                if i < mid.len() {
                    assert(fin[i].tag == old_all[i].tag);
                }
            }
            // every record's timestamp lies below the advanced clock
            assert forall|i: int, j: int|
                0 <= i < fin.len() && 0 <= j < (#[trigger] fin[i]).recs@.len() implies (
            #[trigger] fin[i].recs@[j]).ts < self.clock by {
                if i < lastidx {
                    assert(fin[i] == old_all[i]);
                } else if i == lastidx {
                    assert(fin[i] == grown);
                    if j < old_active.recs@.len() {
                        assert(grown.recs@[j] == old_active.recs@[j]);
                    } else {
                        assert(grown.recs@[j] == rec_g);
                    }
                }
            }
        }
        e
    }
}

impl BitCask {
    /// The value of `key`, or the empty string when the key is absent.
    pub fn get(&self, key: usize) -> (r: Result<String, KvError>)
        requires
            self.wf(),
        ensures
            match r {
                Ok(v) => v@ == if self.view_map().contains_key(key) {
                    self.view_map()[key]
                } else {
                    Seq::<char>::empty()
                },
                Err(_) => false,
            },
    {
        match self.key_dir.get(key) {
            None => Ok(String::new()),
            Some(e) => {
                let v = self.read_value(&e);
                Ok(v)
            },
        }
    }

    /// Appends one record for `key` and installs its directory entry.
    fn put_one(&mut self, key: usize, value: String, vlen: u64)
        requires
            old(self).wf(),
            old(self).clock < u64::MAX,
            old(self).next_tag < u64::MAX,
            vlen == byte_len(value@) as u64,
            vlen <= VALUE_MAX,
        ensures
            final(self).wf(),
            final(self).view_map() == old(self).view_map().insert(key, value@),
            final(self).clock == old(self).clock + 1,
            final(self).next_tag <= old(self).next_tag + 1,
            final(self).data_dir == old(self).data_dir,
    {
        let ghost value_v = value@;
        let e = self.append_record(key, value, vlen);
        self.key_dir.insert(e);
        proof {
            assert(self.view_map() =~= old(self).view_map().insert(key, value_v)) by {
                assert forall|k: usize| self.view_map().contains_key(k) implies old(
                    self,
                ).view_map().insert(key, value_v).contains_key(k) && self.view_map()[k] == old(
                    self,
                ).view_map().insert(key, value_v)[k] by {
                    if k != key {
                        assert(old(self).entry_valid(old(self).key_dir@[k]));
                    }
                }
                assert forall|k: usize|
                    old(self).view_map().insert(key, value_v).contains_key(k) implies
                    self.view_map().contains_key(k) by {}
            }
        }
    }

    /// Stores `value` under `key`, appending one record and installing the
    /// directory entry.  Refused only for a value over the record size
    /// limit, or when the engine has exhausted its timestamps or segment
    /// tags.
    pub fn put(&mut self, key: usize, value: String) -> (r: Result<(), KvError>)
        requires
            old(self).wf(),
        ensures
            final(self).wf(),
            match r {
                Ok(()) => {
                    &&& byte_len(value@) as u64 <= VALUE_MAX
                    &&& old(self).clock < u64::MAX
                    &&& old(self).next_tag < u64::MAX
                    &&& final(self).view_map() == old(self).view_map().insert(key, value@)
                },
                Err(KvError::ValueTooLarge) => byte_len(value@) as u64 > VALUE_MAX && *final(self)
                    == *old(self),
                Err(KvError::Io) => byte_len(value@) as u64 <= VALUE_MAX && (old(self).clock
                    == u64::MAX || old(self).next_tag == u64::MAX) && *final(self) == *old(self),
                Err(_) => false,
            },
    {
        let vlen_b = value.as_str().len();
        proof {
            reveal(byte_len);
        }
        if vlen_b as u64 > VALUE_MAX {
            return Err(KvError::ValueTooLarge);
        }
        if self.clock == u64::MAX || self.next_tag == u64::MAX {
            return Err(KvError::Io);
        }
        self.put_one(key, value, vlen_b as u64);
        Ok(())
    }

    /// Every key of `start ..= end` the engine holds, with its value; keys
    /// in ascending order.
    #[verifier::rlimit(100)]
    pub fn range(&self, start: usize, end: usize) -> (r: Result<Vec<KV>, KvError>)
        requires
            self.wf(),
        ensures
            match r {
                Ok(out) => {
                    &&& forall|l: int|
                        0 <= l < out@.len() ==> start <= (#[trigger] out@[l]).key <= end
                            && self.view_map().contains_key(out@[l].key) && out@[l].value@
                            == self.view_map()[out@[l].key]
                    &&& forall|l1: int, l2: int|
                        0 <= l1 < l2 < out@.len() ==> (#[trigger] out@[l1]).key < (
                        #[trigger] out@[l2]).key
                    &&& forall|k: usize|
                        self.view_map().contains_key(k) && start <= k <= end ==> exists|l: int|
                            0 <= l < out@.len() && (#[trigger] out@[l]).key == k
                },
                Err(_) => false,
            },
    {
        proof {
            lemma_dir_as_map(self.key_dir.entries@);
        }
        let n = self.key_dir.entries.len();
        let mut out: Vec<KV> = Vec::new();
        let mut i: usize = 0;
        while i < n
            invariant
                i <= n,
                self.wf(),
                n == self.key_dir.entries@.len(),
                forall|l: int|
                    0 <= l < out@.len() ==> start <= (#[trigger] out@[l]).key <= end
                        && self.view_map().contains_key(out@[l].key) && out@[l].value@
                        == self.view_map()[out@[l].key],
                forall|l1: int, l2: int|
                    0 <= l1 < l2 < out@.len() ==> (#[trigger] out@[l1]).key < (
                    #[trigger] out@[l2]).key,
                forall|l: int|
                    0 <= l < out@.len() ==> exists|j: int|
                        0 <= j < i && (#[trigger] out@[l]).key == self.key_dir.entries@[j].name,
                forall|j: int|
                    0 <= j < i && start <= (#[trigger] self.key_dir.entries@[j]).name <= end
                        ==> exists|l: int|
                        0 <= l < out@.len() && (#[trigger] out@[l]).key
                            == self.key_dir.entries@[j].name,
            decreases n - i,
        {
            let name = self.key_dir.entries[i].name;
            if start <= name && name <= end {
                let e = self.key_dir.entries[i];
                proof {
                    lemma_dir_as_map(self.key_dir.entries@);
                    assert(self.key_dir@.contains_key(name) && self.key_dir@[name] == e);
                }
                let v = self.read_value(&e);
                let ghost old_out = out@;
                out.push(KV { key: name, value: v });
                proof {
                    assert forall|l1: int, l2: int|
                        0 <= l1 < l2 < out@.len() implies (#[trigger] out@[l1]).key < (
                    #[trigger] out@[l2]).key by {
                        if l2 < out@.len() - 1 {
                        } else {
                            let j1 = choose|j: int|
                                0 <= j < i && (#[trigger] out@[l1]).key
                                    == self.key_dir.entries@[j].name;
                            assert(self.key_dir.entries@[j1].name
                                < self.key_dir.entries@[i as int].name);
                        }
                    }
                    assert(out@[out@.len() - 1].key == self.key_dir.entries@[i as int].name);
                    assert forall|j: int|
                        0 <= j < i + 1 && start <= (#[trigger] self.key_dir.entries@[j]).name
                            <= end implies exists|l: int|
                        0 <= l < out@.len() && (#[trigger] out@[l]).key
                            == self.key_dir.entries@[j].name by {
                        if j < i {
                            let l = choose|l: int|
                                0 <= l < old_out.len() && (#[trigger] old_out[l]).key
                                    == self.key_dir.entries@[j].name;
                            assert(out@[l].key == self.key_dir.entries@[j].name);
                        } else {
                            assert(out@[out@.len() - 1].key == self.key_dir.entries@[j].name);
                        }
                    }
                }
            }
            i = i + 1;
        }
        proof {
            lemma_dir_as_map(self.key_dir.entries@);
            assert forall|k: usize|
                self.view_map().contains_key(k) && start <= k <= end implies exists|l: int|
                0 <= l < out@.len() && (#[trigger] out@[l]).key == k by {
                let j = choose|j: int|
                    0 <= j < self.key_dir.entries@.len() && (
                    #[trigger] self.key_dir.entries@[j]).name == k;
                assert(start <= self.key_dir.entries@[j].name <= end);
            }
        }
        Ok(out)
    }

    /// Removes `key` from the directory; the key's records on disk become
    /// garbage for compaction to reclaim.
    pub fn delete(&mut self, key: usize) -> (r: Result<(), KvError>)
        requires
            old(self).wf(),
        ensures
            final(self).wf(),
            r is Ok,
            final(self).view_map() == old(self).view_map().remove(key),
    {
        self.key_dir.remove(key);
        proof {
            assert(self.view_map() =~= old(self).view_map().remove(key));
        }
        Ok(())
    }
}

impl BitCask {
    /// Stores every pair of `kvs` in order with one sequence of appends;
    /// for duplicate keys the later pair wins.  Refused as a whole when a
    /// value is over the record size limit or the engine lacks room for
    /// that many records; nothing is stored then.
    pub fn batch_put(&mut self, kvs: Vec<KV>) -> (r: Result<(), KvError>)
        requires
            old(self).wf(),
        ensures
            final(self).wf(),
            match r {
                Ok(()) => {
                    &&& forall|i: int|
                        0 <= i < kvs@.len() ==> byte_len((#[trigger] kvs@[i]).value@) as u64
                            <= VALUE_MAX
                    &&& old(self).clock + kvs@.len() <= u64::MAX
                    &&& old(self).next_tag + kvs@.len() <= u64::MAX
                    &&& final(self).view_map() == put_all(old(self).view_map(), kvs@)
                },
                Err(KvError::ValueTooLarge) => (exists|i: int|
                    0 <= i < kvs@.len() && byte_len((#[trigger] kvs@[i]).value@) as u64
                        > VALUE_MAX) && *final(self) == *old(self),
                Err(KvError::Io) => (forall|i: int|
                    0 <= i < kvs@.len() ==> byte_len((#[trigger] kvs@[i]).value@) as u64
                        <= VALUE_MAX) && (old(self).clock + kvs@.len() > u64::MAX || old(
                    self,
                ).next_tag + kvs@.len() > u64::MAX) && *final(self) == *old(self),
                Err(_) => false,
            },
    {
        let n = kvs.len();
        let mut i: usize = 0;
        while i < n
            invariant
                i <= n,
                n == kvs@.len(),
                *self == *old(self),
                old(self).wf(),
                forall|j: int|
                    0 <= j < i ==> byte_len((#[trigger] kvs@[j]).value@) as u64 <= VALUE_MAX,
            decreases n - i,
        {
            let l = kvs[i].value.as_str().len();
            proof {
                reveal(byte_len);
            }
            if l as u64 > VALUE_MAX {
                return Err(KvError::ValueTooLarge);
            }
            i = i + 1;
        }
        if (n as u64) > u64::MAX - self.clock || (n as u64) > u64::MAX - self.next_tag {
            return Err(KvError::Io);
        }
        let ghost base_view = self.view_map();
        let ghost base_clock = self.clock;
        let ghost base_tag = self.next_tag;
        let mut i: usize = 0;
        proof {
            assert(kvs@.take(0) =~= Seq::<KV>::empty());
        }
        while i < n
            invariant
                i <= n,
                n == kvs@.len(),
                self.wf(),
                forall|j: int|
                    0 <= j < n ==> byte_len((#[trigger] kvs@[j]).value@) as u64 <= VALUE_MAX,
                self.view_map() == put_all(base_view, kvs@.take(i as int)),
                self.clock <= base_clock + i,
                self.next_tag <= base_tag + i,
                base_clock + n <= u64::MAX,
                base_tag + n <= u64::MAX,
                self.data_dir == old(self).data_dir,
            decreases n - i,
        {
            let key = kvs[i].key;
            let value = kvs[i].value.clone();
            let vlen_b = value.as_str().len();
            proof {
                reveal(byte_len);
                assert(value@ == kvs@[i as int].value@);
            }
            let ghost pre_view = self.view_map();
            self.put_one(key, value, vlen_b as u64);
            proof {
                lemma_put_all_push(base_view, kvs@.take(i as int), kvs@[i as int]);
                assert(kvs@.take(i + 1) =~= kvs@.take(i as int).push(kvs@[i as int]));
            }
            i = i + 1;
        }
        proof {
            assert(kvs@.take(n as int) =~= kvs@);
        }
        Ok(())
    }
}

/// Whether a segment with tag `tag` holding a record at `off` exists.
pub open spec fn loc_ok(segs: Seq<Segment>, tag: u64, off: u64) -> bool {
    find_seg(segs, tag) >= 0 && find_rec(segs[find_seg(segs, tag)].recs@, off) >= 0
}

/// The record stored at an existing location.
pub open spec fn loc_rec(segs: Seq<Segment>, tag: u64, off: u64) -> StoredRecord {
    segs[find_seg(segs, tag)].recs@[find_rec(segs[find_seg(segs, tag)].recs@, off)]
}

/// Appending a record to the last segment moves no existing location.
proof fn lemma_loc_grow_last(segs: Seq<Segment>, grown: Segment, r: StoredRecord)
    requires
        segs.len() > 0,
        grown.tag == segs.last().tag,
        grown.recs@ == segs.last().recs@.push(r),
    ensures
        forall|tag: u64, off: u64|
            #![trigger loc_rec(segs, tag, off)]
            loc_ok(segs, tag, off) ==> {
                let mid = segs.update(segs.len() - 1, grown);
                loc_ok(mid, tag, off) && loc_rec(mid, tag, off) == loc_rec(segs, tag, off)
            },
{
    let last = segs.len() - 1;
    let mid = segs.update(last, grown);
    assert forall|tag: u64, off: u64| loc_ok(segs, tag, off) implies loc_ok(mid, tag, off)
        && loc_rec(mid, tag, off) == loc_rec(segs, tag, off) by {
        let si = find_seg(segs, tag);
        lemma_find_seg(segs, tag);
        lemma_find_seg_update(segs, last, grown, tag);
        if si == last {
            lemma_find_rec(segs.last().recs@, off);
            lemma_find_rec_push(segs.last().recs@, r, off);
            let ri = find_rec(segs.last().recs@, off);
            assert(grown.recs@[ri] == segs.last().recs@[ri]);
        } else {
            assert(mid[si] == segs[si]);
        }
    }
}

/// Appending a whole segment moves no existing location.
proof fn lemma_loc_push(segs: Seq<Segment>, s: Segment)
    ensures
        forall|tag: u64, off: u64|
            #![trigger loc_rec(segs, tag, off)]
            loc_ok(segs, tag, off) ==> loc_ok(segs.push(s), tag, off) && loc_rec(
                segs.push(s),
                tag,
                off,
            ) == loc_rec(segs, tag, off),
{
    assert forall|tag: u64, off: u64| loc_ok(segs, tag, off) implies loc_ok(segs.push(s), tag, off)
        && loc_rec(segs.push(s), tag, off) == loc_rec(segs, tag, off) by {
        lemma_find_seg(segs, tag);
        lemma_find_seg_push(segs, s, tag);
        let si = find_seg(segs, tag);
        assert(segs.push(s)[si] == segs[si]);
    }
}

/// Appends one record to a standalone segment.
fn seg_append(seg: &mut Segment, ts: u64, key: usize, value: String, vlen: u64)
    requires
        seg_wf(*old(seg)),
        old(seg).end_off <= FILE_MAX_OFFSET,
        vlen == byte_len(value@) as u64,
        vlen <= VALUE_MAX,
    ensures
        seg_wf(*final(seg)),
        final(seg).tag == old(seg).tag,
        final(seg).recs@ == old(seg).recs@.push(
            StoredRecord { ts, key, offset: old(seg).end_off, vlen, value },
        ),
        final(seg).end_off == old(seg).end_off + 24 + vlen,
        find_rec(final(seg).recs@, old(seg).end_off) == old(seg).recs@.len(),
{
    let offset = seg.end_off;
    let rec = StoredRecord { ts, key, offset, vlen, value };
    let ghost rec_g = rec;
    let ghost old_recs = seg.recs@;
    proof {
        lemma_layout_bounds(old_recs, 0);
    }
    seg.recs.push(rec);
    seg.end_off = offset + 24 + vlen;
    proof {
        lemma_layout_push(old_recs, 0, rec_g);
        lemma_find_rec(old_recs, offset);
        assert(find_rec(old_recs, offset) == -1) by {
            if find_rec(old_recs, offset) >= 0 {
                let l = find_rec(old_recs, offset);
                assert(old_recs[l].offset + 24 + old_recs[l].vlen <= old(seg).end_off);
            }
        }
        lemma_find_rec_push(old_recs, rec_g, offset);
    }
}

/// The directory after installing each entry of `es` in order under its
/// key.
pub open spec fn install_all(m: Map<usize, DirEntry>, es: Seq<DirEntry>) -> Map<usize, DirEntry>
    decreases es.len(),
{
    if es.len() == 0 {
        m
    } else {
        install_all(m.insert(es[0].name, es[0]), es.drop_first())
    }
}

/// Installing one more entry folds onto the end.
proof fn lemma_install_all_push(m: Map<usize, DirEntry>, es: Seq<DirEntry>, e: DirEntry)
    ensures
        install_all(m, es.push(e)) == install_all(m, es).insert(e.name, e),
    decreases es.len(),
{
    reveal_with_fuel(install_all, 3);
    if es.len() == 0 {
        assert(es.push(e)[0] == e);
        assert(es.push(e).drop_first() =~= Seq::<DirEntry>::empty());
    } else {
        assert(es.push(e)[0] == es[0]);
        assert(es.push(e).drop_first() =~= es.drop_first().push(e));
        lemma_install_all_push(m.insert(es[0].name, es[0]), es.drop_first(), e);
    }
}

/// When the installed entries carry distinct keys, each key ends up at its
/// own entry and every other key keeps its old binding.
proof fn lemma_install_all_facts(m: Map<usize, DirEntry>, es: Seq<DirEntry>)
    requires
        forall|i: int, j: int|
            0 <= i < j < es.len() ==> (#[trigger] es[i]).name != (#[trigger] es[j]).name,
    ensures
        forall|l: int|
            0 <= l < es.len() ==> install_all(m, es).contains_key((#[trigger] es[l]).name)
                && install_all(m, es)[es[l].name] == es[l],
        forall|k: usize|
            #![trigger install_all(m, es).contains_key(k)]
            (forall|l: int| 0 <= l < es.len() ==> (#[trigger] es[l]).name != k) ==> (install_all(
                m,
                es,
            ).contains_key(k) == m.contains_key(k) && (m.contains_key(k) ==> install_all(m, es)[k]
                == m[k])),
    decreases es.len(),
{
    if es.len() > 0 {
        let e0 = es[0];
        let rest = es.drop_first();
        let m2 = m.insert(e0.name, e0);
        assert(forall|i: int| 0 <= i < rest.len() ==> rest[i] == es[i + 1]);
        lemma_install_all_facts(m2, rest);
        assert forall|l: int| 0 <= l < es.len() implies install_all(m, es).contains_key(
            (#[trigger] es[l]).name,
        ) && install_all(m, es)[es[l].name] == es[l] by {
            if l == 0 {
                assert(forall|i: int| 0 <= i < rest.len() ==> (#[trigger] rest[i]).name != e0.name);
                assert(install_all(m2, rest).contains_key(e0.name) == m2.contains_key(e0.name));
            } else {
                assert(rest[l - 1] == es[l]);
            }
        }
        assert forall|k: usize|
            (forall|l: int| 0 <= l < es.len() ==> (#[trigger] es[l]).name != k) implies (
        #[trigger] install_all(m, es).contains_key(k)) == m.contains_key(k) && (m.contains_key(k)
            ==> install_all(m, es)[k] == m[k]) by {
            assert(forall|i: int| 0 <= i < rest.len() ==> (#[trigger] rest[i]).name != k) by {
                assert(forall|i: int| 0 <= i < rest.len() ==> rest[i] == es[i + 1]);
            }
            assert(es[0].name != k);
            assert(install_all(m2, rest).contains_key(k) == m2.contains_key(k));
        }
    }
}

impl BitCask {
    /// Rewrites every live record into fresh compaction segments, installs
    /// the new locations in the directory, and replaces the sealed segments
    /// by the compaction output, dropping everything the directory no
    /// longer references.  What the store holds does not change.  Refused
    /// when the engine lacks timestamps or tags for that many records;
    /// nothing changes then.
    #[verifier::rlimit(100)]
    #[verifier::spinoff_prover]
    pub fn compact_files(&mut self) -> (r: Result<(), KvError>)
        requires
            old(self).wf(),
        ensures
            final(self).wf(),
            match r {
                Ok(()) => {
                    // what is stored does not change, the active segment
                    // stays, and every old sealed segment is dropped: all
                    // remaining sealed segments are fresh compaction output
                    &&& final(self).view_map() == old(self).view_map()
                    &&& final(self).active == old(self).active
                    &&& forall|j: int|
                        0 <= j < final(self).sealed@.len()
                            ==> (#[trigger] final(self).sealed@[j]).tag >= old(self).next_tag
                },
                Err(KvError::Io) => *final(self) == *old(self) && (old(self).clock
                    + old(self).key_dir@.dom().len() > u64::MAX || old(self).next_tag + old(
                    self,
                ).key_dir@.dom().len() + 1 > u64::MAX),
                Err(_) => false,
            },
    {
        let n = self.key_dir.len();
        if (n as u64) > u64::MAX - self.clock || (n as u64) >= u64::MAX - self.next_tag {
            return Err(KvError::Io);
        }
        let ghost old_view = self.view_map();
        let ghost old_dir = self.key_dir@;
        let ghost dir_entries = self.key_dir.entries@;
        let ghost base_clock = self.clock;
        let ghost base_tag = self.next_tag;
        let mut ts_counter: u64 = self.clock;
        let mut tag_counter: u64 = self.next_tag;
        let mut comp = Segment { tag: tag_counter, recs: Vec::new(), end_off: 0 };
        tag_counter = tag_counter + 1;
        let mut comp_done: Vec<Segment> = Vec::new();
        let mut new_entries: Vec<DirEntry> = Vec::new();
        let mut i: usize = 0;
        proof {
            lemma_dir_as_map(dir_entries);
        }
        while i < n
            invariant
                i <= n,
                self == old(self),
                self.wf(),
                n == dir_entries.len(),
                dir_entries == self.key_dir.entries@,
                old_view == self.view_map(),
                base_clock == self.clock,
                base_tag == self.next_tag,
                ts_counter == base_clock + i,
                base_clock + n <= u64::MAX,
                base_tag + n < u64::MAX,
                base_tag < tag_counter <= base_tag + 1 + i,
                comp.tag < tag_counter,
                comp.tag >= base_tag,
                seg_wf(comp),
                comp.end_off <= FILE_MAX_OFFSET,
                forall|j: int|
                    0 <= j < comp_done@.len() ==> seg_wf(#[trigger] comp_done@[j])
                        && comp_done@[j].tag >= base_tag && comp_done@[j].tag < comp.tag,
                forall|j1: int, j2: int|
                    0 <= j1 < j2 < comp_done@.len() ==> (#[trigger] comp_done@[j1]).tag < (
                    #[trigger] comp_done@[j2]).tag,
                forall|j: int, l: int|
                    0 <= j < comp_done@.push(comp).len() && 0 <= l < (
                    #[trigger] comp_done@.push(comp)[j]).recs@.len() ==> base_clock <= (
                    #[trigger] comp_done@.push(comp)[j].recs@[l]).ts < ts_counter,
                new_entries@.len() == i,
                forall|l: int|
                    0 <= l < i ==> {
                        let ne = #[trigger] new_entries@[l];
                        let segs = comp_done@.push(comp);
                        &&& ne.name == dir_entries[l].name
                        &&& ne.timestamp == base_clock + l
                        &&& loc_ok(segs, ne.file_tag, ne.offset)
                        &&& loc_rec(segs, ne.file_tag, ne.offset).key == ne.name
                        &&& loc_rec(segs, ne.file_tag, ne.offset).vlen == ne.length
                        &&& loc_rec(segs, ne.file_tag, ne.offset).ts == ne.timestamp
                        &&& loc_rec(segs, ne.file_tag, ne.offset).value@ == old_view[ne.name]
                    },
            decreases n - i,
        {
            let e = self.key_dir.entries[i];
            proof {
                lemma_dir_as_map(dir_entries);
                assert(self.key_dir@.contains_key(e.name) && self.key_dir@[e.name] == e);
            }
            let v = self.read_value(&e);
            let ghost v_view = v@;
            let vlen_b = v.as_str().len();
            proof {
                // the read value is the record the entry points at, whose
                // length the layout invariant pins down
                reveal(byte_len);
                let segs = self.all_segs();
                let si = find_seg(segs, e.file_tag);
                lemma_find_seg(segs, e.file_tag);
                assert(seg_wf(segs[si]));
                let ri = find_rec(segs[si].recs@, e.offset);
                lemma_find_rec(segs[si].recs@, e.offset);
                lemma_layout_bounds(segs[si].recs@, 0);
                assert(segs[si].recs@[ri].vlen == byte_len(segs[si].recs@[ri].value@) as u64);
                assert(v@ == segs[si].recs@[ri].value@);
                assert(old_view.contains_key(e.name));
                assert(old_view[e.name] == v_view);
            }
            let ts = ts_counter;
            ts_counter = ts_counter + 1;
            let ghost pre_segs = comp_done@.push(comp);
            let offset = comp.end_off;
            seg_append(&mut comp, ts, e.name, v, vlen_b as u64);
            proof {
                lemma_loc_grow_last(pre_segs, comp, comp.recs@.last());
                assert(pre_segs.update(pre_segs.len() - 1, comp) =~= comp_done@.push(comp));
            }
            let ne = DirEntry {
                file_tag: comp.tag,
                timestamp: ts,
                name: e.name,
                offset,
                length: vlen_b as u64,
            };
            proof {
                let segs = comp_done@.push(comp);
                lemma_find_seg(segs, comp.tag);
                assert(find_seg(segs, comp.tag) == segs.len() - 1) by {
                    assert(segs[segs.len() - 1].tag == comp.tag);
                    if find_seg(segs, comp.tag) == -1 {
                        assert(segs[segs.len() - 1].tag != comp.tag);
                    }
                    let si = find_seg(segs, comp.tag);
                    if si < segs.len() - 1 {
                        assert(comp_done@[si].tag < comp.tag);
                    }
                }
                assert(loc_ok(segs, ne.file_tag, ne.offset));
                assert(loc_rec(segs, ne.file_tag, ne.offset).value@ == v_view);
            }
            new_entries.push(ne);
            if comp.end_off > FILE_MAX_OFFSET {
                let ghost before_roll = comp_done@.push(comp);
                let mut taken = Segment { tag: tag_counter, recs: Vec::new(), end_off: 0 };
                tag_counter = tag_counter + 1;
                core::mem::swap(&mut comp, &mut taken);
                comp_done.push(taken);
                proof {
                    lemma_loc_push(before_roll, comp);
                    assert(comp_done@.push(comp) =~= before_roll.push(comp));
                }
            }
            i = i + 1;
        }
        let ghost comp_segs = comp_done@.push(comp);
        comp_done.push(comp);
        proof {
            assert(comp_done@ =~= comp_segs);
        }
        self.sealed = comp_done;
        self.clock = ts_counter;
        self.next_tag = tag_counter;
        proof {
            // the compaction output joined by the untouched active segment
            lemma_loc_push(comp_segs, self.active);
            assert(self.all_segs() =~= comp_segs.push(self.active));
            assert(forall|l1: int, l2: int|
                0 <= l1 < l2 < new_entries@.len() ==> (#[trigger] new_entries@[l1]).name != (
                #[trigger] new_entries@[l2]).name);
        }
        // install the new locations; a live entry is only overwritten when
        // it is not newer than the compacted copy, and a key deleted in the
        // meantime must stay deleted
        let m = new_entries.len();
        let mut j: usize = 0;
        while j < m
            invariant
                j <= m,
                m == new_entries@.len(),
                m == dir_entries.len(),
                old(self).wf(),
                dir_entries == old(self).key_dir.entries@,
                old_dir == old(self).key_dir@,
                old_view == old(self).view_map(),
                base_clock == old(self).clock,
                self.key_dir.wf(),
                self.key_dir@ == install_all(old_dir, new_entries@.take(j as int)),
                self.sealed@ == comp_segs,
                self.active == old(self).active,
                self.data_dir == old(self).data_dir,
                self.clock == ts_counter,
                self.next_tag == tag_counter,
                ts_counter == base_clock + m,
                forall|l1: int, l2: int|
                    0 <= l1 < l2 < m ==> (#[trigger] new_entries@[l1]).name != (
                    #[trigger] new_entries@[l2]).name,
                forall|l: int|
                    0 <= l < m ==> {
                        let ne = #[trigger] new_entries@[l];
                        &&& ne.name == dir_entries[l].name
                        &&& ne.timestamp == base_clock + l
                        &&& loc_ok(comp_segs, ne.file_tag, ne.offset)
                        &&& loc_rec(comp_segs, ne.file_tag, ne.offset).key == ne.name
                        &&& loc_rec(comp_segs, ne.file_tag, ne.offset).vlen == ne.length
                        &&& loc_rec(comp_segs, ne.file_tag, ne.offset).ts == ne.timestamp
                        &&& loc_rec(comp_segs, ne.file_tag, ne.offset).value@ == old_view[ne.name]
                    },
            decreases m - j,
        {
            let ne = new_entries[j];
            proof {
                lemma_dir_as_map(dir_entries);
                lemma_install_all_facts(old_dir, new_entries@.take(j as int));
                assert(forall|l: int|
                    0 <= l < j ==> (#[trigger] new_entries@.take(j as int)[l]).name
                        == new_entries@[l].name);
                assert(forall|l: int|
                    0 <= l < j ==> (#[trigger] new_entries@[l]).name != ne.name);
                assert(old_dir.contains_key(ne.name) && old_dir[ne.name]
                    == old_dir[dir_entries[j as int].name]);
                // the live entry predates the compaction scan
                assert(old(self).entry_valid(old_dir[ne.name]));
                let e_old = old_dir[ne.name];
                let osegs = old(self).all_segs();
                let osi = find_seg(osegs, e_old.file_tag);
                lemma_find_seg(osegs, e_old.file_tag);
                let ori = find_rec(osegs[osi].recs@, e_old.offset);
                lemma_find_rec(osegs[osi].recs@, e_old.offset);
                assert(osegs[osi].recs@[ori].ts == e_old.timestamp);
                assert(osegs[osi].recs@[ori].ts < base_clock);
                assert(old_dir[ne.name].timestamp < base_clock);
            }
            match self.key_dir.get(ne.name) {
                None => {},
                Some(live) => {
                    if live.timestamp <= ne.timestamp {
                        self.key_dir.insert(ne);
                    }
                },
            }
            proof {
                lemma_install_all_push(old_dir, new_entries@.take(j as int), ne);
                assert(new_entries@.take(j + 1) =~= new_entries@.take(j as int).push(ne));
            }
            j = j + 1;
        }
        proof {
            assert(new_entries@.take(m as int) =~= new_entries@);
            let es = new_entries@;
            lemma_install_all_facts(old_dir, es);
            lemma_dir_as_map(dir_entries);
            // every live key now points at its compacted record
            assert forall|k: usize| self.key_dir@.contains_key(k) implies (
            #[trigger] self.key_dir@[k]).name == k && self.entry_valid(self.key_dir@[k]) by {
                if forall|l: int| 0 <= l < es.len() ==> (#[trigger] es[l]).name != k {
                    assert(!old_dir.contains_key(k)) by {
                        if old_dir.contains_key(k) {
                            let w = choose|w: int|
                                0 <= w < dir_entries.len() && (#[trigger] dir_entries[w]).name
                                    == k;
                            assert(es[w].name == k);
                        }
                    }
                } else {
                    let l = choose|l: int| 0 <= l < es.len() && (#[trigger] es[l]).name == k;
                    assert(self.key_dir@[k] == es[l]);
                }
            }
            // the final state is well formed
            assert forall|x: int| 0 <= x < self.all_segs().len() implies seg_wf(
                #[trigger] self.all_segs()[x],
            ) by {
                if x < comp_segs.len() {
                    assert(self.all_segs()[x] == comp_segs[x]);
                } else {
                    assert(self.all_segs()[x] == self.active);
                    assert(old(self).all_segs()[old(self).sealed@.len() as int]
                        == old(self).active);
                }
            }
            assert(seg_wf(old(self).active)) by {
                assert(old(self).all_segs()[old(self).sealed@.len() as int] == old(self).active);
            }
            assert forall|x: int, y: int| 0 <= x < y < self.all_segs().len() implies (
            #[trigger] self.all_segs()[x]).tag != (#[trigger] self.all_segs()[y]).tag by {
                assert(old(self).all_segs()[old(self).sealed@.len() as int] == old(self).active);
                assert(old(self).active.tag < base_tag);
                if y < comp_segs.len() {
                    assert(self.all_segs()[x] == comp_segs[x]);
                    assert(self.all_segs()[y] == comp_segs[y]);
                } else {
                    assert(self.all_segs()[x] == comp_segs[x]);
                    assert(self.all_segs()[y] == self.active);
                    assert(comp_segs[x].tag >= base_tag);
                }
            }
            assert forall|x: int| 0 <= x < self.all_segs().len() implies (
            #[trigger] self.all_segs()[x]).tag < self.next_tag by {
                assert(old(self).all_segs()[old(self).sealed@.len() as int] == old(self).active);
                if x < comp_segs.len() {
                    assert(self.all_segs()[x] == comp_segs[x]);
                } else {
                    assert(self.all_segs()[x] == self.active);
                    assert(old(self).active.tag < base_tag);
                }
            }
            assert forall|x: int, y: int|
                0 <= x < self.all_segs().len() && 0 <= y < (
            #[trigger] self.all_segs()[x]).recs@.len() implies (
            #[trigger] self.all_segs()[x].recs@[y]).ts < self.clock by {
                if x < comp_segs.len() {
                    assert(self.all_segs()[x] == comp_segs[x]);
                    assert(comp_segs[x] == comp_done@[x]);
                } else {
                    assert(self.all_segs()[x] == self.active);
                    assert(old(self).all_segs()[old(self).sealed@.len() as int]
                        == old(self).active);
                }
            }
            // and stores exactly what it stored before
            assert(self.view_map() =~= old_view) by {
                assert forall|k: usize| self.view_map().contains_key(k) implies
                    old_view.contains_key(k) && self.view_map()[k] == old_view[k] by {
                    if forall|l: int| 0 <= l < es.len() ==> (#[trigger] es[l]).name != k {
                        assert(install_all(old_dir, es).contains_key(k) == old_dir.contains_key(
                            k,
                        ));
                        let w = choose|w: int|
                            0 <= w < dir_entries.len() && (#[trigger] dir_entries[w]).name == k;
                        assert(es[w].name == k);
                    } else {
                        let l = choose|l: int| 0 <= l < es.len() && (#[trigger] es[l]).name == k;
                        assert(self.key_dir@[k] == es[l]);
                        assert(dir_entries[l].name == k);
                        assert(old_dir.contains_key(k));
                        assert(old_view.contains_key(k));
                        assert(loc_ok(comp_segs, es[l].file_tag, es[l].offset));
                        assert(loc_ok(self.all_segs(), es[l].file_tag, es[l].offset) && loc_rec(
                            self.all_segs(),
                            es[l].file_tag,
                            es[l].offset,
                        ) == loc_rec(comp_segs, es[l].file_tag, es[l].offset));
                        assert(self.view_map()[k] == loc_rec(
                            self.all_segs(),
                            es[l].file_tag,
                            es[l].offset,
                        ).value@);
                    }
                }
                assert forall|k: usize| old_view.contains_key(k) implies
                    self.view_map().contains_key(k) by {
                    let w = choose|w: int|
                        0 <= w < dir_entries.len() && (#[trigger] dir_entries[w]).name == k;
                    assert(es[w].name == k);
                }
            }
        }
        Ok(())
    }
}

impl KVStorage for BitCask {
    open spec fn st_wf(&self) -> bool {
        self.wf()
    }

    open spec fn st_view(&self) -> Map<usize, Seq<char>> {
        self.view_map()
    }

    fn get(&self, key: usize) -> Result<String, KvError> {
        BitCask::get(self, key)
    }

    fn put(&mut self, key: usize, value: String) -> Result<(), KvError> {
        BitCask::put(self, key, value)
    }

    fn delete(&mut self, key: usize) -> Result<(), KvError> {
        BitCask::delete(self, key)
    }

    fn range(&self, start: usize, end: usize) -> Result<Vec<KV>, KvError> {
        BitCask::range(self, start, end)
    }

    fn batch_put(&mut self, kvs: Vec<KV>) -> Result<(), KvError> {
        BitCask::batch_put(self, kvs)
    }
}

/// A fresh engine over `data_dir`: one empty active segment, an empty
/// directory.
pub fn new_bit_cask(data_dir: &str) -> (r: Result<BitCask, KvError>)
    ensures
        match r {
            Ok(bc) => bc.wf() && bc.view_map() == Map::<usize, Seq<char>>::empty()
                && bc.data_dir@ == data_dir@ && bc.clock == 0 && bc.next_tag == 1
                && bc.sealed@.len() == 0 && bc.active.recs@.len() == 0,
            Err(_) => false,
        },
{
    let bc = BitCask {
        data_dir: data_dir.to_owned(),
        active: Segment { tag: 0, recs: Vec::new(), end_off: 0 },
        sealed: Vec::new(),
        key_dir: KeyDir::new(),
        next_tag: 1,
        clock: 0,
    };
    proof {
        assert(bc.all_segs() =~= seq![bc.active]);
        assert(bc.view_map() =~= Map::<usize, Seq<char>>::empty());
    }
    Ok(bc)
}

/// The directory entry a scanned record describes.
pub open spec fn scan_entry(tag: u64, r: ScanRecord) -> DirEntry {
    DirEntry {
        file_tag: tag,
        timestamp: r.ts,
        name: r.key as usize,
        offset: r.offset,
        length: r.vlen,
    }
}

/// One scanned record folded into a directory under rebuild: it is taken
/// when its key fits and no newer record of that key was seen; on a
/// timestamp tie the record scanned later wins, as the later writer's
/// record lies later in the files.
pub open spec fn add_scan_rec(m: Map<usize, DirEntry>, tag: u64, r: ScanRecord) -> Map<
    usize,
    DirEntry,
> {
    if r.key <= usize::MAX as u64 && (!m.contains_key(r.key as usize) || m[(
    r.key as usize)].timestamp <= r.ts) {
        m.insert(r.key as usize, scan_entry(tag, r))
    } else {
        m
    }
}

/// A whole segment's scan folded in, in file order.
pub open spec fn add_scan_recs(m: Map<usize, DirEntry>, tag: u64, rs: Seq<ScanRecord>) -> Map<
    usize,
    DirEntry,
>
    decreases rs.len(),
{
    if rs.len() == 0 {
        m
    } else {
        add_scan_recs(add_scan_rec(m, tag, rs[0]), tag, rs.drop_first())
    }
}

/// Every segment's scan folded in, in listing order.
pub open spec fn dir_from_scans(
    m: Map<usize, DirEntry>,
    scans: Seq<(u64, Seq<ScanRecord>)>,
) -> Map<usize, DirEntry>
    decreases scans.len(),
{
    if scans.len() == 0 {
        m
    } else {
        dir_from_scans(add_scan_recs(m, scans[0].0, scans[0].1), scans.drop_first())
    }
}

/// The view of a list of per-segment scans.
pub open spec fn scans_views(v: Seq<(u64, Vec<ScanRecord>)>) -> Seq<(u64, Seq<ScanRecord>)> {
    Seq::new(v.len(), |i: int| (v[i].0, v[i].1@))
}

proof fn lemma_add_scan_recs_snoc(m: Map<usize, DirEntry>, tag: u64, rs: Seq<ScanRecord>, r: ScanRecord)
    ensures
        add_scan_recs(m, tag, rs.push(r)) == add_scan_rec(add_scan_recs(m, tag, rs), tag, r),
    decreases rs.len(),
{
    reveal_with_fuel(add_scan_recs, 3);
    if rs.len() == 0 {
        assert(rs.push(r)[0] == r);
        assert(rs.push(r).drop_first() =~= Seq::<ScanRecord>::empty());
    } else {
        assert(rs.push(r)[0] == rs[0]);
        assert(rs.push(r).drop_first() =~= rs.drop_first().push(r));
        lemma_add_scan_recs_snoc(add_scan_rec(m, tag, rs[0]), tag, rs.drop_first(), r);
    }
}

proof fn lemma_dir_from_scans_snoc(
    m: Map<usize, DirEntry>,
    scans: Seq<(u64, Seq<ScanRecord>)>,
    one: (u64, Seq<ScanRecord>),
)
    ensures
        dir_from_scans(m, scans.push(one)) == add_scan_recs(
            dir_from_scans(m, scans),
            one.0,
            one.1,
        ),
    decreases scans.len(),
{
    reveal_with_fuel(dir_from_scans, 3);
    if scans.len() == 0 {
        assert(scans.push(one)[0] == one);
        assert(scans.push(one).drop_first() =~= Seq::<(u64, Seq<ScanRecord>)>::empty());
    } else {
        assert(scans.push(one)[0] == scans[0]);
        assert(scans.push(one).drop_first() =~= scans.drop_first().push(one));
        lemma_dir_from_scans_snoc(
            add_scan_recs(m, scans[0].0, scans[0].1),
            scans.drop_first(),
            one,
        );
    }
}

/// Rebuilds a key directory from the scans of the data files, keeping for
/// each key the record with the highest timestamp; ties break towards the
/// record scanned later, so the last writer wins.
pub fn build_dir_from_scans(scans: &Vec<(u64, Vec<ScanRecord>)>) -> (d: KeyDir)
    ensures
        d.wf(),
        d@ == dir_from_scans(Map::<usize, DirEntry>::empty(), scans_views(scans@)),
{
    let ghost all = scans_views(scans@);
    let mut d = KeyDir::new();
    let mut i: usize = 0;
    proof {
        assert(all.take(0) =~= Seq::<(u64, Seq<ScanRecord>)>::empty());
    }
    while i < scans.len()
        invariant
            i <= scans@.len(),
            all == scans_views(scans@),
            d.wf(),
            d@ == dir_from_scans(Map::<usize, DirEntry>::empty(), all.take(i as int)),
        decreases scans@.len() - i,
    {
        let tag = scans[i].0;
        let rs = &scans[i].1;
        let ghost base = d@;
        let mut j: usize = 0;
        proof {
            assert(rs@.take(0) =~= Seq::<ScanRecord>::empty());
        }
        while j < rs.len()
            invariant
                j <= rs@.len(),
                i < scans@.len(),
                tag == scans@[i as int].0,
                rs@ == scans@[i as int].1@,
                d.wf(),
                d@ == add_scan_recs(base, tag, rs@.take(j as int)),
            decreases rs@.len() - j,
        {
            let r = rs[j];
            if r.key <= usize::MAX as u64 {
                let key = r.key as usize;
                let take_it = match d.get(key) {
                    None => true,
                    Some(e) => e.timestamp <= r.ts,
                };
                if take_it {
                    d.insert(
                        DirEntry {
                            file_tag: tag,
                            timestamp: r.ts,
                            name: key,
                            offset: r.offset,
                            length: r.vlen,
                        },
                    );
                }
            }
            proof {
                lemma_add_scan_recs_snoc(base, tag, rs@.take(j as int), rs@[j as int]);
                assert(rs@.take(j + 1) =~= rs@.take(j as int).push(rs@[j as int]));
            }
            j = j + 1;
        }
        proof {
            assert(rs@.take(rs@.len() as int) =~= rs@);
            lemma_dir_from_scans_snoc(
                Map::<usize, DirEntry>::empty(),
                all.take(i as int),
                all[i as int],
            );
            assert(all.take(i + 1) =~= all.take(i as int).push(all[i as int]));
        }
        i = i + 1;
    }
    proof {
        assert(all.take(all.len() as int) =~= all);
    }
    d
}

/// Rebuilds a key directory from already-shaped entries, as when the hint
/// file is loaded: each is installed under its key, a later one for the
/// same key winning.
pub fn build_dir_from_entries(entries: &Vec<DirEntry>) -> (d: KeyDir)
    ensures
        d.wf(),
        d@ == install_all(Map::<usize, DirEntry>::empty(), entries@),
{
    let mut d = KeyDir::new();
    let mut i: usize = 0;
    proof {
        assert(entries@.take(0) =~= Seq::<DirEntry>::empty());
    }
    while i < entries.len()
        invariant
            i <= entries@.len(),
            d.wf(),
            d@ == install_all(Map::<usize, DirEntry>::empty(), entries@.take(i as int)),
        decreases entries@.len() - i,
    {
        d.insert(entries[i]);
        proof {
            lemma_install_all_push(
                Map::<usize, DirEntry>::empty(),
                entries@.take(i as int),
                entries@[i as int],
            );
            assert(entries@.take(i + 1) =~= entries@.take(i as int).push(entries@[i as int]));
        }
        i = i + 1;
    }
    proof {
        assert(entries@.take(entries@.len() as int) =~= entries@);
    }
    d
}

/// Whether some directory entry references the segment tag.
pub open spec fn tag_referenced(dir: Map<usize, DirEntry>, tag: u64) -> bool {
    exists|k: usize| dir.contains_key(k) && (#[trigger] dir[k]).file_tag == tag
}

/// Which of the present segment tags can be deleted: those that are not
/// the active segment and that no directory entry references any more.
pub fn garbage_tags(present: &Vec<u64>, active_tag: u64, dir: &KeyDir) -> (out: Vec<u64>)
    requires
        dir.wf(),
    ensures
        forall|l: int|
            0 <= l < out@.len() ==> (#[trigger] out@[l]) != active_tag && !tag_referenced(
                dir@,
                out@[l],
            ) && present@.contains(out@[l]),
        forall|j: int|
            0 <= j < present@.len() && (#[trigger] present@[j]) != active_tag
                && !tag_referenced(dir@, present@[j]) ==> out@.contains(present@[j]),
{
    proof {
        lemma_dir_as_map(dir.entries@);
    }
    let mut out: Vec<u64> = Vec::new();
    let n = present.len();
    let mut i: usize = 0;
    while i < n
        invariant
            i <= n,
            n == present@.len(),
            dir.wf(),
            forall|l: int|
                0 <= l < out@.len() ==> (#[trigger] out@[l]) != active_tag && !tag_referenced(
                    dir@,
                    out@[l],
                ) && present@.contains(out@[l]),
            forall|j: int|
                0 <= j < i && (#[trigger] present@[j]) != active_tag && !tag_referenced(
                    dir@,
                    present@[j],
                ) ==> out@.contains(present@[j]),
        decreases n - i,
    {
        let t = present[i];
        if t != active_tag {
            let m = dir.entries.len();
            let mut referenced = false;
            let mut j: usize = 0;
            while j < m
                invariant
                    j <= m,
                    dir.wf(),
                    m == dir.entries@.len(),
                    referenced ==> tag_referenced(dir@, t),
                    !referenced ==> forall|l: int|
                        0 <= l < j ==> (#[trigger] dir.entries@[l]).file_tag != t,
                decreases m - j,
            {
                if dir.entries[j].file_tag == t {
                    proof {
                        lemma_dir_as_map(dir.entries@);
                        assert(dir@.contains_key(dir.entries@[j as int].name));
                        assert(dir@[dir.entries@[j as int].name] == dir.entries@[j as int]);
                    }
                    referenced = true;
                }
                j = j + 1;
            }
            if !referenced {
                proof {
                    lemma_dir_as_map(dir.entries@);
                    assert(!tag_referenced(dir@, t)) by {
                        if tag_referenced(dir@, t) {
                            let k = choose|k: usize|
                                dir@.contains_key(k) && (#[trigger] dir@[k]).file_tag == t;
                            let w = choose|w: int|
                                0 <= w < dir.entries@.len() && (
                                #[trigger] dir.entries@[w]).name == k;
                            assert(dir.entries@[w].file_tag != t);
                        }
                    }
                }
                let ghost old_out = out@;
                out.push(t);
                proof {
                    assert(present@[i as int] == t);
                    assert(present@.contains(t));
                    assert(forall|j2: int|
                        0 <= j2 < old_out.len() ==> out@[j2] == old_out[j2]);
                    assert(out@[out@.len() - 1] == t);
                    assert(out@.contains(present@[i as int]));
                    assert(forall|j2: int|
                        0 <= j2 < i && old_out.contains(#[trigger] present@[j2])
                            ==> out@.contains(present@[j2])) by {
                        assert forall|j2: int|
                            0 <= j2 < i && old_out.contains(#[trigger] present@[j2])
                            implies out@.contains(present@[j2]) by {
                            let w = choose|w: int|
                                0 <= w < old_out.len() && old_out[w] == present@[j2];
                            assert(out@[w] == present@[j2]);
                        }
                    }
                }
            }
        }
        i = i + 1;
    }
    out
}

/// One mutation of the store, as `put` and `delete` describe themselves.
pub enum StoreOp {
    Put(usize, Seq<char>),
    Delete(usize),
}

/// The map after running a sequence of mutations, each with the effect
/// `put` and `delete` ensure.
pub open spec fn run_ops(m: Map<usize, Seq<char>>, ops: Seq<StoreOp>) -> Map<usize, Seq<char>>
    decreases ops.len(),
{
    if ops.len() == 0 {
        m
    } else {
        let m2 = match ops[0] {
            StoreOp::Put(k, v) => m.insert(k, v),
            StoreOp::Delete(k) => m.remove(k),
        };
        run_ops(m2, ops.drop_first())
    }
}

/// The value the last surviving write of `k` in `ops` left, if any: the
/// value of the last `Put` of `k` not followed by a `Delete` of `k`.
pub open spec fn last_write(ops: Seq<StoreOp>, k: usize) -> Option<Seq<char>>
    decreases ops.len(),
{
    if ops.len() == 0 {
        None
    } else {
        match ops.last() {
            StoreOp::Put(k2, v) => if k2 == k {
                Some(v)
            } else {
                last_write(ops.drop_last(), k)
            },
            StoreOp::Delete(k2) => if k2 == k {
                None
            } else {
                last_write(ops.drop_last(), k)
            },
        }
    }
}

/// Running one more mutation folds onto the end.
proof fn lemma_run_ops_snoc(m: Map<usize, Seq<char>>, ops: Seq<StoreOp>, op: StoreOp)
    ensures
        run_ops(m, ops.push(op)) == (match op {
            StoreOp::Put(k, v) => run_ops(m, ops).insert(k, v),
            StoreOp::Delete(k) => run_ops(m, ops).remove(k),
        }),
    decreases ops.len(),
{
    reveal_with_fuel(run_ops, 3);
    if ops.len() == 0 {
        assert(ops.push(op)[0] == op);
        assert(ops.push(op).drop_first() =~= Seq::<StoreOp>::empty());
    } else {
        assert(ops.push(op)[0] == ops[0]);
        assert(ops.push(op).drop_first() =~= ops.drop_first().push(op));
        let m2 = match ops[0] {
            StoreOp::Put(k, v) => m.insert(k, v),
            StoreOp::Delete(k) => m.remove(k),
        };
        lemma_run_ops_snoc(m2, ops.drop_first(), op);
    }
}

/// The directory is authoritative: after any sequence of puts and deletes
/// on a fresh store, a key is present exactly when its last write
/// survives, and then holds that written value — so `get` (which returns
/// the stored value, or the empty string for an absent key) answers from
/// the most recent surviving write.
pub proof fn lemma_directory_authoritative(ops: Seq<StoreOp>, k: usize)
    ensures
        run_ops(Map::<usize, Seq<char>>::empty(), ops).contains_key(k) <==> last_write(ops, k)
            is Some,
        last_write(ops, k) is Some ==> run_ops(Map::<usize, Seq<char>>::empty(), ops)[k]
            == last_write(ops, k)->0,
    decreases ops.len(),
{
    if ops.len() > 0 {
        let butlast = ops.drop_last();
        let op = ops.last();
        lemma_directory_authoritative(butlast, k);
        lemma_run_ops_snoc(Map::<usize, Seq<char>>::empty(), butlast, op);
        assert(butlast.push(op) =~= ops);
    }
}

} // verus!
