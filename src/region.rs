//! The sector-addressed region container: its header table, the order in
//! which its slots are read, the grouping of slots into sequential reads,
//! and the framing of each slot inside a read.
use vstd::prelude::*;

verus! {

/// Number of slots in a container's sector table.
pub const SLOT_COUNT: usize = 1024;

/// Size of the header in bytes: the sector table and the timestamp table.
pub const HEADER_LEN: usize = 8192;

/// Size of one sector in bytes.
pub const SECTOR_LEN: usize = 4096;

/// Sectors taken by the header; payload sectors follow.
pub const HEADER_SECTORS: u32 = 2;

/// The largest span, in sectors, that one coalesced read covers.
pub const DEFAULT_READ_CAP: u32 = 16;

/// A big-endian `u32` at `at` in `b`.
pub open spec fn be_u32(b: Seq<u8>, at: int) -> int {
    b[at] as int * 16777216 + b[at + 1] as int * 65536 + b[at + 2] as int * 256 + b[at + 3] as int
}

/// First sector of the sub-record a table entry points at.
pub open spec fn entry_start(e: u32) -> int {
    e as int / 256
}

/// Number of sectors a table entry reserves.
pub open spec fn entry_count(e: u32) -> int {
    e as int % 256
}

/// One past the last sector a table entry reserves.
pub open spec fn entry_end(e: u32) -> int {
    entry_start(e) + entry_count(e)
}

/// The key that fixes the reading order: the table entry, then the slot index.
pub open spec fn slot_key(t: Seq<u32>, i: int) -> int {
    t[i] as int * 1024 + i
}

/// A slot holds a sub-record unless its entry is all zero.
pub open spec fn occupied(t: Seq<u32>, i: int) -> bool {
    t[i] != 0
}

/// `o` lists every occupied slot of `t` once, no empty slot, in ascending
/// disk order (ties between equal entries broken by slot index).
pub open spec fn order_ok(t: Seq<u32>, o: Seq<usize>) -> bool {
    &&& forall|k: int| 0 <= k < o.len() ==> o[k] < t.len() && occupied(t, o[k] as int)
    &&& forall|k1: int, k2: int|
        0 <= k1 < k2 < o.len() ==> slot_key(t, o[k1] as int) < slot_key(t, o[k2] as int)
    &&& forall|i: int| 0 <= i < t.len() && occupied(t, i) ==> o.contains(i as usize)
}

/// No slot index occurs twice in `o`.
pub open spec fn no_repeats(o: Seq<usize>) -> bool {
    forall|k1: int, k2: int| 0 <= k1 < k2 < o.len() ==> o[k1] != o[k2]
}

/// One sequential read: skip `skip_sectors` sectors past where the previous
/// read ended, read `sector_count` sectors starting at `start_sector`, and
/// find the listed slots' sub-records inside.
pub struct ReadRun {
    pub skip_sectors: i64,
    pub start_sector: u32,
    pub sector_count: u32,
    pub slots: Vec<usize>,
}

/// The slots of all runs, one run after another.
pub open spec fn flat(rs: Seq<ReadRun>) -> Seq<usize>
    decreases rs.len(),
{
    if rs.len() == 0 {
        Seq::empty()
    } else {
        flat(rs.drop_last()) + rs.last().slots@
    }
}

/// The furthest sector end among `slots`, and at least `from`.
pub open spec fn span_end(t: Seq<u32>, slots: Seq<usize>, from: int) -> int
    decreases slots.len(),
{
    if slots.len() == 0 {
        from
    } else {
        let e = entry_end(t[slots.last() as int]);
        let m = span_end(t, slots.drop_last(), from);
        if e > m { e } else { m }
    }
}

/// One run: a non-empty group of slots whose sub-records, past the first,
/// end within `cap` sectors of the run's start, and a read that covers them all.
pub open spec fn run_ok(t: Seq<u32>, r: ReadRun, cap: int) -> bool {
    let s = r.slots@;
    &&& s.len() > 0
    &&& forall|m: int| 0 <= m < s.len() ==> s[m] < t.len()
    &&& r.start_sector as int == entry_start(t[s[0] as int])
    &&& forall|m: int| 1 <= m < s.len() ==> entry_end(t[s[m] as int]) - r.start_sector <= cap
    &&& r.start_sector + r.sector_count == span_end(t, s, r.start_sector as int)
}

/// The sector where the read before run `k` ended.
pub open spec fn end_before(rs: Seq<ReadRun>, k: int) -> int {
    if k == 0 {
        HEADER_SECTORS as int
    } else {
        rs[k - 1].start_sector + rs[k - 1].sector_count
    }
}

/// `rs` groups the slots of `t` greedily, in disk order, into reads whose
/// span stays within `cap` sectors: a run ends only where its next slot
/// would take it past the cap.
pub open spec fn plan_ok(t: Seq<u32>, rs: Seq<ReadRun>, cap: int) -> bool {
    &&& order_ok(t, flat(rs))
    &&& forall|k: int| 0 <= k < rs.len() ==> run_ok(t, #[trigger] rs[k], cap)
    &&& forall|k: int|
        0 <= k < rs.len() ==> #[trigger] rs[k].skip_sectors == rs[k].start_sector - end_before(rs, k)
    &&& forall|k: int|
        0 <= k < rs.len() - 1 ==> entry_end(t[rs[k + 1].slots@[0] as int]) - #[trigger] rs[k].start_sector
            > cap
}

/// Byte offset, inside the buffer of a read starting at `run_start`, of the
/// frame of the sub-record that table entry `e` points at.
pub open spec fn frame_offset(e: u32, run_start: int) -> int {
    (entry_start(e) - run_start) * SECTOR_LEN
}

/// The frame at `off` lies within `buf`: a four-byte big-endian length and
/// that many bytes after it.
pub open spec fn frame_fits(buf: Seq<u8>, off: int) -> bool {
    &&& 0 <= off
    &&& off + 4 <= buf.len()
    &&& off + 4 + be_u32(buf, off) <= buf.len()
}

/// The bytes of the frame at `off`: codec byte and compressed payload.
pub open spec fn frame_bytes(buf: Seq<u8>, off: int) -> Seq<u8> {
    buf.subrange(off + 4, off + 4 + be_u32(buf, off))
}

/// Whatever the cap, a plan visits every occupied slot exactly once and no
/// empty slot.
pub proof fn lemma_plan_visits_each_slot_once(t: Seq<u32>, rs: Seq<ReadRun>, cap: int)
    requires
        t.len() == SLOT_COUNT,
        plan_ok(t, rs, cap),
    ensures
        forall|i: int| 0 <= i < t.len() ==> (occupied(t, i) <==> flat(rs).contains(i as usize)),
        no_repeats(flat(rs)),
{
    let o = flat(rs);
    assert forall|i: int| 0 <= i < t.len() && o.contains(i as usize) implies occupied(t, i) by {
        let k = choose|k: int| 0 <= k < o.len() && o[k] == i as usize;
        assert(occupied(t, o[k] as int));
    }
    assert forall|k1: int, k2: int| 0 <= k1 < k2 < o.len() implies o[k1] != o[k2] by {
        assert(slot_key(t, o[k1] as int) < slot_key(t, o[k2] as int));
    }
}

/// Two lists that both meet `order_ok` agree on their first `k` slots.
proof fn lemma_orders_agree_upto(t: Seq<u32>, o1: Seq<usize>, o2: Seq<usize>, k: int)
    requires
        t.len() == SLOT_COUNT,
        order_ok(t, o1),
        order_ok(t, o2),
        0 <= k <= o1.len(),
        k <= o2.len(),
    ensures
        forall|i: int| 0 <= i < k ==> o1[i] == o2[i],
    decreases k,
{
    if k > 0 {
        let m = k - 1;
        lemma_orders_agree_upto(t, o1, o2, m);
        assert(occupied(t, o1[m] as int));
        assert(o2.contains((o1[m] as int) as usize));
        let j = choose|j: int| 0 <= j < o2.len() && o2[j] == o1[m];
        assert(occupied(t, o2[m] as int));
        assert(o1.contains((o2[m] as int) as usize));
        let i = choose|i: int| 0 <= i < o1.len() && o1[i] == o2[m];
        if j < m {
            assert(o1[j] == o2[j]);
            assert(slot_key(t, o1[j] as int) < slot_key(t, o1[m] as int));
        }
        if i < m {
            assert(o1[i] == o2[i]);
            assert(slot_key(t, o2[i] as int) < slot_key(t, o2[m] as int));
        }
        if j > m && i > m {
            assert(slot_key(t, o2[m] as int) < slot_key(t, o2[j] as int));
            assert(slot_key(t, o1[m] as int) < slot_key(t, o1[i] as int));
        }
    }
}

/// A container's occupied slots have one disk order only.
proof fn lemma_order_unique(t: Seq<u32>, o1: Seq<usize>, o2: Seq<usize>)
    requires
        t.len() == SLOT_COUNT,
        order_ok(t, o1),
        order_ok(t, o2),
    ensures
        o1 == o2,
{
    let n = if o1.len() < o2.len() {
        o1.len() as int
    } else {
        o2.len() as int
    };
    lemma_orders_agree_upto(t, o1, o2, n);
    if o1.len() > n {
        assert(occupied(t, o1[n] as int));
        assert(o2.contains((o1[n] as int) as usize));
        let j = choose|j: int| 0 <= j < o2.len() && o2[j] == o1[n];
        assert(o1[j] == o2[j]);
        assert(slot_key(t, o1[j] as int) < slot_key(t, o1[n] as int));
    }
    if o2.len() > n {
        assert(occupied(t, o2[n] as int));
        assert(o1.contains((o2[n] as int) as usize));
        let i = choose|i: int| 0 <= i < o1.len() && o1[i] == o2[n];
        assert(o1[i] == o2[i]);
        assert(slot_key(t, o2[i] as int) < slot_key(t, o2[n] as int));
    }
    assert(o1 =~= o2);
}

/// The cap changes only how slots are grouped into reads: plans made with
/// any two caps visit the same slots in the same order.
pub proof fn lemma_visit_order_ignores_cap(
    t: Seq<u32>,
    rs1: Seq<ReadRun>,
    cap1: int,
    rs2: Seq<ReadRun>,
    cap2: int,
)
    requires
        t.len() == SLOT_COUNT,
        plan_ok(t, rs1, cap1),
        plan_ok(t, rs2, cap2),
    ensures
        flat(rs1) == flat(rs2),
{
    lemma_order_unique(t, flat(rs1), flat(rs2));
}

/// The first `k` runs' slots come first in the plan's slot list.
proof fn lemma_flat_prefix(rs: Seq<ReadRun>, k: int)
    requires
        0 <= k <= rs.len(),
    ensures
        flat(rs.subrange(0, k)).len() <= flat(rs).len(),
        flat(rs).subrange(0, flat(rs.subrange(0, k)).len() as int) == flat(rs.subrange(0, k)),
    decreases rs.len(),
{
    if k == rs.len() {
        assert(rs.subrange(0, k) =~= rs);
        assert(flat(rs).subrange(0, flat(rs).len() as int) =~= flat(rs));
    } else {
        let d = rs.drop_last();
        lemma_flat_prefix(d, k);
        assert(d.subrange(0, k) =~= rs.subrange(0, k));
        let p = flat(rs.subrange(0, k));
        assert(flat(rs).subrange(0, p.len() as int) =~= flat(d).subrange(0, p.len() as int));
    }
}

/// With two runs or more, the first two runs' slots open the plan's slot list.
proof fn lemma_first_two_runs(rs: Seq<ReadRun>)
    requires
        rs.len() >= 2,
    ensures
        flat(rs).len() >= rs[0].slots@.len() + rs[1].slots@.len(),
        flat(rs).subrange(0, (rs[0].slots@.len() + rs[1].slots@.len()) as int) == rs[0].slots@
            + rs[1].slots@,
{
    lemma_flat_prefix(rs, 2);
    let two = rs.subrange(0, 2);
    assert(two.drop_last() =~= rs.subrange(0, 1));
    let one = rs.subrange(0, 1);
    assert(one.drop_last() =~= Seq::<ReadRun>::empty());
    assert(flat(one.drop_last()) =~= Seq::<usize>::empty());
    assert(one.last() == rs[0]);
    assert(flat(one) =~= rs[0].slots@);
    assert(flat(two) =~= rs[0].slots@ + rs[1].slots@);
}

/// In a list of back-to-back sub-records no frame ends after the last one.
proof fn lemma_contiguous_ends(t: Seq<u32>, o: Seq<usize>, j: int)
    requires
        0 <= j < o.len(),
        forall|k: int| 0 <= k < o.len() ==> o[k] < t.len(),
        forall|k: int|
            0 <= k < o.len() - 1 ==> entry_start(t[o[k + 1] as int]) == entry_end(
                t[#[trigger] o[k] as int],
            ),
    ensures
        entry_end(t[o[j] as int]) <= entry_end(t[o[o.len() - 1] as int]),
    decreases o.len() - j,
{
    if j < o.len() - 1 {
        lemma_contiguous_ends(t, o, j + 1);
    }
}

/// A container whose sub-records lie back to back, within one cap's span,
/// is read in a single run.
pub proof fn lemma_contiguous_plan_is_one_read(t: Seq<u32>, rs: Seq<ReadRun>, cap: int)
    requires
        plan_ok(t, rs, cap),
        flat(rs).len() > 0,
        forall|k: int|
            0 <= k < flat(rs).len() - 1 ==> entry_start(t[flat(rs)[k + 1] as int]) == entry_end(
                t[#[trigger] flat(rs)[k] as int],
            ),
        entry_end(t[flat(rs).last() as int]) - entry_start(t[flat(rs)[0] as int]) <= cap,
    ensures
        rs.len() == 1,
{
    let o = flat(rs);
    if rs.len() == 0 {
        assert(o =~= Seq::<usize>::empty());
    }
    if rs.len() >= 2 {
        lemma_first_two_runs(rs);
        let n0 = rs[0].slots@.len() as int;
        assert(run_ok(t, rs[0], cap));
        assert(run_ok(t, rs[1], cap));
        assert(o.subrange(0, n0 + rs[1].slots@.len() as int)[0] == rs[0].slots@[0]);
        assert(o.subrange(0, n0 + rs[1].slots@.len() as int)[n0] == rs[1].slots@[0]);
        assert(o[n0] == rs[1].slots@[0]);
        lemma_contiguous_ends(t, o, n0);
        assert(entry_end(t[rs[1].slots@[0] as int]) - rs[0].start_sector > cap);
    }
}

/// A container with a single sub-record is read in a single run of that slot.
pub proof fn lemma_single_slot_plan(t: Seq<u32>, rs: Seq<ReadRun>, cap: int)
    requires
        plan_ok(t, rs, cap),
        flat(rs).len() == 1,
    ensures
        rs.len() == 1,
        rs[0].slots@ == flat(rs),
{
    if rs.len() == 0 {
        assert(flat(rs) =~= Seq::<usize>::empty());
    }
    if rs.len() >= 2 {
        lemma_first_two_runs(rs);
        assert(run_ok(t, rs[0], cap));
        assert(run_ok(t, rs[1], cap));
    }
    assert(rs.drop_last() =~= Seq::<ReadRun>::empty());
    assert(flat(rs) =~= rs[0].slots@);
}

/// Errors of reading a container's header.
#[derive(Debug, Clone, Copy, PartialEq, Eq)]
pub enum RegionError {
    /// The header is shorter than its fixed size.
    ShortHeader,
    /// A sub-record's frame runs past the bytes that were read.
    Truncated,
}

/// The sector table of one region container.
pub struct RegionFile {
    /// One packed entry per slot: first sector in the upper 24 bits,
    /// sector count in the lower 8.
    pub offsets: Vec<u32>,
}

impl RegionFile {
    pub open spec fn wf(&self) -> bool {
        self.offsets@.len() == SLOT_COUNT
    }

    /// Decodes the sector table from the container's header bytes.
    pub fn new(header: &[u8]) -> (r: Result<RegionFile, RegionError>)
        ensures
            header@.len() < HEADER_LEN <==> r is Err,
            r is Err ==> r->Err_0 == RegionError::ShortHeader,
            r is Ok ==> r->Ok_0.wf() && forall|i: int|
                0 <= i < SLOT_COUNT ==> r->Ok_0.offsets@[i] as int == be_u32(header@, 4 * i),
    {
        if header.len() < HEADER_LEN {
            return Err(RegionError::ShortHeader);
        }
        let mut offsets: Vec<u32> = Vec::new();
        let mut i: usize = 0;
        while i < SLOT_COUNT
            invariant
                header@.len() >= HEADER_LEN,
                i <= SLOT_COUNT,
                offsets@.len() == i,
                forall|j: int| 0 <= j < i ==> offsets@[j] as int == be_u32(header@, 4 * j),
            decreases SLOT_COUNT - i,
        {
            let e = read_be_u32(header, 4 * i);
            offsets.push(e);
            i = i + 1;
        }
        Ok(RegionFile { offsets })
    }

    /// Lists the occupied slots in ascending disk order.
    pub fn slot_order(&self) -> (o: Vec<usize>)
        requires
            self.wf(),
        ensures
            order_ok(self.offsets@, o@),
    {
        let t = &self.offsets;
        let mut o: Vec<usize> = Vec::new();
        let mut last: u64 = 0;
        let mut have_last = false;
        loop
            invariant
                t@.len() == SLOT_COUNT,
                last < 0x400_0000_0000,
                forall|k: int| 0 <= k < o@.len() ==> o@[k] < SLOT_COUNT && occupied(t@, o@[k] as int),
                forall|k1: int, k2: int|
                    0 <= k1 < k2 < o@.len() ==> slot_key(t@, o@[k1] as int) < slot_key(t@, o@[k2] as int),
                forall|k: int| 0 <= k < o@.len() ==> slot_key(t@, o@[k] as int) <= last,
                have_last ==> o@.len() > 0 && slot_key(t@, o@[o@.len() - 1] as int) == last,
                !have_last ==> o@.len() == 0,
                forall|i: int|
                    0 <= i < SLOT_COUNT ==> ((occupied(t@, i) && have_last && slot_key(t@, i) <= last)
                        <==> o@.contains(i as usize)),
            ensures
                forall|k: int| 0 <= k < o@.len() ==> o@[k] < SLOT_COUNT && occupied(t@, o@[k] as int),
                forall|k1: int, k2: int|
                    0 <= k1 < k2 < o@.len() ==> slot_key(t@, o@[k1] as int) < slot_key(t@, o@[k2] as int),
                forall|i: int| 0 <= i < SLOT_COUNT && occupied(t@, i) ==> o@.contains(i as usize),
            decreases (if have_last { 0x400_0000_0000 - last } else { 0x400_0000_0001 }),
        {
            let mut best: usize = SLOT_COUNT;
            let mut best_key: u64 = 0;
            let mut j: usize = 0;
            while j < SLOT_COUNT
                invariant
                    t@.len() == SLOT_COUNT,
                    j <= SLOT_COUNT,
                    best == SLOT_COUNT || (best < j && occupied(t@, best as int) && best_key
                        == slot_key(t@, best as int) && (!have_last || best_key > last)),
                    forall|i: int|
                        0 <= i < j && occupied(t@, i) && (!have_last || slot_key(t@, i) > last)
                            ==> best != SLOT_COUNT && best_key <= slot_key(t@, i),
                decreases SLOT_COUNT - j,
            {
                let e = t[j];
                if e != 0 {
                    let key = (e as u64) * 1024 + j as u64;
                    if (!have_last || key > last) && (best == SLOT_COUNT || key < best_key) {
                        best = j;
                        best_key = key;
                    }
                }
                j = j + 1;
            }
            if best == SLOT_COUNT {
                proof {
                    assert forall|i: int| 0 <= i < SLOT_COUNT && occupied(t@, i) implies o@.contains(
                        i as usize,
                    ) by {
                        assert(have_last && slot_key(t@, i) <= last);
                    }
                }
                break;
            }
            proof {
                assert forall|k: int| 0 <= k < o@.len() implies o@[k] != best by {
                    assert(slot_key(t@, o@[k] as int) <= last);
                }
            }
            let ghost old_o = o@;
            o.push(best);
            proof {
                assert forall|i: int| 0 <= i < SLOT_COUNT implies ((occupied(t@, i) && slot_key(t@, i)
                    <= best_key) <==> o@.contains(i as usize)) by {
                    if o@.contains(i as usize) {
                        let k = choose|k: int| 0 <= k < o@.len() && o@[k] == i as usize;
                        if k < old_o.len() {
                            assert(old_o[k] == i as usize);
                        }
                    }
                    if occupied(t@, i) && slot_key(t@, i) <= best_key {
                        if have_last && slot_key(t@, i) <= last {
                            assert(old_o.contains(i as usize));
                            let k = choose|k: int| 0 <= k < old_o.len() && old_o[k] == i as usize;
                            assert(o@[k] == i as usize);
                        } else {
                            assert(i == best);
                            assert(o@[o@.len() - 1] == i as usize);
                        }
                    }
                }
            }
            last = best_key;
            have_last = true;
        }
        o
    }

    /// Groups the occupied slots, in disk order, into sequential reads that
    /// span at most `cap` sectors each (a single sub-record longer than that
    /// is read alone).
    pub fn read_plan(&self, cap: u32) -> (rs: Vec<ReadRun>)
        requires
            self.wf(),
        ensures
            plan_ok(self.offsets@, rs@, cap as int),
    {
        let t = &self.offsets;
        let order = self.slot_order();
        let mut rs: Vec<ReadRun> = Vec::new();
        let mut cur: Vec<usize> = Vec::new();
        let mut cur_start: u32 = 0;
        let mut cur_end: u32 = 0;
        let mut prev_end: u32 = HEADER_SECTORS;
        let mut i: usize = 0;
        while i < order.len()
            invariant
                t@.len() == SLOT_COUNT,
                order_ok(t@, order@),
                i <= order@.len(),
                flat(rs@) + cur@ == order@.subrange(0, i as int),
                forall|k: int| 0 <= k < rs@.len() ==> run_ok(t@, #[trigger] rs@[k], cap as int),
                forall|k: int|
                    0 <= k < rs@.len() ==> #[trigger] rs@[k].skip_sectors == rs@[k].start_sector
                        - end_before(rs@, k),
                forall|k: int|
                    0 <= k < rs@.len() - 1 ==> entry_end(t@[rs@[k + 1].slots@[0] as int])
                        - #[trigger] rs@[k].start_sector > cap,
                prev_end == end_before(rs@, rs@.len() as int),
                cur@.len() == 0 ==> i == flat(rs@).len(),
                cur@.len() > 0 ==> {
                    &&& forall|m: int| 0 <= m < cur@.len() ==> cur@[m] < t@.len()
                    &&& cur_start as int == entry_start(t@[cur@[0] as int])
                    &&& forall|m: int|
                        1 <= m < cur@.len() ==> entry_end(t@[cur@[m] as int]) - cur_start <= cap
                    &&& cur_end as int == span_end(t@, cur@, cur_start as int)
                    &&& cur_end >= cur_start
                },
                rs@.len() > 0 && i < order@.len() && cur@.len() == 0 ==> entry_end(
                    t@[order@[i as int] as int],
                ) - rs@.last().start_sector > cap,
                rs@.len() > 0 && cur@.len() > 0 ==> entry_end(t@[cur@[0] as int])
                    - rs@.last().start_sector > cap,
            decreases order@.len() - i,
        {
            let slot = order[i];
            let e = t[slot];
            let start = e / 256;
            let end = start + e % 256;
            if cur.len() > 0 && end as u64 > cur_start as u64 + cap as u64 {
                let ghost old_rs = rs@;
                let run = ReadRun {
                    skip_sectors: cur_start as i64 - prev_end as i64,
                    start_sector: cur_start,
                    sector_count: cur_end - cur_start,
                    slots: cur,
                };
                rs.push(run);
                proof {
                    assert(rs@.drop_last() =~= old_rs);
                    assert(run_ok(t@, rs@.last(), cap as int));
                }
                prev_end = cur_end;
                cur = Vec::new();
                proof {
                    assert(flat(rs@) + cur@ =~= order@.subrange(0, i as int));
                }
            }
            let ghost old_cur = cur@;
            if cur.len() == 0 {
                cur_start = start;
                cur_end = end;
            } else if end > cur_end {
                cur_end = end;
            }
            cur.push(slot);
            proof {
                assert(cur@.drop_last() =~= old_cur);
                assert(span_end(t@, cur@, cur_start as int) == (if end > span_end(t@, old_cur, cur_start as int) { end as int } else { span_end(t@, old_cur, cur_start as int) }));
                if old_cur.len() == 0 {
                    assert(span_end(t@, old_cur, cur_start as int) == cur_start);
                } else {
                    assert(cur@[0] == old_cur[0]);
                }
                assert(order@.subrange(0, i + 1) =~= order@.subrange(0, i as int).push(slot));
                assert(flat(rs@) + cur@ =~= order@.subrange(0, i + 1));
            }
            i = i + 1;
        }
        if cur.len() > 0 {
            let ghost old_rs = rs@;
            let run = ReadRun {
                skip_sectors: cur_start as i64 - prev_end as i64,
                start_sector: cur_start,
                sector_count: cur_end - cur_start,
                slots: cur,
            };
            rs.push(run);
            proof {
                assert(rs@.drop_last() =~= old_rs);
            }
        }
        proof {
            assert(order@.subrange(0, order@.len() as int) =~= order@);
            assert(flat(rs@) =~= order@);
        }
        rs
    }

    /// Cuts the buffer of one sequential read into the sub-records of its
    /// slots, in the run's order, each paired with its slot index.
    pub fn split_run(&self, run: &ReadRun, buf: &[u8]) -> (r: Result<Vec<(usize, Vec<u8>)>, RegionError>)
        requires
            self.wf(),
            forall|m: int| 0 <= m < run.slots@.len() ==> run.slots@[m] < SLOT_COUNT,
        ensures
            r is Ok <==> forall|m: int|
                0 <= m < run.slots@.len() ==> frame_fits(
                    buf@,
                    frame_offset(self.offsets@[run.slots@[m] as int], run.start_sector as int),
                ),
            r is Err ==> r->Err_0 == RegionError::Truncated,
            r is Ok ==> {
                let v = r->Ok_0@;
                &&& v.len() == run.slots@.len()
                &&& forall|m: int|
                    0 <= m < v.len() ==> v[m].0 == run.slots@[m] && v[m].1@ == frame_bytes(
                        buf@,
                        frame_offset(self.offsets@[run.slots@[m] as int], run.start_sector as int),
                    )
            },
    {
        let mut out: Vec<(usize, Vec<u8>)> = Vec::new();
        let mut m: usize = 0;
        while m < run.slots.len()
            invariant
                self.wf(),
                forall|m: int| 0 <= m < run.slots@.len() ==> run.slots@[m] < SLOT_COUNT,
                m <= run.slots@.len(),
                out@.len() == m,
                forall|k: int|
                    0 <= k < m ==> frame_fits(
                        buf@,
                        frame_offset(self.offsets@[run.slots@[k] as int], run.start_sector as int),
                    ),
                forall|k: int|
                    0 <= k < m ==> out@[k].0 == run.slots@[k] && out@[k].1@ == frame_bytes(
                        buf@,
                        frame_offset(self.offsets@[run.slots@[k] as int], run.start_sector as int),
                    ),
            decreases run.slots@.len() - m,
        {
            let slot = run.slots[m];
            let start = self.offsets[slot] / 256;
            let ghost off = frame_offset(self.offsets@[slot as int], run.start_sector as int);
            if start < run.start_sector {
                return Err(RegionError::Truncated);
            }
            let off64 = (start - run.start_sector) as u64 * 4096;
            if off64 + 4 > buf.len() as u64 {
                return Err(RegionError::Truncated);
            }
            let off = off64 as usize;
            let len = read_be_u32(buf, off);
            if len as u64 > buf.len() as u64 - off64 - 4 {
                return Err(RegionError::Truncated);
            }
            let bytes = vstd::slice::slice_to_vec(
                vstd::slice::slice_subrange(buf, off + 4, off + 4 + len as usize),
            );
            out.push((slot, bytes));
            m = m + 1;
        }
        Ok(out)
    }
}

/// Reads a big-endian `u32` from four bytes at `at`.
pub fn read_be_u32(b: &[u8], at: usize) -> (r: u32)
    requires
        at + 4 <= b@.len(),
    ensures
        r as int == be_u32(b@, at as int),
{
    (b[at] as u32) * 16777216 + (b[at + 1] as u32) * 65536 + (b[at + 2] as u32) * 256
        + (b[at + 3] as u32)
}

} // verus!
