//! The offset index ("Meta"): for each segment it tracks how many records
//! have been committed and at which byte offset each record position
//! begins, so a point lookup by record ID needs no scan of the segment
//! file.
//!
//! The index is built strictly in ascending ID order, one call per
//! appended record. Row `s` of `jumps` holds, once segment `s` has `c >= 1`
//! records, exactly `c + 1` offsets: entry `p` is the byte offset at which
//! the record at position `p` starts, and the last entry is the offset
//! just past the segment's final record — the entry the next append
//! extends.

use vstd::arithmetic::div_mod::{
    lemma_div_is_ordered, lemma_fundamental_div_mod, lemma_fundamental_div_mod_converse,
};
use vstd::pervasive::VecAdditionalExecFns;
use vstd::prelude::*;

use crate::record::Record;
use crate::{spec_position_of, spec_segment_of, MAX_SEGMENT_RECORDS};

verus! {

/// Failures of the offset index.
#[derive(Debug, PartialEq, Eq, Structural, Clone, Copy)]
pub enum MetaError {
    /// An append arrived out of the strictly sequential order; the index
    /// was left unchanged.
    SequenceInconsistent,
    /// A lookup named a segment that has never received a record.
    SegmentNotFound,
    /// A lookup named a record not yet committed to its segment.
    NotYetCommitted,
}

/// Mathematical model of the offset index.
pub struct MetaView {
    pub sequence: Seq<u64>,
    pub jumps: Seq<Seq<Option<u64>>>,
}

/// `u64` addition as the machine performs it in the model: truncating.
/// The executable index never reaches the truncating case; its callers
/// must keep offsets within `u64`.
pub open spec fn add_u64(a: u64, b: u64) -> u64 {
    ((a + b) as u64)
}

/// The number of offsets a segment row holds once `count` records are
/// committed: none before the first record, one more than the count after.
pub open spec fn spec_row_len(count: u64) -> int {
    if count == 0 {
        0
    } else {
        count + 1
    }
}

impl MetaView {
    /// The index with no segments.
    pub open spec fn empty() -> MetaView {
        MetaView { sequence: Seq::empty(), jumps: Seq::empty() }
    }

    /// Structural invariant of the index: `sequence` and `jumps` describe
    /// the same segments; no segment exceeds its cap; a row with `c`
    /// committed records holds `c + 1` populated offsets; and every
    /// populated row starts at offset zero.
    pub open spec fn wf(self) -> bool {
        &&& self.sequence.len() == self.jumps.len()
        &&& forall|s: int|
            0 <= s < self.jumps.len() ==> #[trigger] self.sequence[s] <= MAX_SEGMENT_RECORDS
        &&& forall|s: int|
            0 <= s < self.jumps.len() ==> (#[trigger] self.jumps[s]).len() == spec_row_len(
                self.sequence[s],
            )
        &&& forall|s: int, p: int|
            0 <= s < self.jumps.len() && 0 <= p < self.jumps[s].len() ==> (
            #[trigger] self.jumps[s][p]) is Some
        &&& forall|s: int|
            0 <= s < self.jumps.len() && self.jumps[s].len() > 0 ==> (#[trigger] self.jumps[s])[0]
                == Some(0u64)
    }

    /// Whether an append of record `id` is the next sequential one: it
    /// either continues an existing segment at its frontier or opens the
    /// next, fresh segment at position zero.
    pub open spec fn can_append(self, id: u64) -> bool
        recommends
            id >= 1,
    {
        let s = spec_segment_of(id);
        let p = spec_position_of(id);
        ||| (s == self.jumps.len() && p == 0)
        ||| (s < self.jumps.len() && p == self.sequence[s])
    }

    /// The offset the appended record would start at, and that the new row
    /// entry extends: the last offset recorded for the segment.
    pub open spec fn frontier_offset(self, id: u64) -> u64
        recommends
            id >= 1,
            self.wf(),
            self.can_append(id),
            spec_position_of(id) > 0,
    {
        self.jumps[spec_segment_of(id)][spec_position_of(id)].unwrap()
    }

    /// The machine limit an append must respect: the new running offset
    /// must fit in a `u64`.
    pub open spec fn append_fits(self, id: u64, size: u64) -> bool
        recommends
            id >= 1,
            self.wf(),
    {
        self.can_append(id) && spec_position_of(id) > 0 ==> self.frontier_offset(id) + size
            <= u64::MAX
    }
}

/// One step of the index: the state and result of `add_to_collection`
/// applied to `m`. A function of the prior state and the arguments alone.
pub open spec fn spec_step(m: MetaView, id: u64, size: u64) -> (MetaView, Result<(), MetaError>)
    recommends
        m.wf(),
{
    let s = spec_segment_of(id);
    let p = spec_position_of(id);
    if id >= 1 && s == m.jumps.len() && p == 0 {
        (
            MetaView {
                sequence: m.sequence.push(1),
                jumps: m.jumps.push(seq![Some(0u64), Some(size)]),
            },
            Ok(()),
        )
    } else if id >= 1 && s < m.jumps.len() && p == m.sequence[s] {
        let row = if p == 0 {
            seq![Some(0u64), Some(size)]
        } else {
            m.jumps[s].push(Some(add_u64(m.jumps[s][p].unwrap(), size)))
        };
        (
            MetaView {
                sequence: m.sequence.update(s, add_u64(m.sequence[s], 1)),
                jumps: m.jumps.update(s, row),
            },
            Ok(()),
        )
    } else {
        (m, Err(MetaError::SequenceInconsistent))
    }
}

/// The index state after replaying `ops` — pairs of record ID and encoded
/// size, in call order — on a fresh index, dropping each step's result.
pub open spec fn spec_replay(ops: Seq<(u64, u64)>) -> MetaView
    decreases ops.len(),
{
    if ops.len() == 0 {
        MetaView::empty()
    } else {
        let prior = spec_replay(ops.drop_last());
        spec_step(prior, ops.last().0, ops.last().1).0
    }
}

/// The offset index, keyed by segment and position.
#[derive(Debug)]
pub struct Meta {
    pub sequence: Vec<u64>,
    pub jumps: Vec<Vec<Option<u64>>>,
}

impl View for Meta {
    type V = MetaView;

    open spec fn view(&self) -> MetaView {
        MetaView {
            sequence: self.sequence@,
            jumps: self.jumps@.map_values(|row: Vec<Option<u64>>| row@),
        }
    }
}

impl Meta {
    /// An empty index: no segment has received a record.
    pub fn new() -> (r: Self)
        ensures
            r@ == MetaView::empty(),
            r@.wf(),
    {
        let r = Self { sequence: Vec::new(), jumps: Vec::new() };
        proof {
            assert(r@.sequence =~= Seq::<u64>::empty());
            assert(r@.jumps =~= Seq::<Seq<Option<u64>>>::empty());
        }
        r
    }

    /// Whether `add_to_collection(id, size)` may be called now: the append
    /// is the next sequential one and its running offset stays within
    /// `u64`.
    pub fn accepts(&self, id: u64, size: u64) -> (r: bool)
        requires
            self@.wf(),
        ensures
            r == (id >= 1 && self@.can_append(id) && self@.append_fits(id, size)),
    {
        if id < 1 {
            return false;
        }
        let segment = Record::get_file_segment(id);
        let position = (id - 1) % MAX_SEGMENT_RECORDS;
        if segment == self.jumps.len() as u64 {
            position == 0
        } else if segment < self.jumps.len() as u64 {
            let seg = segment as usize;
            if position != self.sequence[seg] {
                false
            } else if position == 0 {
                true
            } else {
                proof {
                    assert(self@.jumps[seg as int] == self.jumps@[seg as int]@);
                }
                let prev = self.jumps[seg][position as usize].unwrap();
                size <= u64::MAX - prev
            }
        } else {
            false
        }
    }

    /// Whether the in-memory structure satisfies the index invariant
    /// `wf`. An index built through `new` and `add_to_collection` always
    /// does; one obtained from outside — say, loaded from a persisted
    /// file — must be validated with this before the indexed operations
    /// are called.
    pub fn check_wf(&self) -> (r: bool)
        ensures
            r == self@.wf(),
    {
        if self.sequence.len() != self.jumps.len() {
            return false;
        }
        let n = self.jumps.len();
        let mut s: usize = 0;
        while s < n
            invariant
                n == self.jumps@.len(),
                self.sequence@.len() == n,
                s <= n,
                forall|i: int|
                    0 <= i < s ==> #[trigger] self@.sequence[i] <= MAX_SEGMENT_RECORDS,
                forall|i: int|
                    0 <= i < s ==> (#[trigger] self@.jumps[i]).len() == spec_row_len(
                        self@.sequence[i],
                    ),
                forall|i: int, p: int|
                    0 <= i < s && 0 <= p < self@.jumps[i].len() ==> (#[trigger] self@.jumps[i][p])
                        is Some,
                forall|i: int|
                    0 <= i < s && self@.jumps[i].len() > 0 ==> (#[trigger] self@.jumps[i])[0]
                        == Some(0u64),
            decreases n - s,
        {
            proof {
                assert(self@.jumps[s as int] == self.jumps@[s as int]@);
            }
            let count = self.sequence[s];
            if count > MAX_SEGMENT_RECORDS {
                return false;
            }
            let row_len = self.jumps[s].len();
            let expected: u64 = if count == 0 {
                0
            } else {
                count + 1
            };
            if row_len as u64 != expected {
                return false;
            }
            let mut p: usize = 0;
            while p < row_len
                invariant
                    n == self.jumps@.len(),
                    s < n,
                    self@.jumps[s as int] == self.jumps@[s as int]@,
                    row_len == self@.jumps[s as int].len(),
                    p <= row_len,
                    forall|q: int| 0 <= q < p ==> (#[trigger] self@.jumps[s as int][q]) is Some,
                    p > 0 && row_len > 0 ==> self@.jumps[s as int][0] == Some(0u64),
                decreases row_len - p,
            {
                match self.jumps[s][p] {
                    Some(offset) => {
                        if p == 0 && offset != 0 {
                            return false;
                        }
                    },
                    None => {
                        return false;
                    },
                }
                p += 1;
            }
            s += 1;
        }
        true
    }

    /// Records one appended record: record `id` was appended to its
    /// segment with an encoded size of `size` bytes. Appends must arrive
    /// strictly in increasing ID order; a non-sequential call fails with
    /// `SequenceInconsistent` and leaves the index unchanged.
    pub fn add_to_collection(&mut self, id: u64, size: u64) -> (r: Result<(), MetaError>)
        requires
            old(self)@.wf(),
            id >= 1,
            old(self)@.append_fits(id, size),
        ensures
            final(self)@ == spec_step(old(self)@, id, size).0,
            r == spec_step(old(self)@, id, size).1,
            final(self)@.wf(),
            r is Ok <==> old(self)@.can_append(id),
            r is Err ==> *final(self) == *old(self) && r == Err::<(), MetaError>(
                MetaError::SequenceInconsistent,
            ),
    {
        let segment = Record::get_file_segment(id);
        let position = (id - 1) % MAX_SEGMENT_RECORDS;
        if segment > self.jumps.len() as u64 {
            return Err(MetaError::SequenceInconsistent);
        }
        if segment == self.jumps.len() as u64 {
            if position != 0 {
                return Err(MetaError::SequenceInconsistent);
            }
            let mut row: Vec<Option<u64>> = Vec::new();
            row.push(Some(0));
            row.push(Some(size));
            proof {
                assert(row@ =~= seq![Some(0u64), Some(size)]);
            }
            self.jumps.push(row);
            self.sequence.push(1);
            proof {
                assert(self@.jumps =~= spec_step(old(self)@, id, size).0.jumps);
                assert(self@ == spec_step(old(self)@, id, size).0);
            }
            return Ok(());
        }
        let seg = segment as usize;
        let seq_s = self.sequence[seg];
        if position != seq_s {
            return Err(MetaError::SequenceInconsistent);
        }
        proof {
            assert(self@.jumps[seg as int] == self.jumps@[seg as int]@);
        }
        if position == 0 {
            let mut row: Vec<Option<u64>> = Vec::new();
            row.push(Some(0));
            row.push(Some(size));
            proof {
                assert(row@ =~= seq![Some(0u64), Some(size)]);
            }
            self.jumps.set(seg, row);
        } else {
            let prev = self.jumps[seg][position as usize].unwrap();
            self.jumps[seg].push(Some(prev + size));
            proof {
                assert(self@.jumps =~= old(self)@.jumps.update(
                    seg as int,
                    old(self)@.jumps[seg as int].push(Some((prev + size) as u64)),
                ));
            }
        }
        self.sequence.set(seg, seq_s + 1);
        proof {
            assert(self@.jumps =~= spec_step(old(self)@, id, size).0.jumps);
            assert(self@.sequence =~= spec_step(old(self)@, id, size).0.sequence);
            assert(self@ == spec_step(old(self)@, id, size).0);
        }
        Ok(())
    }

    /// The byte offset within its segment at which record `id` begins.
    /// Fails with `SegmentNotFound` when the record's segment has never
    /// received a record, and with `NotYetCommitted` when the segment
    /// exists but the record's position has not been committed yet.
    pub fn get_segment_offset(&self, id: &u64) -> (r: Result<u64, MetaError>)
        requires
            self@.wf(),
            *id >= 1,
        ensures
            match r {
                Ok(offset) => {
                    &&& spec_segment_of(*id) < self@.jumps.len()
                    &&& spec_position_of(*id) < self@.sequence[spec_segment_of(*id)]
                    &&& Some(offset) == self@.jumps[spec_segment_of(*id)][spec_position_of(*id)]
                },
                Err(MetaError::SegmentNotFound) => spec_segment_of(*id) >= self@.jumps.len(),
                Err(MetaError::NotYetCommitted) => {
                    &&& spec_segment_of(*id) < self@.jumps.len()
                    &&& spec_position_of(*id) >= self@.sequence[spec_segment_of(*id)]
                },
                Err(MetaError::SequenceInconsistent) => false,
            },
    {
        let segment = Record::get_file_segment(*id);
        if segment >= self.jumps.len() as u64 {
            return Err(MetaError::SegmentNotFound);
        }
        let seg = segment as usize;
        let position = (*id - 1) % MAX_SEGMENT_RECORDS;
        if position >= self.sequence[seg] {
            return Err(MetaError::NotYetCommitted);
        }
        proof {
            assert(self@.jumps[seg as int] == self.jumps@[seg as int]@);
        }
        Ok(self.jumps[seg][position as usize].unwrap())
    }
}

/// One step of the index preserves its structural invariant, whatever the
/// arguments.
pub proof fn lemma_step_preserves_wf(m: MetaView, id: u64, size: u64)
    requires
        m.wf(),
    ensures
        spec_step(m, id, size).0.wf(),
{
}

/// Every state reached by replaying a sequence of appends on a fresh
/// index satisfies the structural invariant.
pub proof fn lemma_replay_wf(ops: Seq<(u64, u64)>)
    ensures
        spec_replay(ops).wf(),
    decreases ops.len(),
{
    if ops.len() > 0 {
        lemma_replay_wf(ops.drop_last());
        lemma_step_preserves_wf(spec_replay(ops.drop_last()), ops.last().0, ops.last().1);
    }
}

/// Replaying one and the same sequence of appends on a fresh index is
/// deterministic: the state after the replay is a function of the
/// sequence alone, so two replays of equal sequences end in equal states.
pub proof fn lemma_replay_deterministic(ops1: Seq<(u64, u64)>, ops2: Seq<(u64, u64)>)
    requires
        ops1 == ops2,
    ensures
        spec_replay(ops1) == spec_replay(ops2),
{
}

/// A successful append extends its segment's row as a running prefix sum:
/// the record's own start offset is left in place — zero for the first
/// record of the segment — and the entry after it is that offset plus the
/// record's size.
pub proof fn lemma_step_extends_prefix_sum(m: MetaView, id: u64, size: u64)
    requires
        m.wf(),
        id >= 1,
        m.can_append(id),
        m.append_fits(id, size),
    ensures
        ({
            let s = spec_segment_of(id);
            let p = spec_position_of(id);
            let stepped = spec_step(m, id, size).0;
            &&& stepped.jumps[s][p].unwrap() == if p == 0 {
                0
            } else {
                m.jumps[s][p].unwrap()
            }
            &&& stepped.jumps[s][p + 1] == Some(
                (stepped.jumps[s][p].unwrap() + size) as u64,
            )
        }),
{
}

/// One more append extends a replay: an index that tracks `ops` tracks
/// `ops` plus the new pair after `add_to_collection(id, size)`, whatever
/// that call returned.
pub proof fn lemma_replay_extend(ops: Seq<(u64, u64)>, id: u64, size: u64)
    ensures
        spec_replay(ops.push((id, size))) == spec_step(spec_replay(ops), id, size).0,
{
    let extended = ops.push((id, size));
    assert(extended.drop_last() =~= ops);
    assert(extended.last() == (id, size));
}

/// The appends that store records `1..=sizes.len()` in ID order: record
/// `j + 1` carries encoded size `sizes[j]`.
pub open spec fn seq_ops(sizes: Seq<u64>) -> Seq<(u64, u64)> {
    Seq::new(sizes.len(), |j: int| (((j + 1) as u64), sizes[j]))
}

/// The byte offset at which the record at position `k` of segment `s`
/// begins when records arrive sequentially with sizes `sizes`: the sum of
/// the sizes of the `k` records before it in the segment.
pub open spec fn seg_sum(sizes: Seq<u64>, s: int, k: int) -> int
    recommends
        0 <= s,
        0 <= k,
        s * (MAX_SEGMENT_RECORDS as int) + k <= sizes.len(),
    decreases k,
{
    if k <= 0 {
        0
    } else {
        seg_sum(sizes, s, k - 1) + sizes[s * (MAX_SEGMENT_RECORDS as int) + (k - 1)]
    }
}

/// No running offset of a sequential run with sizes `sizes` outgrows
/// `u64`: the machine limit under which the index stores exact sums.
pub open spec fn sums_fit(sizes: Seq<u64>) -> bool {
    forall|s: int, k: int|
        0 <= s && 0 <= k <= MAX_SEGMENT_RECORDS && s * (MAX_SEGMENT_RECORDS as int) + k
            <= sizes.len() ==> #[trigger] seg_sum(sizes, s, k) <= u64::MAX
}

/// `m` is the index that sequential appends of `sizes.len()` records
/// build: one segment per started group of `MAX_SEGMENT_RECORDS` records,
/// each segment counting its share of them, and every populated entry the
/// running prefix sum of its segment's record sizes.
pub open spec fn tracks_sequential(m: MetaView, sizes: Seq<u64>) -> bool {
    let n = sizes.len() as int;
    let cap = MAX_SEGMENT_RECORDS as int;
    &&& m.sequence.len() == m.jumps.len()
    &&& m.jumps.len() == (n + cap - 1) / cap
    &&& forall|s: int|
        0 <= s < m.jumps.len() ==> #[trigger] m.sequence[s] as int == (if n - s * cap >= cap {
            cap
        } else {
            n - s * cap
        })
    &&& forall|s: int, k: int|
        0 <= s < m.jumps.len() && 0 <= k < m.jumps[s].len() ==> (#[trigger] m.jumps[s][k]) == Some(
            (seg_sum(sizes, s, k) as u64),
        )
}

/// `seg_sum` reads only the sizes before `s * MAX_SEGMENT_RECORDS + k`,
/// so two runs that agree on those sizes agree on the sum.
proof fn lemma_seg_sum_agrees(a: Seq<u64>, b: Seq<u64>, s: int, k: int)
    requires
        0 <= s,
        0 <= k,
        s * (MAX_SEGMENT_RECORDS as int) + k <= a.len(),
        a.len() <= b.len(),
        forall|i: int| 0 <= i < a.len() ==> a[i] == b[i],
    ensures
        seg_sum(a, s, k) == seg_sum(b, s, k),
    decreases k,
{
    if k > 0 {
        lemma_seg_sum_agrees(a, b, s, k - 1);
    }
}

/// A sum of sizes is never negative.
proof fn lemma_seg_sum_nonneg(sizes: Seq<u64>, s: int, k: int)
    requires
        0 <= s,
        s * (MAX_SEGMENT_RECORDS as int) + k <= sizes.len(),
    ensures
        seg_sum(sizes, s, k) >= 0,
    decreases k,
{
    if k > 0 {
        lemma_seg_sum_nonneg(sizes, s, k - 1);
    }
}

/// Replaying records `1..=sizes.len()` in ID order on a fresh index
/// builds exactly the prefix-sum table: each populated entry of `jumps`
/// is the sum of the sizes of the records before that position in its
/// segment, and `sequence` counts each segment's records.
pub proof fn lemma_sequential_replay(sizes: Seq<u64>)
    requires
        sizes.len() <= u64::MAX,
        sums_fit(sizes),
    ensures
        tracks_sequential(spec_replay(seq_ops(sizes)), sizes),
    decreases sizes.len(),
{
    let cap = MAX_SEGMENT_RECORDS as int;
    let n = sizes.len() as int;
    let ops = seq_ops(sizes);
    if n == 0 {
        assert(ops =~= Seq::<(u64, u64)>::empty());
    } else {
        let sizes0 = sizes.drop_last();
        let n0 = n - 1;
        assert forall|s: int, k: int|
            0 <= s && 0 <= k <= MAX_SEGMENT_RECORDS && s * cap + k <= n0 implies #[trigger] seg_sum(
            sizes0,
            s,
            k,
        ) <= u64::MAX by {
            lemma_seg_sum_agrees(sizes0, sizes, s, k);
            assert(seg_sum(sizes, s, k) <= u64::MAX);
        }
        lemma_sequential_replay(sizes0);
        lemma_replay_wf(seq_ops(sizes0));
        let m0 = spec_replay(seq_ops(sizes0));
        assert(ops.drop_last() =~= seq_ops(sizes0));
        assert(ops.last() == ((n as u64), sizes[n - 1]));
        let m = spec_replay(ops);
        assert(m == spec_step(m0, n as u64, sizes[n - 1]).0);

        let q = spec_segment_of(n as u64);
        let r = spec_position_of(n as u64);
        lemma_fundamental_div_mod(n - 1, cap);
        assert(n - 1 == q * cap + r);
        assert(0 <= r < cap);

        if r == 0 {
            // Record `n` opens segment `q`: `n0` filled exactly `q` rows.
            lemma_fundamental_div_mod_converse(n0 + cap - 1, cap, q, cap - 1);
            assert(m0.jumps.len() == q);
            lemma_fundamental_div_mod_converse(n + cap - 1, cap, q + 1, 0);
            assert((n + cap - 1) / cap == q + 1);
            assert(m.jumps.len() == q + 1);
            assert forall|s: int| 0 <= s < m.jumps.len() implies #[trigger] m.sequence[s] as int
                == (if n - s * cap >= cap {
                cap
            } else {
                n - s * cap
            }) by {
                if s < q {
                    assert((s + 1) * cap <= q * cap) by (nonlinear_arith)
                        requires
                            s + 1 <= q,
                            cap > 0,
                    ;
                    assert(n0 - s * cap >= cap);
                }
            }
            assert forall|s: int, k: int|
                0 <= s < m.jumps.len() && 0 <= k < m.jumps[s].len() implies (
            #[trigger] m.jumps[s][k]) == Some((seg_sum(sizes, s, k) as u64)) by {
                if s < q {
                    assert(m.jumps[s] == m0.jumps[s]);
                    assert(m0.jumps[s][k] == Some((seg_sum(sizes0, s, k) as u64)));
                    assert((s + 1) * cap <= q * cap) by (nonlinear_arith)
                        requires
                            s + 1 <= q,
                            cap > 0,
                    ;
                    assert(m0.jumps[s].len() == spec_row_len(m0.sequence[s] as u64));
                    lemma_seg_sum_agrees(sizes0, sizes, s, k);
                } else {
                    assert(m.jumps[q] =~= seq![Some(0u64), Some(sizes[n - 1])]);
                    assert(seg_sum(sizes, q, 0) == 0);
                    assert(seg_sum(sizes, q, 1) == sizes[q * cap]);
                    assert(q * cap == n - 1);
                }
            }
        } else {
            // Record `n` continues segment `q`, already the last row.
            lemma_fundamental_div_mod_converse(n0 + cap - 1, cap, q + 1, r - 1);
            assert(m0.jumps.len() == q + 1);
            lemma_fundamental_div_mod_converse(n + cap - 1, cap, q + 1, r);
            assert(m.jumps.len() == q + 1);
            assert(m0.sequence[q] as int == n0 - q * cap);
            assert(m0.sequence[q] as int == r);
            assert(m0.jumps[q].len() == spec_row_len(m0.sequence[q] as u64));
            assert(m0.jumps[q].len() == r + 1);
            assert(m0.jumps[q][r] == Some((seg_sum(sizes0, q, r) as u64)));
            lemma_seg_sum_nonneg(sizes0, q, r);
            lemma_seg_sum_agrees(sizes0, sizes, q, r);
            assert(seg_sum(sizes, q, r + 1) == seg_sum(sizes, q, r) + sizes[n - 1]);
            assert(seg_sum(sizes, q, r + 1) <= u64::MAX);
            assert forall|s: int| 0 <= s < m.jumps.len() implies #[trigger] m.sequence[s] as int
                == (if n - s * cap >= cap {
                cap
            } else {
                n - s * cap
            }) by {
                if s < q {
                    assert((s + 1) * cap <= q * cap) by (nonlinear_arith)
                        requires
                            s + 1 <= q,
                            cap > 0,
                    ;
                    assert(n0 - s * cap >= cap);
                }
            }
            assert forall|s: int, k: int|
                0 <= s < m.jumps.len() && 0 <= k < m.jumps[s].len() implies (
            #[trigger] m.jumps[s][k]) == Some((seg_sum(sizes, s, k) as u64)) by {
                if s != q {
                    assert(m.jumps[s] == m0.jumps[s]);
                    assert(m0.jumps[s][k] == Some((seg_sum(sizes0, s, k) as u64)));
                    assert((s + 1) * cap <= q * cap) by (nonlinear_arith)
                        requires
                            s + 1 <= q,
                            cap > 0,
                    ;
                    assert(m0.jumps[s].len() == spec_row_len(m0.sequence[s] as u64));
                    lemma_seg_sum_agrees(sizes0, sizes, s, k);
                } else {
                    assert(m.jumps[q] == m0.jumps[q].push(
                        Some(((seg_sum(sizes0, q, r) as u64) + sizes[n - 1]) as u64),
                    ));
                    if k <= r {
                        assert(m.jumps[q][k] == m0.jumps[q][k]);
                        assert(m0.jumps[q][k] == Some((seg_sum(sizes0, q, k) as u64)));
                        lemma_seg_sum_nonneg(sizes0, q, k);
                        lemma_seg_sum_agrees(sizes0, sizes, q, k);
                    } else {
                        assert(k == r + 1);
                        assert(m.jumps[q][k] == Some(
                            ((seg_sum(sizes0, q, r) as u64) + sizes[n - 1]) as u64,
                        ));
                        lemma_seg_sum_nonneg(sizes0, q, r);
                        assert(seg_sum(sizes0, q, r) <= u64::MAX);
                        assert((seg_sum(sizes0, q, r) as u64) as int == seg_sum(sizes, q, r));
                    }
                }
            }
        }
    }
}

/// What a lookup owes after `sizes.len()` sequential appends: record `id`
/// is committed and starts at the sum of the sizes of the records before
/// it in its segment.
pub proof fn lemma_sequential_lookup(sizes: Seq<u64>, id: u64)
    requires
        sizes.len() <= u64::MAX,
        sums_fit(sizes),
        1 <= id <= sizes.len(),
    ensures
        ({
            let m = spec_replay(seq_ops(sizes));
            let s = spec_segment_of(id);
            let p = spec_position_of(id);
            &&& s < m.jumps.len()
            &&& p < m.sequence[s]
            &&& m.jumps[s][p] == Some((seg_sum(sizes, s, p) as u64))
        }),
{
    let cap = MAX_SEGMENT_RECORDS as int;
    let n = sizes.len() as int;
    lemma_sequential_replay(sizes);
    lemma_replay_wf(seq_ops(sizes));
    let m = spec_replay(seq_ops(sizes));
    let s = spec_segment_of(id);
    let p = spec_position_of(id);
    lemma_fundamental_div_mod(id - 1, cap);
    assert(id - 1 == s * cap + p);
    assert(0 <= p < cap);
    assert(n + cap - 1 >= (s + 1) * cap) by (nonlinear_arith)
        requires
            n >= s * cap + p + 1,
            0 <= p < cap,
    ;
    lemma_fundamental_div_mod_converse((s + 1) * cap, cap, s + 1, 0);
    lemma_div_is_ordered((s + 1) * cap, n + cap - 1, cap);
    assert(m.jumps.len() >= s + 1);
    assert(m.sequence[s] as int == (if n - s * cap >= cap {
        cap
    } else {
        n - s * cap
    }));
    assert(n - s * cap >= p + 1);
    assert(m.jumps[s].len() == spec_row_len(m.sequence[s] as u64));
}

} // verus!
