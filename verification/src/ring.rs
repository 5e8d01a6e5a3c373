//! The consistent-hash ring: bucket positions, half-open wrapping ranges,
//! and the mapping from check identifiers to buckets.

use vstd::prelude::*;

verus! {

/// A position on the ring: an integer in `[0, ring_size)`.
pub type NodePosition = u32;

/// Represents a range on the ring `[start, end)`.
///
/// The range is inclusive of `start` and exclusive of `end`.
/// When `end < start`, the range wraps around the ring.
/// `start == end` denotes the full ring (the sole-node case).
#[derive(Debug, Clone, Copy, PartialEq, Eq, Structural)]
pub struct RingRange {
    pub start: NodePosition,
    pub end: NodePosition,
}

impl RingRange {
    /// The range only makes sense on a ring whose buckets include both bounds.
    pub open spec fn wf(self, ring_size: NodePosition) -> bool {
        &&& ring_size > 0
        &&& self.start < ring_size
        &&& self.end < ring_size
    }

    /// Membership in the half-open wrapping interval.
    pub open spec fn spec_contains(self, p: NodePosition) -> bool {
        if self.start == self.end {
            true
        } else if self.start < self.end {
            self.start <= p < self.end
        } else {
            p >= self.start || p < self.end
        }
    }

    /// Number of buckets the range owns on a ring of `ring_size` buckets.
    pub open spec fn spec_len(self, ring_size: NodePosition) -> int {
        if self.start == self.end {
            ring_size as int
        } else if self.start < self.end {
            self.end - self.start
        } else {
            ring_size - self.start + self.end
        }
    }

    /// The bucket indices of the range, in iteration order: `start`,
    /// then forward modulo `ring_size`, stopping before `end`.
    pub open spec fn bucket_seq(self, ring_size: NodePosition) -> Seq<NodePosition> {
        Seq::new(
            self.spec_len(ring_size) as nat,
            |i: int| ((self.start + i) % (ring_size as int)) as NodePosition,
        )
    }

    /// Membership test, wrap-aware.
    pub fn contains(&self, p: NodePosition) -> (r: bool)
        ensures
            r == self.spec_contains(p),
    {
        if self.start == self.end {
            true
        } else if self.start < self.end {
            self.start <= p && p < self.end
        } else {
            p >= self.start || p < self.end
        }
    }

    /// Yields the buckets of the range, from `start` forward.
    pub fn iter(&self, ring_size: NodePosition) -> (it: RingRangeIterator)
        requires
            self.wf(ring_size),
        ensures
            it.wf(),
            it.range() == *self,
            it.ring_size() == ring_size,
            it.yielded() == 0,
    {
        proof {
            vstd::arithmetic::div_mod::lemma_small_mod(self.start as nat, ring_size as nat);
        }
        RingRangeIterator {
            range: *self,
            ring_size,
            current: self.start,
            done: false,
            yielded: Ghost(0),
        }
    }

    /// All buckets of the range, collected in iteration order.
    pub fn buckets(&self, ring_size: NodePosition) -> (v: Vec<NodePosition>)
        requires
            self.wf(ring_size),
        ensures
            v@ == self.bucket_seq(ring_size),
    {
        let mut it = self.iter(ring_size);
        let mut v: Vec<NodePosition> = Vec::new();
        loop
            invariant
                it.wf(),
                it.range() == *self,
                it.ring_size() == ring_size,
                0 <= it.yielded() <= self.spec_len(ring_size),
                v@ == self.bucket_seq(ring_size).take(it.yielded()),
            ensures
                v@ == self.bucket_seq(ring_size),
            decreases self.spec_len(ring_size) - it.yielded(),
        {
            let ghost prev = it.yielded();
            match it.next() {
                Some(b) => {
                    v.push(b);
                    proof {
                        assert(v@ =~= self.bucket_seq(ring_size).take(prev + 1));
                    }
                }
                None => {
                    proof {
                        assert(v@ =~= self.bucket_seq(ring_size));
                    }
                    break;
                }
            }
        }
        v
    }
}

/// Walks the buckets of a [`RingRange`], wrapping modulo the ring size.
pub struct RingRangeIterator {
    range: RingRange,
    ring_size: NodePosition,
    current: NodePosition,
    done: bool,
    yielded: Ghost<int>,
}

impl RingRangeIterator {
    pub closed spec fn wf(self) -> bool {
        &&& self.range.wf(self.ring_size)
        &&& 0 <= self.yielded@ <= self.range.spec_len(self.ring_size)
        &&& (self.done <==> self.yielded@ == self.range.spec_len(self.ring_size))
        &&& self.current == (self.range.start + self.yielded@) % (self.ring_size as int)
    }

    pub closed spec fn range(self) -> RingRange {
        self.range
    }

    pub closed spec fn ring_size(self) -> NodePosition {
        self.ring_size
    }

    pub closed spec fn yielded(self) -> int {
        self.yielded@
    }

    /// The next bucket, or `None` once every bucket of the range was yielded.
    pub fn next(&mut self) -> (r: Option<NodePosition>)
        requires
            old(self).wf(),
        ensures
            final(self).wf(),
            final(self).range() == old(self).range(),
            final(self).ring_size() == old(self).ring_size(),
            old(self).yielded() < old(self).range().spec_len(old(self).ring_size()) ==> {
                &&& r == Some(old(self).range().bucket_seq(old(self).ring_size())[old(self).yielded()])
                &&& final(self).yielded() == old(self).yielded() + 1
            },
            old(self).yielded() == old(self).range().spec_len(old(self).ring_size()) ==> {
                &&& r is None
                &&& final(self).yielded() == old(self).yielded()
            },
    {
        if self.done {
            return None;
        }

        let result = self.current;

        self.current = (self.current + 1) % self.ring_size;
        proof {
            self.yielded@ = self.yielded@ + 1;
            lemma_step_wraps(
                self.range.start as int,
                old(self).yielded@,
                self.ring_size as int,
            );
        }

        if self.current == self.range.end {
            self.done = true;
        }
        proof {
            lemma_end_reached(self.range, self.yielded@, self.ring_size, self.current as int);
        }

        Some(result)
    }
}

/// For `x` within one ring-turn past the modulus, `%` is a single subtraction.
proof fn lemma_mod_in_window(x: int, ring: int)
    requires
        0 < ring,
        0 <= x < 2 * ring,
    ensures
        x % ring == if x < ring { x } else { x - ring },
{
    if x < ring {
        vstd::arithmetic::div_mod::lemma_small_mod(x as nat, ring as nat);
    } else {
        vstd::arithmetic::div_mod::lemma_mod_sub_multiples_vanish(x, ring);
        vstd::arithmetic::div_mod::lemma_small_mod((x - ring) as nat, ring as nat);
    }
}

/// Stepping the cursor forward by one agrees with indexing by the count of
/// yielded buckets.
proof fn lemma_step_wraps(start: int, yielded: int, ring: int)
    requires
        0 <= start < ring,
        0 <= yielded,
    ensures
        ((start + yielded) % ring + 1) % ring == (start + (yielded + 1)) % ring,
{
    vstd::arithmetic::div_mod::lemma_add_mod_noop_right(1, start + yielded, ring);
}

/// The cursor returns to `end` exactly when the whole range was yielded.
proof fn lemma_end_reached(range: RingRange, yielded: int, ring_size: NodePosition, current: int)
    requires
        range.wf(ring_size),
        0 < yielded <= range.spec_len(ring_size),
        current == (range.start + yielded) % (ring_size as int),
    ensures
        (current == range.end) <==> (yielded == range.spec_len(ring_size)),
{
    let ring = ring_size as int;
    let n = range.spec_len(ring_size);
    lemma_mod_in_window(range.start + yielded, ring);
}

/// The bucket a check hashes to, for a given ring size: its identifier
/// taken modulo the bucket count.
pub fn bucket_index(check_id: u128, ring_size: NodePosition) -> (b: NodePosition)
    requires
        ring_size > 0,
    ensures
        b == check_id as int % ring_size as int,
        b < ring_size,
{
    (check_id % (ring_size as u128)) as NodePosition
}

/// The `(bucket_version, bucket)` pair under which a check's rows are
/// stored, in the store's column types.
pub fn get_bucket_for_check(check_id: u128, bucket_version: u32, ring_size: NodePosition) -> (r: (
    i16,
    i32,
))
    requires
        0 < ring_size <= i32::MAX as u32,
        bucket_version <= i16::MAX as u32,
    ensures
        r.0 == bucket_version as int,
        r.1 == check_id as int % ring_size as int,
{
    let bucket = bucket_index(check_id, ring_size);
    (bucket_version as i16, bucket as i32)
}

} // verus!
