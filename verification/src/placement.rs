//! Ring placement: picking a position for a joining node, and computing
//! the bucket range a node owns from the region's membership.

use vstd::prelude::*;

use crate::membership::AliveNodes;
use crate::membership::Heartbeat;
use crate::ring::{NodePosition, RingRange};

verus! {

/// Why a position could not be chosen.
#[derive(Debug, Clone, Copy, PartialEq, Eq, Structural)]
pub enum PlacementError {
    /// Some alive node's position lies outside `[0, ring_size)`.
    InvalidNodePosition,
    /// The squared-gap weights do not fit the sampler's 64-bit total.
    WeightOverflow,
}

/// Every recorded position lies on the ring.
pub open spec fn positions_ok(s: Seq<Heartbeat>, ring_size: NodePosition) -> bool {
    forall|i: int| 0 <= i < s.len() ==> (#[trigger] s[i]).position < ring_size
}

/// The gap walked forward from `cur` to `next` on the ring; two nodes on
/// the same position are a full ring turn apart.
pub open spec fn spec_gap(cur: NodePosition, next: NodePosition, ring_size: NodePosition) -> int {
    if next > cur {
        next - cur
    } else {
        ring_size - cur + next
    }
}

/// The gap starting at node `i`, toward its ring successor.
pub open spec fn gap_at(s: Seq<Heartbeat>, ring_size: NodePosition, i: int) -> int
    recommends
        0 <= i < s.len(),
{
    spec_gap(s[i].position, s[(i + 1) % (s.len() as int)].position, ring_size)
}

/// The sampling weight of gap `i`: its size squared, biasing placement
/// toward larger gaps.
pub open spec fn weight_at(s: Seq<Heartbeat>, ring_size: NodePosition, i: int) -> int {
    gap_at(s, ring_size, i) * gap_at(s, ring_size, i)
}

/// The total of the first `n` sampling weights.
pub open spec fn weight_sum(s: Seq<Heartbeat>, ring_size: NodePosition, n: int) -> int
    decreases n,
{
    if n <= 0 {
        0
    } else {
        weight_sum(s, ring_size, n - 1) + weight_at(s, ring_size, n - 1)
    }
}

/// Position `p` lies at offset `o` inside the gap that starts at node `i`.
pub open spec fn placed_in_gap(
    s: Seq<Heartbeat>,
    ring_size: NodePosition,
    i: int,
    o: int,
    p: NodePosition,
) -> bool {
    &&& 0 <= i < s.len()
    &&& 0 <= o <= gap_at(s, ring_size, i)
    &&& p == (s[i].position + o) % (ring_size as int)
}

/// Relies on rand's `WeightedIndex` over `u64` weights: for a non-empty
/// list whose total is positive and fits in `u64`, `new` succeeds, and
/// `sample` returns an index of the list; an index of zero weight is
/// never returned.
#[verifier::external_body]
fn sample_weighted_index(weights: &Vec<u64>) -> (r: usize)
    requires
        weights@.len() > 0,
        sum_u64(weights@, weights@.len() as int) <= u64::MAX,
        sum_u64(weights@, weights@.len() as int) > 0,
    ensures
        r < weights@.len(),
        weights@[r as int] > 0,
{
    let dist = rand_distr::weighted::WeightedIndex::new(weights)
        .expect("weights are non-empty, positive in total, and fit in u64");
    rand_distr::Distribution::sample(&dist, &mut rand::rng())
}

/// The total of the first `n` weights of a list.
pub open spec fn sum_u64(s: Seq<u64>, n: int) -> int
    decreases n,
{
    if n <= 0 {
        0
    } else {
        sum_u64(s, n - 1) + s[n - 1]
    }
}

/// The total of the first `n` weights reads only those entries.
proof fn lemma_sum_u64_agree(s1: Seq<u64>, s2: Seq<u64>, n: int)
    requires
        0 <= n,
        forall|k: int| 0 <= k < n ==> s1[k] == s2[k],
    ensures
        sum_u64(s1, n) == sum_u64(s2, n),
    decreases n,
{
    if n > 0 {
        lemma_sum_u64_agree(s1, s2, n - 1);
    }
}

/// A prefix of non-negative weights never outweighs the whole list.
proof fn lemma_sum_u64_monotone(s: Seq<u64>, n: int, m: int)
    requires
        0 <= n <= m <= s.len(),
    ensures
        sum_u64(s, n) <= sum_u64(s, m),
    decreases m - n,
{
    if n < m {
        lemma_sum_u64_monotone(s, n, m - 1);
    }
}

/// Relies on rand's `random`: a uniformly distributed value, with nothing
/// promised of it.
pub assume_specification<T>[ rand::random::<T> ]() -> (r: T)
    where
        rand::distr::StandardUniform: rand::distr::Distribution<T>,
;

/// A `Beta(3, 3)`-distributed fixed-point fraction of the unit interval,
/// scaled by 2^32: the median of five independent uniform draws. (The
/// k-th smallest of n uniform variates is `Beta(k, n + 1 - k)`-distributed,
/// so the middle of five is `Beta(3, 3)`.) The symmetric shape, centred
/// at one half, keeps the offset away from the edges of the chosen gap.
fn sample_offset_fraction() -> (r: u64)
    ensures
        r < 0x1_0000_0000u64,
{
    let mut draws: Vec<u64> = Vec::new();
    let mut i: usize = 0;
    while i < 5
        invariant
            i <= 5,
            draws@.len() == i,
            forall|k: int| 0 <= k < i ==> #[trigger] draws@[k] < 0x1_0000_0000u64,
        decreases 5 - i,
    {
        let d: u32 = rand::random();
        draws.push(d as u64);
        i += 1;
    }
    let ghost raw = draws@;
    crate::sorting::sort_u64(&mut draws);
    let median = draws[2];
    proof {
        raw.to_multiset_ensures();
        draws@.to_multiset_ensures();
        assert(draws@.contains(draws@[2]));
        assert(raw.to_multiset().count(median) > 0);
        assert(raw.contains(median));
    }
    median
}

/// Chooses a position for a new node on the ring given the current state.
///
/// An empty ring yields position `0`. Otherwise one gap between
/// consecutive nodes is sampled with probability proportional to its
/// squared size, and a Beta-distributed offset places the node inside
/// that gap. Any returned position lies on the ring.
pub fn choose_new_node_position(state: &AliveNodes, ring_size: NodePosition) -> (r: Result<
    NodePosition,
    PlacementError,
>)
    requires
        state.wf(),
    ensures
        state@.len() == 0 ==> r == Result::<NodePosition, PlacementError>::Ok(0),
        state@.len() > 0 && !positions_ok(state@, ring_size) ==> r == Result::<
            NodePosition,
            PlacementError,
        >::Err(PlacementError::InvalidNodePosition),
        state@.len() > 0 && positions_ok(state@, ring_size) && r is Ok ==> r->Ok_0 < ring_size
            && exists|i: int, o: int| #[trigger] placed_in_gap(state@, ring_size, i, o, r->Ok_0),
        state@.len() > 0 && positions_ok(state@, ring_size) && r is Err ==> r->Err_0
            == PlacementError::WeightOverflow && weight_sum(state@, ring_size, state@.len() as int)
            > u64::MAX,
{
    let n = state.len();
    if n == 0 {
        return Ok(0);
    }

    let mut i: usize = 0;
    while i < n
        invariant
            n == state@.len(),
            i <= n,
            forall|k: int| 0 <= k < i ==> (#[trigger] state@[k]).position < ring_size,
        decreases n - i,
    {
        if state.get(i).position >= ring_size {
            return Err(PlacementError::InvalidNodePosition);
        }
        i += 1;
    }
    // All positions lie on the ring, so in particular the ring is not empty.
    assert(positions_ok(state@, ring_size));
    assert(state@[0].position < ring_size);
    assert(ring_size > 0);

    // Build the gap list and the squared-gap weights, checking that the
    // weight total fits the sampler.
    let mut gap_sizes: Vec<NodePosition> = Vec::new();
    let mut gap_starts: Vec<NodePosition> = Vec::new();
    let mut weights: Vec<u64> = Vec::new();
    let mut total: u64 = 0;
    let mut i: usize = 0;
    while i < n
        invariant
            n == state@.len(),
            0 < n,
            i <= n,
            state.wf(),
            positions_ok(state@, ring_size),
            gap_sizes@.len() == i,
            gap_starts@.len() == i,
            weights@.len() == i,
            forall|k: int| 0 <= k < i ==> #[trigger] gap_sizes@[k] == gap_at(state@, ring_size, k),
            forall|k: int|
                0 <= k < i ==> #[trigger] gap_starts@[k] == state@[k].position,
            forall|k: int| 0 <= k < i ==> #[trigger] weights@[k] == weight_at(state@, ring_size, k),
            total == weight_sum(state@, ring_size, i as int),
            total == sum_u64(weights@, i as int),
            forall|k: int| 0 <= k < i ==> #[trigger] weights@[k] > 0,
        decreases n - i,
    {
        let cur = state.get(i).position;
        let next_idx = if i + 1 == n {
            0
        } else {
            i + 1
        };
        let next = state.get(next_idx).position;
        proof {
            if i + 1 == n {
                assert((i + 1) % (n as int) == 0) by {
                    vstd::arithmetic::div_mod::lemma_mod_self_0(n as int);
                }
            } else {
                vstd::arithmetic::div_mod::lemma_small_mod((i + 1) as nat, n as nat);
            }
        }
        let gap: NodePosition = if next > cur {
            next - cur
        } else {
            ring_size - cur + next
        };
        assert(gap == gap_at(state@, ring_size, i as int));
        assert(gap >= 1);
        proof {
            assert((gap as u64) * (gap as u64) <= 0xFFFF_FFFF_FFFF_FFFF && (gap as u64) * (
            gap as u64) >= 1) by (nonlinear_arith)
                requires
                    1 <= gap <= 0xFFFF_FFFFu64,
            ;
        }
        let w: u64 = (gap as u64) * (gap as u64);
        assert(w == weight_at(state@, ring_size, i as int));
        let new_total = match total.checked_add(w) {
            Some(t) => t,
            None => {
                proof {
                    lemma_weight_sum_monotone(state@, ring_size, i + 1, n as int);
                }
                return Err(PlacementError::WeightOverflow);
            },
        };
        gap_sizes.push(gap);
        gap_starts.push(cur);
        let ghost w_pre = weights@;
        weights.push(w);
        proof {
            lemma_sum_u64_agree(weights@, w_pre, i as int);
            assert(sum_u64(weights@, i + 1) == sum_u64(w_pre, i as int) + w);
            assert(weight_sum(state@, ring_size, i + 1) == weight_sum(state@, ring_size, i as int)
                + weight_at(state@, ring_size, i as int));
        }
        total = new_total;
        i += 1;
    }

    proof {
        lemma_sum_u64_monotone(weights@, 0, n as int - 1);
        assert(sum_u64(weights@, n as int) == sum_u64(weights@, n as int - 1) + weights@[n - 1]);
    }
    let idx = sample_weighted_index(&weights);
    let gap = gap_sizes[idx];
    let start = gap_starts[idx];

    let frac = sample_offset_fraction();
    proof {
        assert((gap as u64) * frac <= 0xFFFF_FFFF_FFFF_FFFF) by (nonlinear_arith)
            requires
                gap <= 0xFFFF_FFFFu64,
                frac < 0x1_0000_0000u64,
        ;
    }
    let offset: u64 = ((gap as u64) * frac) / 0x1_0000_0000u64;
    proof {
        lemma_offset_within_gap(gap as u64, frac);
    }
    let rem: u64 = ((start as u64) + offset) % (ring_size as u64);
    proof {
        vstd::arithmetic::div_mod::lemma_mod_division_less_than_divisor(
            start as int + offset as int,
            ring_size as int,
        );
        assert(rem < ring_size);
    }
    let position: NodePosition = rem as NodePosition;
    proof {
        assert(position == (state@[idx as int].position + offset as int) % (ring_size as int));
        assert(0 <= offset as int <= gap_at(state@, ring_size, idx as int));
        assert(placed_in_gap(state@, ring_size, idx as int, offset as int, position));
        assert(exists|i: int, o: int| #[trigger] placed_in_gap(state@, ring_size, i, o, position));
        assert(position < ring_size);
    }
    Ok(position)
}

/// Prefixes of the squared-gap totals are monotone.
proof fn lemma_weight_sum_monotone(s: Seq<Heartbeat>, ring_size: NodePosition, n: int, m: int)
    requires
        0 <= n <= m,
    ensures
        weight_sum(s, ring_size, n) <= weight_sum(s, ring_size, m),
    decreases m - n,
{
    if n < m {
        lemma_weight_sum_monotone(s, ring_size, n, m - 1);
        let g = gap_at(s, ring_size, m - 1);
        assert(g * g >= 0) by (nonlinear_arith);
    }
}

/// A fixed-point fraction of at most one unit scales a gap to an offset
/// inside it.
proof fn lemma_offset_within_gap(gap: u64, frac: u64)
    requires
        frac <= 0x1_0000_0000u64,
    ensures
        gap * frac / 0x1_0000_0000 <= gap,
{
    vstd::arithmetic::mul::lemma_mul_inequality(frac as int, 0x1_0000_0000, gap as int);
    vstd::arithmetic::div_mod::lemma_div_is_ordered(
        gap as int * frac as int,
        gap as int * 0x1_0000_0000,
        0x1_0000_0000,
    );
    vstd::arithmetic::div_mod::lemma_div_by_multiple(gap as int, 0x1_0000_0000);
}

/// The first index at which a node identifier appears.
pub open spec fn first_index_of(s: Seq<Heartbeat>, node_id: u128) -> int
    decreases s.len(),
{
    if s.len() == 0 {
        0
    } else if s[0].node_id == node_id {
        0
    } else {
        1 + first_index_of(s.drop_first(), node_id)
    }
}

/// The range a node owns, as a function of the ordered membership: from
/// its own position to its `replication_factor`-th successor's; the full
/// ring for a sole node; nothing for an absent one.
pub open spec fn spec_node_range(s: Seq<Heartbeat>, node_id: u128, replication_factor: u32) -> Option<
    RingRange,
> {
    if !(exists|i: int| 0 <= i < s.len() && (#[trigger] s[i]).node_id == node_id) {
        None
    } else {
        let i = first_index_of(s, node_id);
        Some(
            RingRange {
                start: s[i].position,
                end: if s.len() == 1 {
                    s[i].position
                } else {
                    s[(i + replication_factor as int) % (s.len() as int)].position
                },
            },
        )
    }
}

/// Computes the bucket range a node owns, given the ordered membership of
/// its region.
///
/// A node that is not present owns nothing. A sole node owns the full
/// ring, `[p, p)`. Otherwise the node's range runs from its own position
/// to the position of its `replication_factor`-th successor in ring
/// order; when the factor reaches the node count, that successor is the
/// node itself and the range degenerates to the full ring.
pub fn calculate_node_range(
    node_id: u128,
    replication_factor: u32,
    current_state: &AliveNodes,
) -> (r: Option<RingRange>)
    requires
        current_state.wf(),
    ensures
        r == spec_node_range(current_state@, node_id, replication_factor),
        r matches Some(range) ==> {
            let s = current_state@;
            let i = first_index_of(s, node_id);
            0 <= i < s.len() && s[i].node_id == node_id && range.start == s[i].position
        },
{
    let n = current_state.len();
    let mut i: usize = 0;
    let mut our_idx: Option<usize> = None;
    while i < n
        invariant
            n == current_state@.len(),
            i <= n,
            our_idx is None ==> forall|k: int|
                0 <= k < i ==> (#[trigger] current_state@[k]).node_id != node_id,
            our_idx matches Some(j) ==> j < n && current_state@[j as int].node_id == node_id
                && j == first_index_of(current_state@, node_id),
        decreases n - i,
    {
        if our_idx.is_none() && current_state.get(i).node_id == node_id {
            our_idx = Some(i);
            proof {
                lemma_first_index_of_agrees(current_state@, node_id, i as int);
            }
        }
        i += 1;
    }

    let our_idx = match our_idx {
        Some(j) => j,
        None => {
            assert(spec_node_range(current_state@, node_id, replication_factor) is None);
            return None;
        },
    };

    let our_position = current_state.get(our_idx).position;

    if n == 1 {
        return Some(RingRange { start: our_position, end: our_position });
    }

    let end_idx = (((our_idx as u128) + (replication_factor as u128)) % (n as u128)) as usize;
    proof {
        vstd::arithmetic::div_mod::lemma_mod_division_less_than_divisor(
            our_idx as int + replication_factor as int,
            n as int,
        );
    }
    let end_position = current_state.get(end_idx).position;

    Some(RingRange { start: our_position, end: end_position })
}

/// A scan that saw no match before `i` and a match at `i` found the first
/// index of that identifier.
proof fn lemma_first_index_of_agrees(s: Seq<Heartbeat>, node_id: u128, i: int)
    requires
        0 <= i < s.len(),
        s[i].node_id == node_id,
        forall|k: int| 0 <= k < i ==> (#[trigger] s[k]).node_id != node_id,
    ensures
        first_index_of(s, node_id) == i,
    decreases i,
{
    if i > 0 {
        lemma_first_index_of_agrees(s.drop_first(), node_id, i - 1);
    }
}

} // verus!

verus! {

/// The range owned by the node at index `i` of the ordered membership:
/// from its position to its `k`-th successor's. When `k` is a multiple of
/// the node count the range degenerates to the full ring.
pub open spec fn range_at(s: Seq<Heartbeat>, k: u32, i: int) -> RingRange
    recommends
        0 <= i < s.len(),
{
    RingRange {
        start: s[i].position,
        end: s[(i + k) % (s.len() as int)].position,
    }
}

/// Whether bucket `b` lies in the range of the node at index `i`.
pub open spec fn covers(s: Seq<Heartbeat>, k: u32, b: NodePosition, i: int) -> bool {
    range_at(s, k, i).spec_contains(b)
}

/// How many of the first `n` indices satisfy a predicate.
pub open spec fn count_true(p: spec_fn(int) -> bool, n: int) -> int
    decreases n,
{
    if n <= 0 {
        0
    } else {
        count_true(p, n - 1) + if p(n - 1) {
            1int
        } else {
            0int
        }
    }
}

/// How many nodes' ranges own bucket `b`.
pub open spec fn coverage_count(s: Seq<Heartbeat>, k: u32, b: NodePosition) -> int {
    count_true(|i: int| covers(s, k, b, i), s.len() as int)
}

/// No two nodes share a ring position.
pub open spec fn positions_strictly_sorted(s: Seq<Heartbeat>) -> bool {
    forall|i: int, j: int|
        0 <= i < j < s.len() ==> (#[trigger] s[i]).position < (#[trigger] s[j]).position
}

/// The membership walked twice around the ring: position `m` of the
/// second turn is the position of node `m - n`, one ring further on.
pub open spec fn unrolled(s: Seq<Heartbeat>, ring_size: NodePosition, m: int) -> int
    recommends
        0 <= m < 2 * s.len(),
{
    if m < s.len() {
        s[m].position as int
    } else {
        s[m - s.len()].position + ring_size
    }
}

/// The largest index at most `i` whose unrolled position is at most `x`,
/// or `-1` when there is none.
pub open spec fn last_le(s: Seq<Heartbeat>, ring_size: NodePosition, x: int, i: int) -> int
    decreases i + 1,
{
    if i < 0 {
        -1
    } else if unrolled(s, ring_size, i) <= x {
        i
    } else {
        last_le(s, ring_size, x, i - 1)
    }
}

proof fn lemma_last_le_props(s: Seq<Heartbeat>, ring_size: NodePosition, x: int, i: int)
    requires
        i >= -1,
    ensures
        -1 <= last_le(s, ring_size, x, i) <= i,
        last_le(s, ring_size, x, i) >= 0 ==> unrolled(s, ring_size, last_le(s, ring_size, x, i))
            <= x,
        forall|m: int|
            last_le(s, ring_size, x, i) < m <= i ==> unrolled(s, ring_size, m) > x,
    decreases i + 1,
{
    if i >= 0 {
        lemma_last_le_props(s, ring_size, x, i - 1);
    }
}

/// A candidate with the defining properties is the `last_le` index.
proof fn lemma_last_le_unique(s: Seq<Heartbeat>, ring_size: NodePosition, x: int, i: int, c: int)
    requires
        -1 <= c <= i,
        c >= 0 ==> unrolled(s, ring_size, c) <= x,
        forall|m: int| c < m <= i ==> unrolled(s, ring_size, m) > x,
    ensures
        last_le(s, ring_size, x, i) == c,
    decreases i + 1,
{
    if i > c {
        lemma_last_le_unique(s, ring_size, x, i - 1, c);
    }
}

/// With distinct sorted positions on the ring, the unrolled positions
/// increase strictly over both turns.
proof fn lemma_unrolled_increasing(
    s: Seq<Heartbeat>,
    ring_size: NodePosition,
    m1: int,
    m2: int,
)
    requires
        positions_strictly_sorted(s),
        positions_ok(s, ring_size),
        0 <= m1 < m2 < 2 * s.len(),
    ensures
        unrolled(s, ring_size, m1) < unrolled(s, ring_size, m2),
{
}

/// For `x` within one ring-turn past the modulus, `%` is a single
/// subtraction.
proof fn lemma_mod_window(x: int, n: int)
    requires
        0 < n,
        0 <= x < 2 * n,
    ensures
        x % n == if x < n {
            x
        } else {
            x - n
        },
{
    if x < n {
        vstd::arithmetic::div_mod::lemma_small_mod(x as nat, n as nat);
    } else {
        vstd::arithmetic::div_mod::lemma_mod_sub_multiples_vanish(x, n);
        vstd::arithmetic::div_mod::lemma_small_mod((x - n) as nat, n as nat);
    }
}

/// A node's range owns `b` exactly when one of the two lifts of `b`
/// falls between the node's unrolled position and its `k`-th successor's.
proof fn lemma_covers_unrolled(
    s: Seq<Heartbeat>,
    ring_size: NodePosition,
    k: u32,
    b: NodePosition,
    i: int,
)
    requires
        positions_strictly_sorted(s),
        positions_ok(s, ring_size),
        1 <= k <= s.len(),
        b < ring_size,
        0 <= i < s.len(),
    ensures
        covers(s, k, b, i) <==> {
            ||| unrolled(s, ring_size, i) <= b < unrolled(s, ring_size, i + k)
            ||| unrolled(s, ring_size, i) <= b + ring_size < unrolled(s, ring_size, i + k)
        },
{
    let n = s.len() as int;
    lemma_mod_window(i + k, n);
    if i + k < n {
        if i < i + k {
            lemma_unrolled_increasing(s, ring_size, i, i + k);
        }
    }
}

/// Counts agree for predicates that agree pointwise.
proof fn lemma_count_congruent(p: spec_fn(int) -> bool, q: spec_fn(int) -> bool, n: int)
    requires
        forall|i: int| 0 <= i < n ==> #[trigger] p(i) == q(i),
    ensures
        count_true(p, n) == count_true(q, n),
    decreases n,
{
    if n > 0 {
        lemma_count_congruent(p, q, n - 1);
    }
}

/// The count of a disjoint disjunction is the sum of the counts.
proof fn lemma_count_or_disjoint(
    r: spec_fn(int) -> bool,
    p: spec_fn(int) -> bool,
    q: spec_fn(int) -> bool,
    n: int,
)
    requires
        forall|i: int| 0 <= i < n ==> #[trigger] r(i) == (p(i) || q(i)),
        forall|i: int| 0 <= i < n ==> !(#[trigger] p(i) && q(i)),
    ensures
        count_true(r, n) == count_true(p, n) + count_true(q, n),
    decreases n,
{
    if n > 0 {
        lemma_count_or_disjoint(r, p, q, n - 1);
    }
}

/// The count of an index window, clipped to `[0, n)`.
proof fn lemma_count_window(p: spec_fn(int) -> bool, lo: int, hi: int, n: int)
    requires
        n >= 0,
        forall|i: int| 0 <= i < n ==> #[trigger] p(i) == (lo < i <= hi),
    ensures
        count_true(p, n) == {
            let h = if hi < n - 1 {
                hi
            } else {
                n - 1
            };
            let l = if lo < -1 {
                -1int
            } else {
                lo
            };
            if h <= l {
                0
            } else {
                h - l
            }
        },
    decreases n,
{
    if n > 0 {
        lemma_count_window(p, lo, hi, n - 1);
    }
}

/// Every bucket is owned by exactly `replication_factor` nodes: when all
/// alive nodes take distinct positions on the ring and `k` of them at
/// most exist, the union of the ranges `[p_i, p_(i+k))` covers each
/// bucket exactly `k` times. Losing a node therefore costs each bucket
/// one replica, never its last owner.
pub proof fn lemma_ring_coverage(
    s: Seq<Heartbeat>,
    ring_size: NodePosition,
    k: u32,
    b: NodePosition,
)
    requires
        positions_strictly_sorted(s),
        positions_ok(s, ring_size),
        1 <= k <= s.len(),
        b < ring_size,
    ensures
        coverage_count(s, k, b) == k,
{
    let n = s.len() as int;
    let ring = ring_size as int;
    let cov = |i: int| covers(s, k, b, i);
    let lift_low = |i: int| unrolled(s, ring_size, i) <= b < unrolled(s, ring_size, i + k);
    let lift_high = |i: int| unrolled(s, ring_size, i) <= b + ring < unrolled(
        s,
        ring_size,
        i + k,
    );

    // The last unrolled index at or below each lift of the bucket.
    let low = last_le(s, ring_size, b as int, 2 * n - 1);
    let high = last_le(s, ring_size, b + ring, 2 * n - 1);
    lemma_last_le_props(s, ring_size, b as int, 2 * n - 1);
    lemma_last_le_props(s, ring_size, b + ring, 2 * n - 1);

    assert forall|m1: int, m2: int|
        0 <= m1 < m2 < 2 * n implies unrolled(s, ring_size, m1) < unrolled(
        s,
        ring_size,
        m2,
    ) by {
        lemma_unrolled_increasing(s, ring_size, m1, m2);
    }

    // The low lift never reaches the second turn.
    assert(low < n) by {
        if low >= n {
            assert(unrolled(s, ring_size, low) <= b);
        }
    }

    // The high lift sits exactly one turn above the low one.
    assert(high == if low >= 0 {
        n + low
    } else {
        n - 1
    }) by {
        if low >= 0 {
            assert(unrolled(s, ring_size, n + low) == unrolled(s, ring_size, low) + ring);
            assert forall|m: int| n + low < m <= 2 * n - 1 implies unrolled(s, ring_size, m) > b
                + ring by {
                assert(unrolled(s, ring_size, m) == unrolled(s, ring_size, m - n) + ring);
                assert(unrolled(s, ring_size, m - n) > b);
            }
            lemma_last_le_unique(s, ring_size, b + ring, 2 * n - 1, n + low);
        } else {
            assert forall|m: int| n - 1 < m <= 2 * n - 1 implies unrolled(s, ring_size, m) > b
                + ring by {
                assert(unrolled(s, ring_size, m) == unrolled(s, ring_size, m - n) + ring);
                assert(unrolled(s, ring_size, m - n) > b);
            }
            assert(unrolled(s, ring_size, n - 1) == s[n - 1].position < ring <= b + ring);
            lemma_last_le_unique(s, ring_size, b + ring, 2 * n - 1, n - 1);
        }
    }

    // Membership in a range is membership of a lift in an index window.
    assert forall|i: int| 0 <= i < n implies #[trigger] cov(i) == (lift_low(i) || lift_high(
        i,
    )) by {
        lemma_covers_unrolled(s, ring_size, k, b, i);
    }
    assert forall|i: int| 0 <= i < n implies #[trigger] lift_low(i) == (low - k < i
        <= low) by {
        if i <= low && low >= 0 {
            if i < low {
                lemma_unrolled_increasing(s, ring_size, i, low);
            }
        }
        if i + k <= low && low >= 0 {
            if i + k < low {
                lemma_unrolled_increasing(s, ring_size, i + k, low);
            }
        }
    }
    assert forall|i: int| 0 <= i < n implies #[trigger] lift_high(i) == (high - k < i
        <= high) by {
        if i <= high && high >= 0 {
            if i < high {
                lemma_unrolled_increasing(s, ring_size, i, high);
            }
        }
        if i + k <= high && high >= 0 {
            if i + k < high {
                lemma_unrolled_increasing(s, ring_size, i + k, high);
            }
        }
    }

    // No index window holds both lifts.
    assert forall|i: int| 0 <= i < n implies !(#[trigger] lift_low(i) && lift_high(i)) by {}

    let in_low = |i: int| low - k < i <= low;
    let in_high = |i: int| high - k < i <= high;
    lemma_count_congruent(lift_low, in_low, n);
    lemma_count_congruent(lift_high, in_high, n);
    lemma_count_or_disjoint(cov, lift_low, lift_high, n);
    lemma_count_window(in_low, low - k, low, n);
    lemma_count_window(in_high, high - k, high, n);
}

} // verus!

verus! {

/// When no two nodes share an identifier, the range computed for the
/// node at index `i` is exactly the range the coverage law counts.
pub proof fn lemma_node_range_is_range_at(s: Seq<Heartbeat>, k: u32, i: int)
    requires
        0 <= i < s.len(),
        forall|a: int, b: int|
            0 <= a < b < s.len() ==> (#[trigger] s[a]).node_id != (#[trigger] s[b]).node_id,
    ensures
        spec_node_range(s, s[i].node_id, k) == Some(range_at(s, k, i)),
{
    let n = s.len() as int;
    assert(first_index_of(s, s[i].node_id) == i) by {
        lemma_first_index_of_agrees(s, s[i].node_id, i);
    }
    if n == 1 {
        vstd::arithmetic::div_mod::lemma_mod_self_0(n);
        assert((i + k) % n == 0) by {
            vstd::arithmetic::div_mod::lemma_mod_multiples_basic(1, n);
            assert(i == 0);
            vstd::arithmetic::div_mod::lemma_mod_twice(k as int, n);
            assert(k as int == n * (k as int / n) + (k as int) % n) by {
                vstd::arithmetic::div_mod::lemma_fundamental_div_mod(k as int, n);
            }
            assert((k as int) % n < 1) by {
                vstd::arithmetic::div_mod::lemma_mod_bound(k as int, n);
            }
        }
    }
}

} // verus!
