//! Heartbeat-based membership: the liveness rows workers publish, and the
//! sorted set of alive nodes derived from them.

use vstd::prelude::*;

use crate::regions::Region;
use crate::ring::NodePosition;

verus! {

/// One worker's liveness entry, as the rest of the cluster sees it.
#[derive(Debug)]
pub struct Heartbeat {
    pub node_id: u128,
    pub position: NodePosition,
    pub socket_address: Option<String>,
    pub region: Region,
}

impl Heartbeat {
    /// Nodes are ordered by `(position, node_id)`; the identifier breaks
    /// position ties so every reader agrees on successor computation.
    pub open spec fn key_lt(a: Heartbeat, b: Heartbeat) -> bool {
        a.position < b.position || (a.position == b.position && a.node_id < b.node_id)
    }

    pub open spec fn key_eq(a: Heartbeat, b: Heartbeat) -> bool {
        a.position == b.position && a.node_id == b.node_id
    }
}

/// Compares two heartbeats by their `(position, node_id)` key.
pub fn heartbeat_key_lt(a: &Heartbeat, b: &Heartbeat) -> (r: bool)
    ensures
        r == Heartbeat::key_lt(*a, *b),
{
    a.position < b.position || (a.position == b.position && a.node_id < b.node_id)
}

/// The set of currently alive nodes, kept sorted by `(position, node_id)`
/// with no two entries sharing that key.
pub struct AliveNodes {
    nodes: Vec<Heartbeat>,
}

impl View for AliveNodes {
    type V = Seq<Heartbeat>;

    closed spec fn view(&self) -> Seq<Heartbeat> {
        self.nodes@
    }
}

impl AliveNodes {
    /// Strictly sorted by the `(position, node_id)` key: sorted and duplicate-free.
    pub open spec fn spec_wf(s: Seq<Heartbeat>) -> bool {
        forall|i: int, j: int|
            0 <= i < j < s.len() ==> Heartbeat::key_lt(#[trigger] s[i], #[trigger] s[j])
    }

    pub open spec fn wf(self) -> bool {
        Self::spec_wf(self@)
    }

    pub open spec fn spec_len(self) -> nat {
        self@.len()
    }

    pub open spec fn contains_hb(self, h: Heartbeat) -> bool {
        self@.contains(h)
    }

    pub fn new() -> (r: AliveNodes)
        ensures
            r.wf(),
            r@ == Seq::<Heartbeat>::empty(),
    {
        AliveNodes { nodes: Vec::new() }
    }

    pub fn len(&self) -> (n: usize)
        ensures
            n == self@.len(),
    {
        self.nodes.len()
    }

    pub fn get(&self, i: usize) -> (h: &Heartbeat)
        requires
            i < self@.len(),
        ensures
            *h == self@[i as int],
    {
        &self.nodes[i]
    }

    /// Inserts a heartbeat at its sorted position. A heartbeat whose
    /// `(position, node_id)` key is already present is not inserted, as in
    /// an ordered set.
    pub fn insert(&mut self, h: Heartbeat)
        requires
            old(self).wf(),
        ensures
            final(self).wf(),
            (exists|j: int|
                0 <= j < old(self)@.len() && Heartbeat::key_eq(#[trigger] old(self)@[j], h)) ==> final(self)@ == old(self)@,
            !(exists|j: int|
                0 <= j < old(self)@.len() && Heartbeat::key_eq(#[trigger] old(self)@[j], h)) ==> {
                &&& final(self)@.to_multiset() == old(self)@.to_multiset().insert(h)
                &&& final(self)@.len() == old(self)@.len() + 1
            },
    {
        let n = self.nodes.len();
        let mut i: usize = 0;
        while i < n && heartbeat_key_lt(&self.nodes[i], &h)
            invariant
                n == self.nodes.len(),
                i <= n,
                self.nodes@ == old(self).nodes@,
                forall|k: int| 0 <= k < i ==> Heartbeat::key_lt(#[trigger] self.nodes@[k], h),
            decreases n - i,
        {
            i += 1;
        }
        if i < n {
            let cur = &self.nodes[i];
            if cur.position == h.position && cur.node_id == h.node_id {
                // Already present under this key: an ordered set keeps the
                // existing entry.
                return ;
            }
            assert(Heartbeat::key_lt(h, self.nodes@[i as int]));
        }
        assert forall|j: int| 0 <= j < self.nodes@.len() implies !Heartbeat::key_eq(
            #[trigger] self.nodes@[j],
            h,
        ) by {
            if j >= i {
                assert(Heartbeat::key_lt(h, self.nodes@[i as int]));
                if j > i {
                    assert(Heartbeat::key_lt(self.nodes@[i as int], self.nodes@[j]));
                }
            }
        }
        let ghost pre = self.nodes@;
        self.nodes.insert(i, h);
        proof {
            assert forall|a: int, b: int|
                0 <= a < b < self.nodes@.len() implies Heartbeat::key_lt(
                #[trigger] self.nodes@[a],
                #[trigger] self.nodes@[b],
            ) by {
                if a < i && b > i {
                    assert(self.nodes@[a] == pre[a]);
                    assert(self.nodes@[b] == pre[b - 1]);
                    assert(Heartbeat::key_lt(h, pre[i as int]));
                } else if a == i && b > i {
                    assert(self.nodes@[b] == pre[b - 1]);
                    assert(Heartbeat::key_lt(h, pre[i as int]));
                }
            }
            assert(self.nodes@ =~= pre.take(i as int) + seq![h] + pre.skip(i as int));
            lemma_multiset_of_insert(pre, h, i as int);
        }
    }

    /// The alive nodes of one region, in the same order.
    pub fn filter_region(&self, region: Region) -> (r: AliveNodes)
        requires
            self.wf(),
        ensures
            r.wf(),
            r@ == self@.filter(|h: Heartbeat| h.region == region),
    {
        let mut out: Vec<Heartbeat> = Vec::new();
        let ghost pred = |h: Heartbeat| h.region == region;
        let n = self.nodes.len();
        let ghost mut picked: Seq<int> = Seq::empty();
        let mut i: usize = 0;
        while i < n
            invariant
                n == self.nodes.len(),
                i <= n,
                Self::spec_wf(self.nodes@),
                pred == (|h: Heartbeat| h.region == region),
                out@ == self.nodes@.take(i as int).filter(pred),
                picked.len() == out@.len(),
                forall|k: int| 0 <= k < picked.len() ==> 0 <= #[trigger] picked[k] < i,
                forall|k: int|
                    0 <= k < picked.len() ==> out@[k] == self.nodes@[#[trigger] picked[k]],
                forall|a: int, b: int| 0 <= a < b < picked.len() ==> picked[a] < picked[b],
            decreases n - i,
        {
            let h = &self.nodes[i];
            let ghost prefix = self.nodes@.take(i as int);
            proof {
                reveal(Seq::filter);
                assert(self.nodes@.take(i + 1).drop_last() =~= prefix);
                assert(self.nodes@.take(i + 1).last() == self.nodes@[i as int]);
            }
            if h.region == region {
                out.push(h.clone_heartbeat());
                proof {
                    picked = picked.push(i as int);
                }
            }
            i += 1;
        }
        proof {
            assert(self.nodes@.take(n as int) =~= self.nodes@);
            assert forall|a: int, b: int|
                0 <= a < b < out@.len() implies Heartbeat::key_lt(
                #[trigger] out@[a],
                #[trigger] out@[b],
            ) by {
                assert(out@[a] == self.nodes@[picked[a]]);
                assert(out@[b] == self.nodes@[picked[b]]);
            }
        }
        AliveNodes { nodes: out }
    }
}

/// Inserting into the middle of a sequence adds exactly one element to its
/// multiset of entries.
proof fn lemma_multiset_of_insert(s: Seq<Heartbeat>, h: Heartbeat, i: int)
    requires
        0 <= i <= s.len(),
    ensures
        (s.take(i) + seq![h] + s.skip(i)).to_multiset() == s.to_multiset().insert(h),
{
    let a = s.take(i);
    let b = s.skip(i);
    vstd::seq_lib::lemma_multiset_commutative(a + seq![h], b);
    vstd::seq_lib::lemma_multiset_commutative(a, b);
    assert(a + b =~= s);
    assert(a + seq![h] =~= a.push(h));
    a.to_multiset_ensures();
    assert((a + seq![h] + b).to_multiset() =~= s.to_multiset().insert(h));
}

impl Heartbeat {
    /// Field-for-field copy.
    pub fn clone_heartbeat(&self) -> (r: Heartbeat)
        ensures
            r == *self,
    {
        Heartbeat {
            node_id: self.node_id,
            position: self.position,
            socket_address: match &self.socket_address {
                Some(s) => Some(clone_string(s)),
                None => None,
            },
            region: self.region,
        }
    }
}

/// Clones a string, keeping its view.
pub fn clone_string(s: &String) -> (r: String)
    ensures
        r == *s,
{
    s.clone()
}

} // verus!

verus! {

/// A raw heartbeat row as read back from the store, before validation.
pub struct HeartbeatRow {
    pub process_id: u128,
    pub position: i32,
    pub timestamp_ms: u64,
    pub socket_address: Option<String>,
    pub region: String,
}

/// A row is usable when its position is non-negative and its region
/// identifier is known.
pub open spec fn row_valid(row: HeartbeatRow) -> bool {
    row.position >= 0 && Region::spec_from_identifier(row.region@) is Some
}

/// The heartbeat a valid row denotes.
pub open spec fn row_heartbeat(row: HeartbeatRow) -> Heartbeat
    recommends
        row_valid(row),
{
    Heartbeat {
        node_id: row.process_id,
        position: row.position as NodePosition,
        socket_address: row.socket_address,
        region: Region::spec_from_identifier(row.region@)->Some_0,
    }
}

/// Error for rows with a negative position or an unknown region; such rows
/// are logged and skipped, the surrounding fetch proceeds.
#[derive(Debug, Clone, Copy, PartialEq, Eq, Structural)]
pub struct MalformedRow;

/// Validates one stored heartbeat row.
pub fn parse_heartbeat_row(row: HeartbeatRow) -> (r: Result<Heartbeat, MalformedRow>)
    ensures
        row_valid(row) <==> r is Ok,
        row_valid(row) ==> r == Result::<Heartbeat, MalformedRow>::Ok(row_heartbeat(row)),
{
    if row.position < 0 {
        return Err(MalformedRow);
    }
    let region = match Region::from_identifier(row.region.as_str()) {
        Ok(region) => region,
        Err(_) => {
            return Err(MalformedRow);
        },
    };
    Ok(Heartbeat {
        node_id: row.process_id,
        position: row.position as NodePosition,
        socket_address: row.socket_address,
        region,
    })
}

/// The folding of raw rows into the freshest entry per process: rows are
/// scanned in order, invalid ones are skipped, and a later row replaces an
/// earlier one for the same process only when its timestamp is strictly
/// greater.
pub open spec fn collapse_map(rows: Seq<HeartbeatRow>) -> Map<u128, (u64, Heartbeat)>
    decreases rows.len(),
{
    if rows.len() == 0 {
        Map::empty()
    } else {
        let m = collapse_map(rows.drop_last());
        let row = rows.last();
        if !row_valid(row) {
            m
        } else if m.dom().contains(row.process_id) && row.timestamp_ms <= m[row.process_id].0 {
            m
        } else {
            m.insert(row.process_id, (row.timestamp_ms, row_heartbeat(row)))
        }
    }
}

/// Collapses the raw heartbeat rows of a freshness window into the set of
/// alive nodes: one entry per process, carrying its latest row, ordered by
/// `(position, node_id)`.
pub fn collapse_alive_rows(rows: Vec<HeartbeatRow>) -> (r: AliveNodes)
    ensures
        r.wf(),
        forall|h: Heartbeat|
            r.contains_hb(h) <==> exists|pid: u128|
                #![auto]
                collapse_map(rows@).dom().contains(pid) && collapse_map(rows@)[pid].1 == h,
{
    let n = rows.len();
    let mut acc: Vec<(u128, u64, Heartbeat)> = Vec::new();
    let ghost all_rows = rows@;
    let mut rows = rows;
    let mut i: usize = 0;
    while i < n
        invariant
            n == all_rows.len(),
            rows@ =~= all_rows.skip(i as int),
            i <= n,
            forall|a: int, b: int|
                0 <= a < b < acc@.len() ==> (#[trigger] acc@[a]).0 != (#[trigger] acc@[b]).0,
            forall|k: int|
                0 <= k < acc@.len() ==> {
                    let m = collapse_map(all_rows.take(i as int));
                    &&& m.dom().contains((#[trigger] acc@[k]).0)
                    &&& m[acc@[k].0] == (acc@[k].1, acc@[k].2)
                },
            forall|pid: u128|
                collapse_map(all_rows.take(i as int)).dom().contains(pid) ==> exists|k: int|
                    0 <= k < acc@.len() && (#[trigger] acc@[k]).0 == pid,
            forall|k: int| 0 <= k < acc@.len() ==> (#[trigger] acc@[k]).2.node_id == acc@[k].0,
        decreases n - i,
    {
        proof {
            assert(all_rows.take(i + 1).drop_last() =~= all_rows.take(i as int));
            assert(all_rows.take(i + 1).last() == all_rows[i as int]);
        }
        let row = rows.remove(0);
        proof {
            assert(row == all_rows[i as int]);
            assert(rows@ =~= all_rows.skip(i + 1));
        }
        let row_ts = row.timestamp_ms;
        let ghost row_g = all_rows[i as int];
        let ghost prev = collapse_map(all_rows.take(i as int));
        let ghost nxt = collapse_map(all_rows.take(i + 1));
        match parse_heartbeat_row(row) {
            Err(_) => {
                proof {
                    assert(!row_valid(row_g));
                    assert(nxt == prev);
                }
            },
            Ok(hb) => {
                proof {
                    assert(row_valid(row_g));
                    assert(hb == row_heartbeat(row_g));
                }
                let pid = hb.node_id;
                let mut found: Option<usize> = None;
                let mut k: usize = 0;
                let acc_len = acc.len();
                while k < acc_len
                    invariant
                        acc_len == acc@.len(),
                        k <= acc_len,
                        found matches Some(j) ==> j < acc_len && acc@[j as int].0 == pid,
                        found is None ==> forall|t: int|
                            0 <= t < k ==> (#[trigger] acc@[t]).0 != pid,
                    decreases acc_len - k,
                {
                    if found.is_none() && acc[k].0 == pid {
                        found = Some(k);
                    }
                    k += 1;
                }
                match found {
                    None => {
                        proof {
                            // No entry for this process yet, so the fold
                            // inserts its first row.
                            assert(!prev.dom().contains(pid)) by {
                                if prev.dom().contains(pid) {
                                    let k0 = choose|k0: int|
                                        0 <= k0 < acc@.len() && (#[trigger] acc@[k0]).0 == pid;
                                    assert(acc@[k0].0 != pid);
                                }
                            }
                            assert(nxt == prev.insert(pid, (row_g.timestamp_ms, row_heartbeat(row_g))));
                        }
                        let ghost acc_pre = acc@;
                        acc.push((pid, row_ts, hb));
                        proof {
                            assert forall|pid2: u128| nxt.dom().contains(pid2) implies exists|k2: int|
                                0 <= k2 < acc@.len() && (#[trigger] acc@[k2]).0 == pid2 by {
                                if pid2 == pid {
                                    assert(acc@[acc_pre.len() as int].0 == pid2);
                                } else {
                                    assert(prev.dom().contains(pid2));
                                    let k2 = choose|k2: int|
                                        0 <= k2 < acc_pre.len() && (#[trigger] acc_pre[k2]).0 == pid2;
                                    assert(acc@[k2].0 == pid2);
                                }
                            }
                        }
                    },
                    Some(j) => {
                        proof {
                            assert(prev.dom().contains(pid) && prev[pid] == (acc@[j as int].1, acc@[j as int].2));
                        }
                        if acc[j].1 < row_ts {
                            proof {
                                assert(nxt == prev.insert(pid, (row_g.timestamp_ms, row_heartbeat(row_g))));
                            }
                            let ghost acc_pre = acc@;
                            acc[j] = (pid, row_ts, hb);
                            proof {
                                assert forall|pid2: u128| nxt.dom().contains(pid2) implies exists|k2: int|
                                    0 <= k2 < acc@.len() && (#[trigger] acc@[k2]).0 == pid2 by {
                                    if pid2 == pid {
                                        assert(acc@[j as int].0 == pid2);
                                    } else {
                                        assert(prev.dom().contains(pid2));
                                        let k2 = choose|k2: int|
                                            0 <= k2 < acc_pre.len() && (#[trigger] acc_pre[k2]).0 == pid2;
                                        assert(acc@[k2].0 == pid2);
                                    }
                                }
                            }
                        } else {
                            proof {
                                // A row no newer than the kept one is ignored
                                // by the fold as well.
                                assert(nxt == prev);
                            }
                        }
                    },
                }
            },
        }
        i += 1;
    }
    proof {
        assert(all_rows.take(n as int) =~= all_rows);
    }
    let ghost cm = collapse_map(all_rows);

    let mut alive = AliveNodes::new();
    let acc_len = acc.len();
    let mut j: usize = 0;
    while j < acc_len
        invariant
            acc_len == acc@.len(),
            j <= acc_len,
            alive.wf(),
            forall|a: int, b: int|
                0 <= a < b < acc@.len() ==> (#[trigger] acc@[a]).0 != (#[trigger] acc@[b]).0,
            forall|k: int|
                0 <= k < acc@.len() ==> {
                    &&& cm.dom().contains((#[trigger] acc@[k]).0)
                    &&& cm[acc@[k].0] == (acc@[k].1, acc@[k].2)
                },
            forall|pid: u128|
                cm.dom().contains(pid) ==> exists|k: int|
                    0 <= k < acc@.len() && (#[trigger] acc@[k]).0 == pid,
            forall|k: int| 0 <= k < acc@.len() ==> (#[trigger] acc@[k]).2.node_id == acc@[k].0,
            forall|h: Heartbeat|
                alive.contains_hb(h) <==> exists|k: int|
                    0 <= k < j && (#[trigger] acc@[k]).2 == h,
        decreases acc_len - j,
    {
        let hb = acc[j].2.clone_heartbeat();
        let ghost pre_alive = alive@;
        proof {
            broadcast use vstd::multiset::group_multiset_axioms;

            assert forall|h: Heartbeat|
                pre_alive.contains(h) <==> exists|k: int|
                    0 <= k < j && (#[trigger] acc@[k]).2 == h by {
                assert(pre_alive.contains(h) == alive.contains_hb(h));
            }
            // Distinct processes mean distinct `(position, node_id)` keys,
            // so the sorted insert never hits an existing key.
            assert forall|t: int|
                0 <= t < pre_alive.len() implies !Heartbeat::key_eq(#[trigger] pre_alive[t], acc@[j as int].2) by {
                if Heartbeat::key_eq(pre_alive[t], acc@[j as int].2) {
                    assert(pre_alive.contains(pre_alive[t]));
                    let k0 = choose|k0: int|
                        0 <= k0 < j && (#[trigger] acc@[k0]).2 == pre_alive[t];
                    assert(acc@[k0].0 == acc@[j as int].0);
                }
            }
            pre_alive.to_multiset_ensures();
        }
        alive.insert(hb);
        proof {
            broadcast use vstd::multiset::group_multiset_axioms;

            pre_alive.to_multiset_ensures();
            alive@.to_multiset_ensures();
            assert(alive@.to_multiset() == pre_alive.to_multiset().insert(acc@[j as int].2));
            assert forall|h: Heartbeat|
                alive.contains_hb(h) <==> exists|k: int|
                    0 <= k < j + 1 && (#[trigger] acc@[k]).2 == h by {
                if h == acc@[j as int].2 {
                    assert(alive@.to_multiset().count(h) == pre_alive.to_multiset().count(h) + 1);
                    assert(alive@.contains(h));
                    assert(0 <= j < j + 1 && acc@[j as int].2 == h);
                } else {
                    assert(alive@.to_multiset().count(h) == pre_alive.to_multiset().count(h));
                    assert(alive@.contains(h) <==> pre_alive.contains(h));
                    assert((exists|k: int| 0 <= k < j + 1 && (#[trigger] acc@[k]).2 == h) <==> (
                    exists|k: int| 0 <= k < j && (#[trigger] acc@[k]).2 == h));
                }
            }
        }
        j += 1;
    }
    proof {
        assert forall|h: Heartbeat|
            alive.contains_hb(h) <==> exists|pid: u128|
                #![auto]
                cm.dom().contains(pid) && cm[pid].1 == h by {
            if alive.contains_hb(h) {
                let k = choose|k: int| 0 <= k < acc@.len() && (#[trigger] acc@[k]).2 == h;
                assert(cm.dom().contains(acc@[k].0) && cm[acc@[k].0].1 == h);
            }
            if exists|pid: u128| #![auto] cm.dom().contains(pid) && cm[pid].1 == h {
                let pid = choose|pid: u128| #![auto] cm.dom().contains(pid) && cm[pid].1 == h;
                let k = choose|k: int| 0 <= k < acc@.len() && (#[trigger] acc@[k]).0 == pid;
                assert(acc@[k].2 == h);
            }
        }
    }
    alive
}

/// The store partition a timestamp falls into: its UTC minute number.
pub fn get_time_bucket_minutes(timestamp_ms: u64) -> (r: u64)
    ensures
        r == timestamp_ms as int / 60000,
{
    timestamp_ms / 60000
}

/// The minute buckets that cover the freshness window `[now - within, now]`,
/// in ascending order: reading them bounds the scan over heartbeat rows.
pub fn heartbeat_window_buckets(now_ms: u64, within_ms: u64) -> (r: Vec<u64>)
    requires
        within_ms <= now_ms,
    ensures
        r@.len() == now_ms as int / 60000 - (now_ms - within_ms) as int / 60000 + 1,
        forall|k: int|
            0 <= k < r@.len() ==> #[trigger] r@[k] == (now_ms - within_ms) as int / 60000 + k,
{
    let first = get_time_bucket_minutes(now_ms - within_ms);
    let last = get_time_bucket_minutes(now_ms);
    proof {
        vstd::arithmetic::div_mod::lemma_div_is_ordered((now_ms - within_ms) as int, now_ms as int, 60000);
    }
    let mut v: Vec<u64> = Vec::new();
    let mut b = first;
    while b < last
        invariant
            first <= b <= last,
            v@.len() == b - first,
            forall|k: int| 0 <= k < v@.len() ==> #[trigger] v@[k] == first + k,
        decreases last - b,
    {
        v.push(b);
        b += 1;
    }
    v.push(b);
    v
}

/// Whether the cached all-regions snapshot is still fresh: it was fetched
/// less than one heartbeat interval ago.
pub fn alive_cache_fresh(last_fetched_ms: u64, now_ms: u64, interval_ms: u64) -> (r: bool)
    requires
        last_fetched_ms <= now_ms,
    ensures
        r == (now_ms - last_fetched_ms < interval_ms),
{
    now_ms - last_fetched_ms < interval_ms
}

/// The oldest timestamp still considered alive: twice the heartbeat
/// interval before `now`, clamped at the epoch.
pub fn freshness_cutoff(now_ms: u64, interval_ms: u64) -> (r: u64)
    ensures
        r == if 2 * interval_ms <= now_ms {
            now_ms - 2 * interval_ms
        } else {
            0
        },
{
    match interval_ms.checked_mul(2) {
        Some(w) => if w <= now_ms {
            now_ms - w
        } else {
            0
        },
        None => 0,
    }
}

} // verus!
