//! Best-effort internode messaging: which peer receives which mutation
//! notice, and the authorization of the inbound endpoint.

use vstd::prelude::*;
use vstd::string::StringExecFns;

use crate::membership::{AliveNodes, Heartbeat};
use crate::placement::spec_node_range;
use crate::ring::NodePosition;
use crate::text::str_eq;

verus! {

/// A message one worker sends another.
#[derive(Debug, Clone, Copy, PartialEq, Eq, Structural)]
pub enum InterNodeMessage {
    ServiceCheckMutation { check_id: u128 },
    ShuttingDown { process_id: u128 },
}

/// A message to broadcast, optionally restricted to the peers whose range
/// owns a bucket.
#[derive(Debug, Clone, Copy, PartialEq, Eq, Structural)]
pub struct MessageWithFilters {
    pub message: InterNodeMessage,
    pub filter_bucket: Option<NodePosition>,
}

/// The members of one region, in ring order.
pub open spec fn region_members(all: Seq<Heartbeat>, region: crate::regions::Region) -> Seq<
    Heartbeat,
> {
    all.filter(|h: Heartbeat| h.region == region)
}

/// Whether a message applies to a peer: unconditionally without a filter,
/// else exactly when the peer's current range, computed from the same
/// membership snapshot within the peer's region, contains the bucket.
pub open spec fn delivered_to(
    all: Seq<Heartbeat>,
    node: Heartbeat,
    m: MessageWithFilters,
    replication_factor: u32,
) -> bool {
    match m.filter_bucket {
        None => true,
        Some(bucket) => match spec_node_range(
            region_members(all, node.region),
            node.node_id,
            replication_factor,
        ) {
            Some(range) => range.spec_contains(bucket),
            None => false,
        },
    }
}

/// The messages one peer is to receive, in order.
pub open spec fn peer_messages(
    all: Seq<Heartbeat>,
    node: Heartbeat,
    msgs: Seq<MessageWithFilters>,
    replication_factor: u32,
) -> Seq<InterNodeMessage> {
    msgs.filter(|m: MessageWithFilters| delivered_to(all, node, m, replication_factor)).map_values(
        |m: MessageWithFilters| m.message,
    )
}

/// The broadcast plan: every alive peer that advertises an address and
/// has at least one applicable message, with its message list, in
/// membership order. Peers without an address are skipped, and a peer
/// whose list is empty is not contacted at all.
pub open spec fn broadcast_plan(
    all: Seq<Heartbeat>,
    msgs: Seq<MessageWithFilters>,
    replication_factor: u32,
) -> Seq<(String, Seq<InterNodeMessage>)> {
    all.filter(
        |h: Heartbeat| h.socket_address is Some && peer_messages(all, h, msgs, replication_factor).len()
            > 0,
    ).map_values(
        |h: Heartbeat| (h.socket_address->Some_0, peer_messages(all, h, msgs, replication_factor)),
    )
}

/// Computes, for each alive peer, the messages it should receive; the
/// outbound HTTP calls are made from this plan.
pub fn plan_broadcast(
    alive_nodes: &AliveNodes,
    messages: &Vec<MessageWithFilters>,
    replication_factor: u32,
) -> (r: Vec<(String, Vec<InterNodeMessage>)>)
    requires
        alive_nodes.wf(),
    ensures
        r@.map_values(|p: (String, Vec<InterNodeMessage>)| (p.0, p.1@)) == broadcast_plan(
            alive_nodes@,
            messages@,
            replication_factor,
        ),
{
    let ghost all = alive_nodes@;
    let ghost node_pred = |h: Heartbeat| h.socket_address is Some && peer_messages(
        all,
        h,
        messages@,
        replication_factor,
    ).len() > 0;
    let ghost mk = |h: Heartbeat| (
        h.socket_address->Some_0,
        peer_messages(all, h, messages@, replication_factor),
    );
    let ghost pview = |p: (String, Vec<InterNodeMessage>)| (p.0, p.1@);

    let mut out: Vec<(String, Vec<InterNodeMessage>)> = Vec::new();
    let n = alive_nodes.len();
    let n_msgs = messages.len();
    let mut i: usize = 0;
    while i < n
        invariant
            n == all.len(),
            n_msgs == messages@.len(),
            i <= n,
            alive_nodes.wf(),
            all == alive_nodes@,
            node_pred == (|h: Heartbeat| h.socket_address is Some && peer_messages(
                all,
                h,
                messages@,
                replication_factor,
            ).len() > 0),
            mk == (|h: Heartbeat| (
                h.socket_address->Some_0,
                peer_messages(all, h, messages@, replication_factor),
            )),
            pview == (|p: (String, Vec<InterNodeMessage>)| (p.0, p.1@)),
            out@.map_values(pview) == all.take(i as int).filter(node_pred).map_values(mk),
        decreases n - i,
    {
        proof {
            reveal(Seq::filter);
            assert(all.take(i + 1).drop_last() =~= all.take(i as int));
            assert(all.take(i + 1).last() == all[i as int]);
        }
        let node = alive_nodes.get(i);
        let ghost node_g = all[i as int];
        let ghost out_pre = out@.map_values(pview);
        match &node.socket_address {
            None => {
                // A peer that advertises no address cannot be contacted;
                // it is skipped with a warning at the edge.
                proof {
                    assert(all.take(i + 1).filter(node_pred) =~= all.take(i as int).filter(
                        node_pred,
                    ));
                }
            },
            Some(addr) => {
                let region_nodes = alive_nodes.filter_region(node.region);
                let range = crate::placement::calculate_node_range(
                    node.node_id,
                    replication_factor,
                    &region_nodes,
                );
                proof {
                    assert(region_nodes@ == region_members(all, node_g.region));
                }

                // The messages that apply to this peer.
                let ghost msg_pred = |m: MessageWithFilters| delivered_to(
                    all,
                    node_g,
                    m,
                    replication_factor,
                );
                let mut filtered: Vec<InterNodeMessage> = Vec::new();
                let mut j: usize = 0;
                while j < n_msgs
                    invariant
                        n_msgs == messages@.len(),
                        j <= n_msgs,
                        msg_pred == (|m: MessageWithFilters| delivered_to(
                            all,
                            node_g,
                            m,
                            replication_factor,
                        )),
                        range == spec_node_range(
                            region_members(all, node_g.region),
                            node_g.node_id,
                            replication_factor,
                        ),
                        filtered@ == messages@.take(j as int).filter(msg_pred).map_values(
                            |m: MessageWithFilters| m.message,
                        ),
                    decreases n_msgs - j,
                {
                    proof {
                        reveal(Seq::filter);
                        assert(messages@.take(j + 1).drop_last() =~= messages@.take(j as int));
                        assert(messages@.take(j + 1).last() == messages@[j as int]);
                    }
                    let m = &messages[j];
                    let applies = match m.filter_bucket {
                        None => true,
                        Some(bucket) => match &range {
                            Some(rg) => rg.contains(bucket),
                            None => false,
                        },
                    };
                    if applies {
                        filtered.push(m.message);
                    }
                    j += 1;
                }
                proof {
                    assert(messages@.take(n_msgs as int) =~= messages@);
                    assert(filtered@ == peer_messages(all, node_g, messages@, replication_factor));
                }

                if filtered.len() > 0 {
                    out.push((crate::membership::clone_string(addr), filtered));
                    proof {
                        assert(out@.map_values(pview) =~= out_pre.push(mk(node_g)));
                        assert(all.take(i + 1).filter(node_pred).map_values(mk) =~= all.take(
                            i as int,
                        ).filter(node_pred).map_values(mk).push(mk(node_g)));
                    }
                } else {
                    proof {
                        assert(all.take(i + 1).filter(node_pred) =~= all.take(i as int).filter(
                            node_pred,
                        ));
                    }
                }
            },
        }
        i += 1;
    }
    proof {
        assert(all.take(n as int) =~= all);
    }
    out
}

/// Whether a message is a check mutation notice.
pub open spec fn is_mutation(m: InterNodeMessage) -> bool {
    m is ServiceCheckMutation
}

/// The check identifiers named by the mutation notices of an inbound
/// batch, in arrival order; shutdown notices are advisory and carry no
/// work.
pub fn collect_mutation_check_ids(messages: &Vec<InterNodeMessage>) -> (r: Vec<u128>)
    ensures
        r@ == messages@.filter(|m: InterNodeMessage| is_mutation(m)).map_values(
            |m: InterNodeMessage| m->ServiceCheckMutation_check_id,
        ),
{
    let ghost pred = |m: InterNodeMessage| is_mutation(m);
    let ghost extract = |m: InterNodeMessage| m->ServiceCheckMutation_check_id;
    let mut out: Vec<u128> = Vec::new();
    let n = messages.len();
    let mut i: usize = 0;
    while i < n
        invariant
            n == messages@.len(),
            i <= n,
            pred == (|m: InterNodeMessage| is_mutation(m)),
            extract == (|m: InterNodeMessage| m->ServiceCheckMutation_check_id),
            out@ == messages@.take(i as int).filter(pred).map_values(extract),
        decreases n - i,
    {
        proof {
            reveal(Seq::filter);
            assert(messages@.take(i + 1).drop_last() =~= messages@.take(i as int));
            assert(messages@.take(i + 1).last() == messages@[i as int]);
        }
        match &messages[i] {
            InterNodeMessage::ServiceCheckMutation { check_id } => {
                out.push(*check_id);
                proof {
                    assert(messages@.take(i + 1).filter(pred).map_values(extract) =~= messages@.take(
                        i as int,
                    ).filter(pred).map_values(extract).push(extract(messages@[i as int])));
                }
            },
            InterNodeMessage::ShuttingDown { .. } => {
                proof {
                    assert(messages@.take(i + 1).filter(pred) =~= messages@.take(i as int).filter(
                        pred,
                    ));
                }
            },
        }
        i += 1;
    }
    proof {
        assert(messages@.take(n as int) =~= messages@);
    }
    out
}

/// Decides whether an inbound internode call is authorized: its
/// authorization header must be exactly the bearer form of the shared
/// secret. A missing header is rejected.
pub fn authorize_bearer(header: Option<&str>, secret: &str) -> (r: bool)
    ensures
        r == match header {
            Some(h) => h@ == "Bearer "@ + secret@,
            None => false,
        },
{
    match header {
        None => false,
        Some(h) => {
            let mut expected = "Bearer ".to_owned();
            expected.append(secret);
            str_eq(h, expected.as_str())
        },
    }
}

} // verus!
