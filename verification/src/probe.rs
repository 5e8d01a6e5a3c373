//! Probe execution decisions: the SSRF address guard, network-discovery
//! address selection, and the classification of probe outcomes.

use vstd::prelude::*;

use crate::scheduler::ServiceCheck;

verus! {

/// An IP address, as the guard logic reads it.
#[derive(Debug, Clone, Copy)]
pub enum IpAddress {
    V4 { octets: [u8; 4] },
    V6 { segments: [u16; 8] },
}

/// A version-4 address in one of the RFC1918 private blocks.
pub open spec fn v4_private(o: Seq<u8>) -> bool {
    ||| o[0] == 10
    ||| (o[0] == 172 && 16 <= o[1] < 32)
    ||| (o[0] == 192 && o[1] == 168)
}

pub open spec fn v4_loopback(o: Seq<u8>) -> bool {
    o[0] == 127
}

pub open spec fn v4_link_local(o: Seq<u8>) -> bool {
    o[0] == 169 && o[1] == 254
}

pub open spec fn v4_broadcast(o: Seq<u8>) -> bool {
    o[0] == 255 && o[1] == 255 && o[2] == 255 && o[3] == 255
}

pub open spec fn v4_documentation(o: Seq<u8>) -> bool {
    ||| (o[0] == 192 && o[1] == 0 && o[2] == 2)
    ||| (o[0] == 198 && o[1] == 51 && o[2] == 100)
    ||| (o[0] == 203 && o[1] == 0 && o[2] == 113)
}

pub open spec fn v4_unspecified(o: Seq<u8>) -> bool {
    o[0] == 0 && o[1] == 0 && o[2] == 0 && o[3] == 0
}

pub open spec fn v6_loopback(s: Seq<u16>) -> bool {
    s[0] == 0 && s[1] == 0 && s[2] == 0 && s[3] == 0 && s[4] == 0 && s[5] == 0 && s[6] == 0 && s[7]
        == 1
}

pub open spec fn v6_unspecified(s: Seq<u16>) -> bool {
    s[0] == 0 && s[1] == 0 && s[2] == 0 && s[3] == 0 && s[4] == 0 && s[5] == 0 && s[6] == 0 && s[7]
        == 0
}

/// The `fc00::/7` unique-local block.
pub open spec fn v6_unique_local(s: Seq<u16>) -> bool {
    0xfc00 <= s[0] < 0xfe00
}

/// The `fe80::/10` unicast link-local block.
pub open spec fn v6_unicast_link_local(s: Seq<u16>) -> bool {
    0xfe80 <= s[0] < 0xfec0
}

/// Whether a probe may be sent to this address: in development every
/// address is acceptable; otherwise loopback, private, link-local,
/// broadcast, documentation and unspecified targets are all refused, so
/// a probe can never reach the fleet's own network.
pub open spec fn spec_is_safe_ip(ip: IpAddress, accept_local: bool) -> bool {
    accept_local || match ip {
        IpAddress::V4 { octets } => {
            let o = octets@;
            !v4_private(o) && !v4_loopback(o) && !v4_link_local(o) && !v4_broadcast(o)
                && !v4_documentation(o) && !v4_unspecified(o)
        },
        IpAddress::V6 { segments } => {
            let s = segments@;
            !v6_loopback(s) && !v6_unspecified(s) && !v6_unique_local(s) && !v6_unicast_link_local(
                s,
            )
        },
    }
}

/// The SSRF guard: see [`spec_is_safe_ip`].
pub fn is_safe_ip(ip: &IpAddress, accept_local: bool) -> (r: bool)
    ensures
        r == spec_is_safe_ip(*ip, accept_local),
{
    if accept_local {
        return true;
    }
    match ip {
        IpAddress::V4 { octets } => {
            let a = octets[0];
            let b = octets[1];
            let c = octets[2];
            let d = octets[3];
            let private = a == 10 || (a == 172 && 16 <= b && b < 32) || (a == 192 && b == 168);
            let loopback = a == 127;
            let link_local = a == 169 && b == 254;
            let broadcast = a == 255 && b == 255 && c == 255 && d == 255;
            let documentation = (a == 192 && b == 0 && c == 2) || (a == 198 && b == 51 && c == 100)
                || (a == 203 && b == 0 && c == 113);
            let unspecified = a == 0 && b == 0 && c == 0 && d == 0;
            !private && !loopback && !link_local && !broadcast && !documentation && !unspecified
        },
        IpAddress::V6 { segments } => {
            let s0 = segments[0];
            let zeros = segments[0] == 0 && segments[1] == 0 && segments[2] == 0 && segments[3]
                == 0 && segments[4] == 0 && segments[5] == 0 && segments[6] == 0;
            let loopback = zeros && segments[7] == 1;
            let unspecified = zeros && segments[7] == 0;
            let unique_local = 0xfc00 <= s0 && s0 < 0xfe00;
            let link_local = 0xfe80 <= s0 && s0 < 0xfec0;
            !loopback && !unspecified && !unique_local && !link_local
        },
    }
}

/// The first resolved address a probe may use, if any: the guard applied
/// in resolution order.
pub fn select_safe_address(addrs: &Vec<IpAddress>, accept_local: bool) -> (r: Option<usize>)
    ensures
        r matches Some(i) ==> i < addrs@.len() && spec_is_safe_ip(addrs@[i as int], accept_local)
            && forall|k: int| 0 <= k < i ==> !spec_is_safe_ip(#[trigger] addrs@[k], accept_local),
        r is None ==> forall|k: int|
            0 <= k < addrs@.len() ==> !spec_is_safe_ip(#[trigger] addrs@[k], accept_local),
{
    let n = addrs.len();
    let mut i: usize = 0;
    while i < n
        invariant
            n == addrs@.len(),
            i <= n,
            forall|k: int| 0 <= k < i ==> !spec_is_safe_ip(#[trigger] addrs@[k], accept_local),
        decreases n - i,
    {
        if is_safe_ip(&addrs[i], accept_local) {
            return Some(i);
        }
        i += 1;
    }
    None
}

/// Whether an interface address may be advertised for internode HTTP:
/// IPv6 unique-local, or IPv4 private.
pub open spec fn spec_is_acceptable_address(ip: IpAddress) -> bool {
    match ip {
        IpAddress::V4 { octets } => v4_private(octets@),
        IpAddress::V6 { segments } => v6_unique_local(segments@),
    }
}

/// Checks if an IP address is acceptable for network discovery.
pub fn is_acceptable_address(ip: &IpAddress) -> (r: bool)
    ensures
        r == spec_is_acceptable_address(*ip),
{
    match ip {
        IpAddress::V4 { octets } => {
            let a = octets[0];
            let b = octets[1];
            a == 10 || (a == 172 && 16 <= b && b < 32) || (a == 192 && b == 168)
        },
        IpAddress::V6 { segments } => {
            let s0 = segments[0];
            0xfc00 <= s0 && s0 < 0xfe00
        },
    }
}

/// The first acceptable address of a list of interface addresses, if
/// any (callers order the list with IPv6 first, so unique-local
/// addresses win over IPv4 private ones).
pub fn first_acceptable_address(addrs: &Vec<IpAddress>) -> (r: Option<usize>)
    ensures
        r matches Some(i) ==> i < addrs@.len() && spec_is_acceptable_address(addrs@[i as int])
            && forall|k: int| 0 <= k < i ==> !spec_is_acceptable_address(#[trigger] addrs@[k]),
        r is None ==> forall|k: int|
            0 <= k < addrs@.len() ==> !spec_is_acceptable_address(#[trigger] addrs@[k]),
{
    let n = addrs.len();
    let mut i: usize = 0;
    while i < n
        invariant
            n == addrs@.len(),
            i <= n,
            forall|k: int| 0 <= k < i ==> !spec_is_acceptable_address(#[trigger] addrs@[k]),
        decreases n - i,
    {
        if is_acceptable_address(&addrs[i]) {
            return Some(i);
        }
        i += 1;
    }
    None
}

/// One finished probe, ready for the ingest queue.
#[derive(Debug)]
pub struct CheckResult {
    pub result_id: u128,
    pub service_check_id: u128,
    pub check_started_at_ms: u64,
    pub response_time_micros: i64,
    pub status_code: Option<i32>,
    pub matches_expected: bool,
    pub response_body_fetched: bool,
    pub response_body: Option<String>,
}

/// How a dispatched probe ended, after the transport layer classified
/// its errors.
#[derive(Debug, Clone, Copy, PartialEq, Eq, Structural)]
pub enum ProbeOutcome {
    /// The target answered with a status code.
    Responded { status_code: u16 },
    /// The target is down or unhealthy: a timeout, a refused connection,
    /// or a malformed reply.
    TargetDown,
    /// The prober itself misbehaved (request construction, certificate
    /// trouble); no result row may be written for it.
    LocalFault,
}

/// Error for a probe whose failure was the prober's own: it propagates
/// up instead of polluting the uptime record.
#[derive(Debug, Clone, Copy, PartialEq, Eq, Structural)]
pub struct ProbeImplementationFault;

/// Builds the result row of a finished probe.
///
/// A response matches when its status code equals the expected one; a
/// down target records no status and never matches; a local fault
/// produces no row at all.
pub fn build_check_result(
    check: &ServiceCheck,
    result_id: u128,
    check_started_at_ms: u64,
    response_time_micros: i64,
    outcome: ProbeOutcome,
) -> (r: Result<CheckResult, ProbeImplementationFault>)
    ensures
        (r is Ok) <==> !(outcome is LocalFault),
        r matches Ok(cr) ==> {
            &&& cr.result_id == result_id
            &&& cr.service_check_id == check.check_id
            &&& cr.check_started_at_ms == check_started_at_ms
            &&& cr.response_time_micros == response_time_micros
            &&& cr.status_code == match outcome {
                ProbeOutcome::Responded { status_code } => Some(status_code as i32),
                _ => None::<i32>,
            }
            &&& cr.matches_expected == (outcome matches ProbeOutcome::Responded { status_code }
                && status_code as i32 == check.expected_status_code)
            &&& !cr.response_body_fetched
            &&& cr.response_body is None
        },
{
    match outcome {
        ProbeOutcome::LocalFault => Err(ProbeImplementationFault),
        ProbeOutcome::Responded { status_code } => {
            let code = status_code as i32;
            Ok(
                CheckResult {
                    result_id,
                    service_check_id: check.check_id,
                    check_started_at_ms,
                    response_time_micros,
                    status_code: Some(code),
                    matches_expected: code == check.expected_status_code,
                    response_body_fetched: false,
                    response_body: None,
                },
            )
        },
        ProbeOutcome::TargetDown => Ok(
            CheckResult {
                result_id,
                service_check_id: check.check_id,
                check_started_at_ms,
                response_time_micros,
                status_code: None,
                matches_expected: false,
                response_body_fetched: false,
                response_body: None,
            },
        ),
    }
}

/// Relies on uuid's `new_v4`: a fresh random identifier, with nothing
/// promised of its value.
#[verifier::external_body]
pub fn fresh_result_id() -> u128 {
    uuid::Uuid::new_v4().as_u128()
}

} // verus!
