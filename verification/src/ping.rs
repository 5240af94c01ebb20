use vstd::prelude::*;
use vstd::string::StringSliceAdditionalSpecFns;
use crate::addr::lemma_spec_quad_none;
use crate::addr::lemma_spec_quad_of;
use crate::addr::parse_ipv4;
use crate::addr::parse_ipv6;
use crate::addr::spec_ipv6_groups;
use crate::addr::spec_quad;
use crate::series::Sample;

verus! {

/// Why a single probe failed; a failed probe is recorded once with the
/// sentinel value and the schedule proceeds.
#[derive(Clone, Debug, PartialEq, Eq)]
pub enum ProbeError {
    /// The reply did not arrive within the probe timeout.
    Timeout,
    /// The target reported itself or was reported unreachable.
    Unreachable,
    /// Any other failure, with a short description.
    Other(String),
}

/// The outcome of one probe: the measured round-trip time in
/// milliseconds, or the failure reason.
pub type ProbeOutcome = Result<u32, ProbeError>;

/// The value a probe outcome contributes to the chart and the rolling
/// average: the measured round-trip time, or the 0 sentinel on failure.
pub open spec fn spec_outcome_value(o: ProbeOutcome) -> u32 {
    match o {
        Result::Ok(v) => v,
        Result::Err(_) => 0u32,
    }
}

pub fn outcome_value(o: &ProbeOutcome) -> (v: u32)
    ensures
        v == spec_outcome_value(*o),
{
    match o {
        Result::Ok(v) => *v,
        Result::Err(_) => 0,
    }
}

/// The probed host, in either address family, held as plain values:
/// the four octets of an IPv4 address, or the eight 16-bit groups of
/// an IPv6 address.
#[derive(Clone, Copy, Debug, PartialEq, Eq)]
pub enum Target {
    V4([u8; 4]),
    V6([u16; 8]),
}

/// Probe configuration and the running position counter, all held as
/// plain values; the network call itself is issued outside the library
/// and its outcome handed back through `record`.
pub struct Ping {
    /// The next position to assign on the chart's x axis.
    pub x: u64,
    /// The fixed target host.
    pub addr: Target,
    /// The payload sent with each echo request.
    pub data: [u8; 4],
    /// Probe timeout in milliseconds; must stay below the tick interval.
    pub timeout_ms: u64,
    /// Time-to-live of the echo request.
    pub ttl: u8,
    /// Whether the echo request forbids fragmentation.
    pub dont_fragment: bool,
}

impl Ping {
    /// The default probe configuration, aimed at the given target: a
    /// four-byte payload, a timeout strictly below the tick interval so
    /// a slow probe cannot starve the schedule, a TTL of 128 and
    /// fragmentation forbidden.
    pub fn for_target(addr: Target) -> (p: Ping)
        ensures
            p.x == 0,
            p.addr == addr,
            p.data@ =~= seq![1u8, 2u8, 3u8, 4u8],
            p.timeout_ms == 500,
            p.timeout_ms < crate::app::TICK_INTERVAL_MS,
            p.ttl == 128,
            p.dont_fragment == true,
    {
        Ping { x: 0, addr, data: [1, 2, 3, 4], timeout_ms: 500, ttl: 128, dont_fragment: true }
    }

    /// The probe configuration aimed at the host the text names, when
    /// it spells an address of either family — a dotted quad, or an
    /// IPv6 address text — and nothing otherwise: an unparsable target
    /// is rejected once, at construction.
    pub fn to_host(addr: &str) -> (r: Option<Ping>)
        ensures
            match r {
                Option::Some(p) => {
                    &&& match p.addr {
                        Target::V4(o) => spec_quad(addr.spec_bytes()) == Option::Some(
                            (o@[0], o@[1], o@[2], o@[3]),
                        ),
                        Target::V6(g) => spec_quad(addr.spec_bytes()) is None && spec_ipv6_groups(
                            addr.spec_bytes(),
                        ) == Option::Some(g@),
                    }
                    &&& p.x == 0
                    &&& p.data@ =~= seq![1u8, 2u8, 3u8, 4u8]
                    &&& p.timeout_ms == 500
                    &&& p.ttl == 128
                    &&& p.dont_fragment == true
                },
                Option::None => spec_quad(addr.spec_bytes()) is None && spec_ipv6_groups(
                    addr.spec_bytes(),
                ) is None,
            },
    {
        let bytes = vstd::slice::slice_to_vec(addr.as_bytes());
        match parse_ipv4(&bytes) {
            Option::Some((a, b, c, d)) => {
                proof {
                    lemma_spec_quad_of(bytes@, a, b, c, d);
                }
                Option::Some(Ping::for_target(Target::V4([a, b, c, d])))
            },
            Option::None => {
                proof {
                    lemma_spec_quad_none(bytes@);
                }
                match parse_ipv6(&bytes) {
                    Option::Some(g) => Option::Some(Ping::for_target(Target::V6(g))),
                    Option::None => Option::None,
                }
            },
        }
    }

    /// Turn one probe outcome into the next plotted sample, advancing
    /// the position counter by one step; a failed probe does not skip a
    /// position.
    pub fn record(&mut self, outcome: &ProbeOutcome, step: u64) -> (s: Sample)
        requires
            old(self).x + step <= u64::MAX,
        ensures
            final(self).x == old(self).x + step,
            final(self).addr == old(self).addr,
            final(self).data == old(self).data,
            final(self).timeout_ms == old(self).timeout_ms,
            final(self).ttl == old(self).ttl,
            final(self).dont_fragment == old(self).dont_fragment,
            s.pos == old(self).x,
            s.value == spec_outcome_value(*outcome),
    {
        let s = Sample { pos: self.x, value: outcome_value(outcome) };
        self.x = self.x + step;
        s
    }
}

} // verus!
