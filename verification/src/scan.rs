//! Scan orchestration: the per-address pipeline (liveness probe, then name
//! resolution, then port probing, strictly in that order) as an explicit
//! state machine, and the aggregation of per-address outcomes into a result
//! set aligned with the input address order.  The suspending operations
//! themselves are network I/O and happen outside the library; the library
//! decides every transition and owns every result.

use vstd::prelude::*;
use vstd::seq_lib::seq_to_set_is_finite;
use vstd::set_lib::{lemma_int_range, lemma_subset_equality, set_int_range};

use crate::ports::{collect_open_ports, open_subseq};
use crate::resolve::{display_name_spec, resolved_name};
use crate::Addr;

verus! {

/// Result of one address's pipeline, present only when the liveness probe
/// succeeded.  Created once, never mutated afterwards.
pub struct ProbeOutcome {
    /// The probed address.
    pub addr: Addr,
    /// Round-trip latency of the liveness probe, in nanoseconds.
    pub latency_ns: u128,
    /// Display name: the resolved name, or the textual address as fallback.
    pub name: String,
    /// The requested ports found open, in probing order; empty when port
    /// probing was disabled or no port was open.
    pub open_ports: Vec<u16>,
}

/// Immutable configuration shared by all pipelines of one run.
pub struct ScanConfig {
    /// Address of the resolution service used for reverse lookups.
    pub resolver: Addr,
    /// Ports probed on each live host; empty disables port probing.
    pub ports: Vec<u16>,
    /// Bound on one reverse lookup, in milliseconds.
    pub resolve_timeout_ms: u64,
    /// Bound on one port connection attempt, in milliseconds.
    pub port_timeout_ms: u64,
}

impl ScanConfig {
    /// Configuration with the standard bounds: reverse lookups limited to 3
    /// seconds and one attempt, port connection attempts to 800 milliseconds.
    pub fn new(resolver: Addr, ports: Vec<u16>) -> (r: ScanConfig)
        ensures
            r.resolver == resolver,
            r.ports == ports,
            r.resolve_timeout_ms == 3000,
            r.port_timeout_ms == 800,
    {
        ScanConfig { resolver, ports, resolve_timeout_ms: 3000, port_timeout_ms: 800 }
    }
}

/// Stage a single address's pipeline is in.  Stages are strictly
/// sequential: a later stage is reached only through the earlier ones.
pub enum PipelineState {
    /// Waiting for the liveness probe's outcome.
    AwaitingPing,
    /// The host answered; waiting for the reverse lookup's outcome.
    AwaitingResolve { latency_ns: u128 },
    /// The name is chosen; waiting for the port probes' outcomes.
    AwaitingPorts { latency_ns: u128, name: String },
    /// The pipeline has finished.
    Done { outcome: Option<ProbeOutcome> },
}

/// Outcome of the suspending operation a pipeline was waiting for.
pub enum PipelineEvent {
    /// The liveness probe finished: the measured latency if the host
    /// answered, nothing on any failure.
    Ping { latency_ns: Option<u128> },
    /// The reverse lookup finished: the first returned name, if any.
    Resolved { name: Option<String> },
    /// The port probes finished: one flag per requested port, in order,
    /// set when the connection fully succeeded.
    Ports { open: Vec<bool> },
}

/// What the pipeline's driver must do next.
pub enum PipelineAction {
    /// Issue the reverse lookup for the pipeline's address.
    Resolve,
    /// Attempt a connection to each of these ports of the pipeline's
    /// address, sequentially, in order.
    ProbePorts { ports: Vec<u16> },
    /// Nothing: the pipeline is done and holds its outcome.
    Finished,
}

/// One address's pipeline: the address, the ports to probe on it, and the
/// stage reached so far.
pub struct HostPipeline {
    /// The address this pipeline scans.
    pub addr: Addr,
    /// The ports probed when the host is live; empty disables port probing.
    pub ports: Vec<u16>,
    /// Stage reached so far.
    pub state: PipelineState,
}

/// A copy of a port list.
fn copied_ports(v: &Vec<u16>) -> (r: Vec<u16>)
    ensures
        r@ == v@,
{
    let mut r: Vec<u16> = Vec::new();
    let mut i: usize = 0;
    while i < v.len()
        invariant
            i <= v@.len(),
            r@ == v@.take(i as int),
        decreases v@.len() - i,
    {
        r.push(v[i]);
        i = i + 1;
        assert(r@ =~= v@.take(i as int));
    }
    assert(v@.take(v@.len() as int) =~= v@);
    r
}

impl HostPipeline {
    /// The event a pipeline in this state is waiting for.
    pub open spec fn awaits(self, event: PipelineEvent) -> bool {
        match (self.state, event) {
            (PipelineState::AwaitingPing, PipelineEvent::Ping { .. }) => true,
            (PipelineState::AwaitingResolve { .. }, PipelineEvent::Resolved { .. }) => true,
            (PipelineState::AwaitingPorts { .. }, PipelineEvent::Ports { open }) => open@.len()
                == self.ports@.len(),
            _ => false,
        }
    }

    /// Exactly how one transition changes the pipeline and what it demands
    /// of the driver.  A failed liveness probe finishes the pipeline with no
    /// outcome, without ever asking for resolution or port probes; a live
    /// host is resolved, then — only when ports were requested — probed.
    pub open spec fn step_spec(
        pre: HostPipeline,
        event: PipelineEvent,
        post: HostPipeline,
        action: PipelineAction,
    ) -> bool {
        &&& post.addr == pre.addr
        &&& post.ports == pre.ports
        &&& match (pre.state, event) {
            (PipelineState::AwaitingPing, PipelineEvent::Ping { latency_ns }) => match latency_ns {
                Option::Some(l) => post.state == (PipelineState::AwaitingResolve {
                    latency_ns: l,
                }) && action is Resolve,
                Option::None => post.state == (PipelineState::Done {
                    outcome: Option::<ProbeOutcome>::None,
                }) && action is Finished,
            },
            (PipelineState::AwaitingResolve { latency_ns }, PipelineEvent::Resolved { name }) => {
                let shown = display_name_spec(
                    match name {
                        Option::Some(n) => Option::Some(n@),
                        Option::None => Option::None,
                    },
                    pre.addr,
                );
                if pre.ports@.len() > 0 {
                    &&& post.state matches PipelineState::AwaitingPorts {
                        latency_ns: l2,
                        name: nm,
                    } && l2 == latency_ns && nm@ == shown
                    &&& action matches PipelineAction::ProbePorts { ports } && ports@ == pre.ports@
                } else {
                    &&& post.state matches PipelineState::Done { outcome: Option::Some(o) }
                        && o.addr == pre.addr && o.latency_ns == latency_ns && o.name@ == shown
                        && o.open_ports@ == Seq::<u16>::empty()
                    &&& action is Finished
                }
            },
            (PipelineState::AwaitingPorts { latency_ns, name }, PipelineEvent::Ports { open }) => {
                &&& post.state matches PipelineState::Done { outcome: Option::Some(o) } && o.addr
                    == pre.addr && o.latency_ns == latency_ns && o.name == name && o.open_ports@
                    == open_subseq(pre.ports@, open@)
                &&& action is Finished
            },
            _ => false,
        }
    }

    /// A fresh pipeline for `addr`, waiting for its liveness probe.
    pub fn new(addr: Addr, ports: Vec<u16>) -> (r: HostPipeline)
        ensures
            r.addr == addr,
            r.ports == ports,
            r.state is AwaitingPing,
    {
        HostPipeline { addr, ports, state: PipelineState::AwaitingPing }
    }

    /// Feeds the pipeline the outcome it was waiting for and moves it one
    /// stage forward.
    pub fn step(self, event: PipelineEvent) -> (r: (HostPipeline, PipelineAction))
        requires
            self.awaits(event),
        ensures
            HostPipeline::step_spec(self, event, r.0, r.1),
    {
        let HostPipeline { addr, ports, state } = self;
        match (state, event) {
            (PipelineState::AwaitingPing, PipelineEvent::Ping { latency_ns }) => match latency_ns {
                Option::Some(l) => (
                    HostPipeline {
                        addr,
                        ports,
                        state: PipelineState::AwaitingResolve { latency_ns: l },
                    },
                    PipelineAction::Resolve,
                ),
                Option::None => (
                    HostPipeline {
                        addr,
                        ports,
                        state: PipelineState::Done { outcome: Option::None },
                    },
                    PipelineAction::Finished,
                ),
            },
            (PipelineState::AwaitingResolve { latency_ns }, PipelineEvent::Resolved { name }) => {
                let shown = resolved_name(name, addr);
                if ports.len() > 0 {
                    let to_probe = copied_ports(&ports);
                    (
                        HostPipeline {
                            addr,
                            ports,
                            state: PipelineState::AwaitingPorts { latency_ns, name: shown },
                        },
                        PipelineAction::ProbePorts { ports: to_probe },
                    )
                } else {
                    (
                        HostPipeline {
                            addr,
                            ports,
                            state: PipelineState::Done {
                                outcome: Option::Some(
                                    ProbeOutcome {
                                        addr,
                                        latency_ns,
                                        name: shown,
                                        open_ports: Vec::new(),
                                    },
                                ),
                            },
                        },
                        PipelineAction::Finished,
                    )
                }
            },
            (PipelineState::AwaitingPorts { latency_ns, name }, PipelineEvent::Ports { open }) => {
                let open_ports = collect_open_ports(&ports, &open);
                (
                    HostPipeline {
                        addr,
                        ports,
                        state: PipelineState::Done {
                            outcome: Option::Some(
                                ProbeOutcome { addr, latency_ns, name, open_ports },
                            ),
                        },
                    },
                    PipelineAction::Finished,
                )
            },
            _ => {
                assert(false);
                (
                    HostPipeline { addr, ports, state: PipelineState::AwaitingPing },
                    PipelineAction::Finished,
                )
            },
        }
    }
}

/// One finished pipeline's report: the position its address had in the
/// input address list, and its outcome.
pub open spec fn valid_completions(cs: Seq<(usize, Option<ProbeOutcome>)>, n: int) -> bool {
    &&& cs.len() == n
    &&& forall|j: int| 0 <= j < cs.len() ==> (#[trigger] cs[j]).0 < n
    &&& forall|j: int, k: int|
        0 <= j < k < cs.len() ==> (#[trigger] cs[j]).0 != (#[trigger] cs[k]).0
}

/// The result set `r` places every reported outcome at the slot of the
/// address it belongs to.
pub open spec fn result_matches(
    r: Seq<Option<ProbeOutcome>>,
    cs: Seq<(usize, Option<ProbeOutcome>)>,
    n: int,
) -> bool {
    &&& r.len() == n
    &&& forall|j: int| 0 <= j < cs.len() ==> r[(#[trigger] cs[j]).0 as int] == cs[j].1
}

/// Assembles the result set from the pipelines' reports, one report per
/// address, in whatever order the pipelines happened to finish.  Slot `i`
/// of the result belongs to address `i` of the input list.
pub fn assemble_results(n: usize, completions: Vec<(usize, Option<ProbeOutcome>)>) -> (r: Vec<
    Option<ProbeOutcome>,
>)
    requires
        valid_completions(completions@, n as int),
    ensures
        result_matches(r@, completions@, n as int),
{
    let ghost orig = completions@;
    let mut r: Vec<Option<ProbeOutcome>> = Vec::new();
    let mut i: usize = 0;
    while i < n
        invariant
            i <= n,
            r@.len() == i,
        decreases n - i,
    {
        r.push(Option::None);
        i = i + 1;
    }
    let mut c = completions;
    proof {
        assert(orig.take(orig.len() as int) =~= orig);
    }
    while c.len() > 0
        invariant
            valid_completions(orig, n as int),
            c@.len() <= orig.len(),
            c@ == orig.take(c@.len() as int),
            r@.len() == n,
            forall|j: int|
                c@.len() <= j < orig.len() ==> r@[(#[trigger] orig[j]).0 as int] == orig[j].1,
        decreases c@.len(),
    {
        let ghost m = c@.len();
        let popped = c.pop();
        let (idx, out) = match popped {
            Option::Some(p) => p,
            Option::None => {
                assert(false);
                (0usize, Option::None)
            },
        };
        proof {
            assert(orig.take(m as int).drop_last() =~= orig.take(m - 1));
            assert(orig.take(m as int).last() == orig[m - 1]);
            assert(idx == orig[m - 1].0);
            assert(idx < n);
        }
        let ghost r_before = r@;
        r.remove(idx);
        r.insert(idx, out);
        proof {
            assert(r@ =~= r_before.update(idx as int, out));
            assert forall|j: int|
                c@.len() <= j < orig.len() implies r@[(#[trigger] orig[j]).0 as int]
                == orig[j].1 by {
                if j == m - 1 {
                    assert(r@[idx as int] == out);
                } else {
                    assert(orig[j].0 != idx);
                }
            }
        }
    }
    proof {
        assert(c@.len() == 0);
    }
    r
}

/// Completions cover every slot: with one report per address, each index
/// below `n` is reported exactly once.
proof fn lemma_completions_cover(cs: Seq<(usize, Option<ProbeOutcome>)>, n: int, i: int)
    requires
        valid_completions(cs, n),
        0 <= i < n,
    ensures
        exists|j: int| 0 <= j < cs.len() && (#[trigger] cs[j]).0 == i,
{
    broadcast use seq_to_set_is_finite;

    let idxs = Seq::new(cs.len(), |j: int| cs[j].0 as int);
    assert(idxs.no_duplicates()) by {
        assert forall|a: int, b: int|
            0 <= a < idxs.len() && 0 <= b < idxs.len() && a != b implies idxs[a] != idxs[b] by {
            if a < b {
                assert(cs[a].0 != cs[b].0);
            } else {
                assert(cs[b].0 != cs[a].0);
            }
        }
    }
    idxs.unique_seq_to_set();
    lemma_int_range(0, n);
    assert(idxs.to_set().subset_of(set_int_range(0, n))) by {
        assert forall|x: int| idxs.to_set().contains(x) implies set_int_range(0, n).contains(
            x,
        ) by {
            let j = choose|j: int| 0 <= j < idxs.len() && idxs[j] == x;
            assert(cs[j].0 < n);
        }
    }
    lemma_subset_equality(idxs.to_set(), set_int_range(0, n));
    assert(set_int_range(0, n).contains(i));
    assert(idxs.to_set().contains(i));
    assert(idxs.contains(i));
    let j = choose|j: int| 0 <= j < idxs.len() && idxs[j] == i;
    assert(cs[j].0 == i);
}

/// Aggregation is completion-order independent: two runs whose pipelines
/// reported the same outcomes, in any orders, assemble the same result set,
/// and that result set pairs slot `i` with address `i` of the input list.
pub proof fn lemma_aggregation_order_independent(
    r1: Seq<Option<ProbeOutcome>>,
    r2: Seq<Option<ProbeOutcome>>,
    cs1: Seq<(usize, Option<ProbeOutcome>)>,
    cs2: Seq<(usize, Option<ProbeOutcome>)>,
    n: int,
)
    requires
        valid_completions(cs1, n),
        cs2.to_multiset() == cs1.to_multiset(),
        result_matches(r1, cs1, n),
        result_matches(r2, cs2, n),
    ensures
        r1 == r2,
{
    broadcast use vstd::seq_lib::group_to_multiset_ensures;

    assert forall|i: int| 0 <= i < n implies r1[i] == r2[i] by {
        lemma_completions_cover(cs1, n, i);
        let j = choose|j: int| 0 <= j < cs1.len() && (#[trigger] cs1[j]).0 == i;
        assert(r1[i] == cs1[j].1);
        assert(cs1.contains(cs1[j]));
        assert(cs1.to_multiset().count(cs1[j]) > 0);
        assert(cs2.to_multiset().count(cs1[j]) > 0);
        assert(cs2.contains(cs1[j]));
        let k = choose|k: int| 0 <= k < cs2.len() && cs2[k] == cs1[j];
        assert(r2[(cs2[k]).0 as int] == cs2[k].1);
    }
    assert(r1 =~= r2);
}

} // verus!
