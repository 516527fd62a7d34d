use netscan::expand::expand;
use netscan::ports::parse_port_choice;
use netscan::resolve::resolved_name;
use netscan::scan::{
    assemble_results, HostPipeline, PipelineAction, PipelineEvent, PipelineState, ProbeOutcome,
    ScanConfig,
};
use netscan::Addr;

fn ip(a: u8, b: u8, c: u8, d: u8) -> Addr {
    Addr::V4(((a as u32) << 24) | ((b as u32) << 16) | ((c as u32) << 8) | (d as u32))
}

/// Drives one pipeline to completion against simulated probe outcomes.
fn run_pipeline(
    addr: Addr,
    ports: Vec<u16>,
    ping: Option<u128>,
    name: Option<String>,
    open: Vec<bool>,
) -> Option<ProbeOutcome> {
    let p = HostPipeline::new(addr, ports);
    let (p, action) = p.step(PipelineEvent::Ping { latency_ns: ping });
    let p = match action {
        PipelineAction::Finished => p,
        PipelineAction::Resolve => {
            let (p, action) = p.step(PipelineEvent::Resolved { name });
            match action {
                PipelineAction::Finished => p,
                PipelineAction::ProbePorts { ports: _ } => {
                    let (p, _) = p.step(PipelineEvent::Ports { open });
                    p
                }
                PipelineAction::Resolve => panic!("resolution requested twice"),
            }
        }
        PipelineAction::ProbePorts { .. } => panic!("port probe before resolution"),
    };
    match p.state {
        PipelineState::Done { outcome } => outcome,
        _ => panic!("pipeline did not finish"),
    }
}

#[test]
fn dead_host_yields_no_outcome_and_no_further_work() {
    let p = HostPipeline::new(ip(10, 0, 0, 1), vec![80]);
    let (p, action) = p.step(PipelineEvent::Ping { latency_ns: None });
    assert!(matches!(action, PipelineAction::Finished));
    match p.state {
        PipelineState::Done { outcome } => assert!(outcome.is_none()),
        _ => panic!("pipeline did not finish"),
    }
}

#[test]
fn live_host_is_resolved_then_port_probed_in_order() {
    let p = HostPipeline::new(ip(10, 0, 0, 1), vec![80, 443]);
    let (p, action) = p.step(PipelineEvent::Ping { latency_ns: Some(1_500_000) });
    assert!(matches!(action, PipelineAction::Resolve));
    let (p, action) = p.step(PipelineEvent::Resolved { name: Some(String::from("gw.lan.")) });
    match &action {
        PipelineAction::ProbePorts { ports } => assert_eq!(ports, &vec![80, 443]),
        _ => panic!("expected a port probe request"),
    }
    let (p, action) = p.step(PipelineEvent::Ports { open: vec![true, false] });
    assert!(matches!(action, PipelineAction::Finished));
    match p.state {
        PipelineState::Done { outcome } => {
            let o = outcome.expect("live host must have an outcome");
            assert_eq!(o.addr, ip(10, 0, 0, 1));
            assert_eq!(o.latency_ns, 1_500_000);
            assert_eq!(o.name, "gw.lan");
            assert_eq!(o.open_ports, vec![80]);
        }
        _ => panic!("pipeline did not finish"),
    }
}

#[test]
fn empty_port_set_skips_port_probing() {
    let o = run_pipeline(ip(10, 0, 0, 2), Vec::new(), Some(42), None, Vec::new())
        .expect("live host must have an outcome");
    assert_eq!(o.open_ports, Vec::<u16>::new());
    assert_eq!(o.name, "10.0.0.2");
}

#[test]
fn v6_pipeline_falls_back_to_the_compressed_address_text() {
    let addr = Addr::V6(0xfe80_0000_0000_0000_0000_0000_0000_0001);
    let o = run_pipeline(addr, vec![80], Some(9), None, vec![false])
        .expect("live host must have an outcome");
    assert_eq!(o.addr, addr);
    assert_eq!(o.name, "fe80::1");
}

#[test]
fn resolution_failure_falls_back_to_the_address_text() {
    let o = run_pipeline(ip(192, 168, 1, 1), vec![80], Some(7), None, vec![false])
        .expect("live host must have an outcome");
    assert_eq!(o.name, "192.168.1.1");
    assert_eq!(o.open_ports, Vec::<u16>::new());

    assert_eq!(resolved_name(None, ip(172, 16, 254, 3)), "172.16.254.3");
    assert_eq!(
        resolved_name(Some(String::from("host.example.")), ip(172, 16, 254, 3)),
        "host.example"
    );
    assert_eq!(resolved_name(Some(String::from("")), ip(172, 16, 254, 3)), "");
}

fn outcome(addr: Addr, tag: u128) -> Option<ProbeOutcome> {
    Some(ProbeOutcome {
        addr,
        latency_ns: tag,
        name: format!("h{}", tag),
        open_ports: vec![80],
    })
}

fn same_slot(a: &Option<ProbeOutcome>, b: &Option<ProbeOutcome>) -> bool {
    match (a, b) {
        (None, None) => true,
        (Some(x), Some(y)) => {
            x.addr == y.addr && x.latency_ns == y.latency_ns && x.name == y.name
                && x.open_ports == y.open_ports
        }
        _ => false,
    }
}

#[test]
fn result_set_is_aligned_with_the_address_list_not_completion_order() {
    let a0 = ip(10, 0, 0, 1);
    let a1 = ip(10, 0, 0, 2);
    let a2 = ip(10, 0, 0, 3);

    // Completions arriving in one order ...
    let first = vec![(2usize, outcome(a2, 2)), (0usize, None), (1usize, outcome(a1, 1))];
    // ... and the same completions arriving in another order.
    let second = vec![(1usize, outcome(a1, 1)), (2usize, outcome(a2, 2)), (0usize, None)];

    let r1 = assemble_results(3, first);
    let r2 = assemble_results(3, second);

    assert_eq!(r1.len(), 3);
    assert_eq!(r2.len(), 3);
    for i in 0..3 {
        assert!(same_slot(&r1[i], &r2[i]));
    }
    assert!(r1[0].is_none());
    assert_eq!(r1[1].as_ref().unwrap().addr, a1);
    assert_eq!(r1[2].as_ref().unwrap().addr, a2);
}

#[test]
fn standard_configuration_carries_the_fixed_timeouts() {
    let cfg = ScanConfig::new(ip(192, 168, 178, 1), vec![80]);
    assert_eq!(cfg.resolver, ip(192, 168, 178, 1));
    assert_eq!(cfg.ports, vec![80]);
    assert_eq!(cfg.resolve_timeout_ms, 3000);
    assert_eq!(cfg.port_timeout_ms, 800);
}

#[test]
fn scenario_slash_30_with_unreachable_resolver() {
    // Target 192.168.1.0/30: two usable addresses.
    let addresses = expand("192.168.1.0/30").unwrap();
    assert_eq!(addresses.len(), 2);
    let ports = parse_port_choice(Some("80,443"));
    assert_eq!(ports, vec![80, 443]);

    // First address answers the probe; the resolver is unreachable, so its
    // lookup yields nothing; port 443 accepts.  Second address never answers.
    let mut completions = Vec::new();
    let o = run_pipeline(addresses[1], ports.clone(), None, None, Vec::new());
    completions.push((1usize, o));
    let o = run_pipeline(addresses[0], ports.clone(), Some(900_000), None, vec![false, true]);
    completions.push((0usize, o));

    let results = assemble_results(2, completions);
    assert_eq!(results.len(), 2);
    let live = results[0].as_ref().expect("responding address must be reported");
    assert_eq!(live.addr, addresses[0]);
    assert_eq!(live.name, "192.168.1.1");
    assert!(live.open_ports.iter().all(|p| *p == 80 || *p == 443));
    assert_eq!(live.open_ports, vec![443]);
    assert!(results[1].is_none());
}
