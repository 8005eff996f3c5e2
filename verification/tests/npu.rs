use warden_sim::npu::NpuSim;

#[test]
fn present_reports_load_and_round_trips() {
    let mut n = NpuSim::new();
    n.set_load(42);
    let s = n.proc_load().unwrap();
    assert_eq!(s, "NPU load:  42%\n");
    assert_eq!(NpuSim::parse_load(&s), Some(42));
}

#[test]
fn load_clamps_to_100() {
    let mut n = NpuSim::new();
    n.set_load(250);
    assert_eq!(NpuSim::parse_load(&n.proc_load().unwrap()), Some(100));
}

#[test]
fn absent_has_no_proc_file() {
    assert!(NpuSim::absent().proc_load().is_none());
}

#[test]
fn parse_rejects_no_colon() {
    assert_eq!(NpuSim::parse_load("no colon here"), None);
}

#[test]
fn parse_rejects_non_numeric() {
    assert_eq!(NpuSim::parse_load("NPU load:  x%"), None);
}

#[test]
fn parse_handles_zero() {
    assert_eq!(NpuSim::parse_load("NPU load:  0%"), Some(0));
}

#[test]
fn default_is_present_idle() {
    assert_eq!(
        NpuSim::default().proc_load(),
        Some("NPU load:  0%\n".to_string())
    );
}

#[test]
fn every_load_round_trips() {
    for pct in 0..=100u8 {
        let mut n = NpuSim::new();
        n.set_load(pct);
        assert_eq!(NpuSim::parse_load(&n.proc_load().unwrap()), Some(pct));
    }
}

#[test]
fn parse_edge_cases() {
    // past a u8: rejected
    assert_eq!(NpuSim::parse_load("x: 256%"), None);
    assert_eq!(NpuSim::parse_load("x: 255%"), Some(255));
    // only the first colon counts, leading whitespace (tabs, newlines) skipped
    assert_eq!(NpuSim::parse_load("a:\t\n 7:9"), Some(7));
    // a sign is not a digit
    assert_eq!(NpuSim::parse_load("a: +5"), None);
    // leading zeros are fine
    assert_eq!(NpuSim::parse_load("a:007%"), Some(7));
    // Unicode whitespace is skipped too
    assert_eq!(NpuSim::parse_load("a:\u{3000}12"), Some(12));
}
