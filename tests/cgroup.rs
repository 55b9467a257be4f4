use auraed::spec::{decimal_string, CgroupSpec, CpuMax, MemoryLimit};
use auraed::validation::Allocation;

#[test]
fn decimal_formatting() {
    assert_eq!(decimal_string(0), "0");
    assert_eq!(decimal_string(7), "7");
    assert_eq!(decimal_string(100), "100");
    assert_eq!(decimal_string(u64::MAX), "18446744073709551615");
}

#[test]
fn control_writes_of_full_spec() {
    let spec = CgroupSpec {
        cpu_weight: Some(100),
        cpu_max: Some(CpuMax { quota: Allocation::new(50000), period: Allocation::new(100000) }),
        memory_max: Some(MemoryLimit::Max),
        memory_low: Some(MemoryLimit::Bytes(Allocation::new(1048576))),
        cpuset_cpus: Some("0-1".to_string()),
        cpuset_mems: Some("0".to_string()),
    };
    let w: Vec<(String, String)> =
        spec.control_writes().into_iter().map(|c| (c.file, c.value)).collect();
    let expect: Vec<(String, String)> = vec![
        ("cpu.weight", "100"),
        ("cpu.max", "50000 100000"),
        ("memory.max", "max"),
        ("memory.low", "1048576"),
        ("cpuset.cpus", "0-1"),
        ("cpuset.mems", "0"),
    ]
    .into_iter()
    .map(|(a, b)| (a.to_string(), b.to_string()))
    .collect();
    assert_eq!(w, expect);
}

#[test]
fn control_writes_skip_absent_fields() {
    assert!(CgroupSpec::inherit().control_writes().is_empty());
    let mut spec = CgroupSpec::inherit();
    spec.cpu_weight = Some(100);
    let w = spec.control_writes();
    assert_eq!(w.len(), 1);
    assert_eq!(w[0].file, "cpu.weight");
    assert_eq!(w[0].value, "100");
}
