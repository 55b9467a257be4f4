use auraed::name::CellName;
use auraed::validation::{Allocation, ExecutableName, ValidationReason};
use auraed::runtime::AuraedRuntime;
use auraed::spec::CgroupSpec;

#[test]
fn empty_name_fails_validation() {
    let e = CellName::parse("").unwrap_err();
    assert_eq!(e.reason, ValidationReason::Empty);
    assert_eq!(e.field, "cell_name");
}

#[test]
fn absent_name_is_required() {
    let e = CellName::validate(None, "cell_name", Some("AllocateRequest")).unwrap_err();
    assert_eq!(e.reason, ValidationReason::Required);
    assert_eq!(e.parent.as_deref(), Some("AllocateRequest"));
}

#[test]
fn malformed_names_are_rejected() {
    for t in ["/a", "a/", "a//b", "a b", "a/\u{e9}", "/"] {
        assert_eq!(CellName::parse(t).unwrap_err().reason, ValidationReason::InvalidName, "{t}");
    }
    let long = "x".repeat(256);
    assert!(CellName::parse(&long).is_err());
    let max = "x".repeat(255);
    assert!(CellName::parse(&max).is_ok());
}

#[test]
fn name_operations() {
    let n = CellName::parse("a/b.c/d-e_9").unwrap();
    assert_eq!(n.depth(), 3);
    assert_eq!(n.leaf(), "d-e_9");
    assert_eq!(n.segment(1), "b.c");
    assert_eq!(n.to_path(), "a/b.c/d-e_9");
    let p = n.parent().unwrap();
    assert_eq!(p.to_path(), "a/b.c");
    assert!(p.is_ancestor_of(&n));
    assert!(!n.is_ancestor_of(&p));
    assert!(!n.is_ancestor_of(&n));
    assert!(CellName::parse("a").unwrap().parent().is_none());
    let c = p.child("z").unwrap();
    assert_eq!(c.to_path(), "a/b.c/z");
    assert!(p.child("bad/seg").is_err());
    assert!(c.same_as(&CellName::parse("a/b.c/z").unwrap()));
    assert!(!c.same_as(&n));
    assert_eq!(CellName::from_segment("solo").unwrap().to_path(), "solo");
    assert!(CellName::from_segment("").is_err());
    assert!(!CellName::parse("ab").unwrap().is_ancestor_of(&CellName::parse("a/b").unwrap()));
}

#[test]
fn allocation_validation() {
    assert_eq!(Allocation::validate(Some(5), "memory_max", None).unwrap().into_inner(), 5);
    assert_eq!(Allocation::validate(Some(0), "memory_max", None).unwrap().into_inner(), 0);
    let e = Allocation::validate(Some(-1), "memory_max", Some("cgroup")).unwrap_err();
    assert_eq!(e.reason, ValidationReason::BelowMinimum { minimum: 0 });
    assert_eq!(e.field, "memory_max");
    assert_eq!(e.parent.as_deref(), Some("cgroup"));
    let e = Allocation::validate(None, "quota", None).unwrap_err();
    assert_eq!(e.reason, ValidationReason::Required);
    assert_eq!(Allocation::new(3).into_inner(), 3);
}

#[test]
fn executable_name_validation() {
    let n = ExecutableName::validate(Some("sleep".to_string()), "name", None).unwrap();
    assert_eq!(n.as_str(), "sleep");
    assert_eq!(n.into_inner(), "sleep");
    let e = ExecutableName::validate(Some(String::new()), "name", None).unwrap_err();
    assert_eq!(e.reason, ValidationReason::Empty);
    let e = ExecutableName::validate_for_creation(None, "name", Some("exe")).unwrap_err();
    assert_eq!(e.reason, ValidationReason::Required);
    let long = "a-name-longer-than-sixteen-bytes".to_string();
    assert_eq!(ExecutableName::validate_for_creation(Some(long.clone()), "name", None).unwrap().into_inner(), long);
}

#[test]
fn cpu_weight_range() {
    assert_eq!(CgroupSpec::validate_cpu_weight(None, "cpu_weight", None).unwrap(), None);
    assert_eq!(CgroupSpec::validate_cpu_weight(Some(1), "cpu_weight", None).unwrap(), Some(1));
    assert_eq!(CgroupSpec::validate_cpu_weight(Some(10000), "cpu_weight", None).unwrap(), Some(10000));
    let e = CgroupSpec::validate_cpu_weight(Some(0), "cpu_weight", None).unwrap_err();
    assert_eq!(e.reason, ValidationReason::OutOfRange { low: 1, high: 10000 });
    assert!(CgroupSpec::validate_cpu_weight(Some(10001), "cpu_weight", None).is_err());
}

#[test]
fn runtime_paths() {
    let r = AuraedRuntime::default();
    assert_eq!(r.ca_crt, "/etc/aurae/pki/ca.crt");
    assert_eq!(r.server_crt, "/etc/aurae/pki/_signed.server.crt");
    assert_eq!(r.server_key, "/etc/aurae/pki/server.key");
    assert_eq!(r.library_dir, "/var/lib/aurae");
    assert_eq!(r.bundles_dir(), "/var/run/aurae/bundles");
    assert_eq!(r.pods_dir(), "/var/run/aurae/pods");
    assert_eq!(r.default_socket_address(), "/var/run/aurae/aurae.sock");
    let mut r2 = r.clone();
    r2.runtime_dir = "/tmp/run/".to_string();
    assert_eq!(r2.default_socket_address(), "/tmp/run/aurae.sock");
}
