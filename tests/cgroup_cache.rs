use auraed::cgroup_cache::CgroupCache;

#[test]
fn get_must_return_none_when_inode_is_not_listed() {
    let mut cache = CgroupCache::new("/tmp".to_string());
    assert_eq!(cache.root(), "/tmp");
    assert_eq!(cache.get(123), None);
    cache.refresh(vec![(7, "a".to_string())]);
    assert_eq!(cache.get(123), None);
}

#[test]
fn get_returns_name_after_refresh() {
    let mut cache = CgroupCache::new("/sys/fs/cgroup".to_string());
    cache.refresh(vec![(10, "svc".to_string()), (11, "web".to_string())]);
    assert_eq!(cache.get(10).as_deref(), Some("svc"));
    assert_eq!(cache.get(11).as_deref(), Some("web"));
    cache.refresh(vec![(10, "svc2".to_string()), (10, "svc3".to_string())]);
    assert_eq!(cache.get(10).as_deref(), Some("svc3"));
    assert_eq!(cache.get(11).as_deref(), Some("web"));
}
