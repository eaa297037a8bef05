use taskflowrs::hwloc_topology::{
    select_caches, AffinityStrategy, HwlocWorkerAffinity, RawCacheEntry, SysfsBackend, TopologyProvider,
};
use taskflowrs::numa::{get_worker_cpus, NumaPinning, NumaTopology};

/// A machine with the CPUs `num_cpus` reports on one memory node, with a
/// private L1 and L2 per CPU and one L3 shared by all, as the kernel's
/// cache directories describe them.
fn machine() -> TopologyProvider {
    let numa = NumaTopology::detect_with_nodes(1);
    let cpus: Vec<usize> = numa.nodes[0].cpus.clone();
    let mut raw = Vec::new();
    for &cpu in &cpus {
        raw.push(RawCacheEntry { cpu, level: Some(1), size_kb: Some(32), line_size: Some(64), shared_cpus: vec![cpu] });
        raw.push(RawCacheEntry { cpu, level: Some(2), size_kb: Some(512), line_size: Some(64), shared_cpus: vec![cpu] });
        raw.push(RawCacheEntry {
            cpu,
            level: Some(3),
            size_kb: Some(16384),
            line_size: Some(64),
            shared_cpus: cpus.clone(),
        });
    }
    let caches = select_caches(&raw, cpus.len());
    TopologyProvider::from_sysfs(SysfsBackend::from_parts(numa, caches))
}

#[test]
fn test_numa_topology_detect() {
    let topology = NumaTopology::detect_with_nodes(1);
    assert!(topology.num_nodes >= 1);
    assert!(!topology.nodes.is_empty());
    assert!(!topology.cpu_to_node.is_empty());
}

#[test]
fn blocked_layout_splits_cpus() {
    let t = NumaTopology::blocked(8, 3);
    assert_eq!(t.num_nodes, 3);
    assert_eq!(t.nodes[0].cpus, vec![0, 1, 2]);
    assert_eq!(t.nodes[1].cpus, vec![3, 4, 5]);
    assert_eq!(t.nodes[2].cpus, vec![6, 7]);
    assert_eq!(t.node_for_cpu(4), Some(1));
    assert_eq!(t.node_for_cpu(8), None);
}

#[test]
fn worker_cpus_by_strategy() {
    let t = NumaTopology::blocked(8, 2);
    assert_eq!(get_worker_cpus(0, 4, &t, NumaPinning::Unpinned), Vec::<usize>::new());
    assert_eq!(get_worker_cpus(1, 4, &t, NumaPinning::RoundRobin), vec![4]);
    assert_eq!(get_worker_cpus(2, 4, &t, NumaPinning::RoundRobin), vec![1]);
}

#[test]
fn detect_returns_valid_topology() {
    let topo = machine();
    assert!(topo.cpu_count() >= 1);
    assert!(!topo.numa_nodes().is_empty());
    let caches = topo.cache_info();
    assert!(!caches.is_empty(), "expected at least one cache entry");
}

#[test]
fn sysfs_backend_sane() {
    let topo = machine();
    assert_eq!(topo.backend_name(), "sysfs-fallback");
    assert!(!topo.is_hwloc_backed());
    assert!(topo.cpu_count() >= 1);
}

#[test]
fn packages_non_empty() {
    let topo = machine();
    let pkgs = topo.packages();
    assert!(!pkgs.is_empty());
    for pkg in &pkgs {
        assert!(!pkg.cpus.is_empty(), "package {} has no CPUs", pkg.id);
    }
}

#[test]
fn cache_levels_sane() {
    let topo = machine();
    for cache in topo.cache_info() {
        assert!(cache.level >= 1 && cache.level <= 4, "unexpected cache level {}", cache.level);
        assert!(cache.line_size >= 16, "suspiciously small line size {}", cache.line_size);
        assert!(!cache.shared_cpus.is_empty(), "cache L{} has no associated CPUs", cache.level);
    }
}

#[test]
fn caches_are_deduplicated_by_first_cpu() {
    let topo = machine();
    let n = topo.numa_nodes()[0].cpus.len();
    let l3: Vec<_> = topo.cache_info().into_iter().filter(|c| c.level == 3).collect();
    assert_eq!(l3.len(), 1);
    assert_eq!(l3[0].shared_cpus.len(), n);
}

#[test]
fn numa_node_for_cpu_consistent() {
    let topo = machine();
    for node in topo.numa_nodes() {
        for &cpu in &node.cpus {
            let result = topo.numa_node_for_cpu(cpu);
            assert_eq!(result, Some(node.id), "cpu {} should map to node {} but got {:?}", cpu, node.id, result);
        }
    }
}

#[test]
fn worker_affinity_numa_round_robin() {
    let topo = machine();
    let affinity = HwlocWorkerAffinity::new(topo, AffinityStrategy::NUMARoundRobin, 8);
    for w in 0..8 {
        let _cpus = affinity.cpus_for_worker(w);
    }
}

#[test]
fn worker_affinity_l3_domain() {
    let topo = machine();
    let count = topo.cpu_count();
    let affinity = HwlocWorkerAffinity::new(topo, AffinityStrategy::L3CacheDomain, 4);
    for w in 0..4 {
        let cpus = affinity.cpus_for_worker(w);
        if !cpus.is_empty() {
            for &cpu in &cpus {
                assert!(cpu < count, "CPU index {} out of range", cpu);
            }
        }
    }
}

#[test]
fn unbound_strategy_binds_nothing() {
    let topo = machine();
    let affinity = HwlocWorkerAffinity::new(topo, AffinityStrategy::Unbound, 4);
    assert!(affinity.cpus_for_worker(0).is_empty());
}

#[test]
fn test_hwloc_topology_export() {
    let topo = machine();
    assert!(topo.cpu_count() >= 1);
}
