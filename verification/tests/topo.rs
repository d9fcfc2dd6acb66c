use fabric_te::clos::TopoSpec;
use fabric_te::topo::Graph;
use fabric_te::types::{Endpoint, LeafId, NicId, SpineId};

fn n32() -> Graph {
    Graph::generate(256, 8, 1).expect("n32")
}

fn n64() -> Graph {
    Graph::generate(512, 8, 1).expect("n64")
}

fn host_leaf(g: &Graph, nic: NicId) -> LeafId {
    let link = g.links.iter().find(|l| l.src == Endpoint::Nic(nic)).expect("host nic uplink");
    match link.dst {
        Endpoint::Leaf(id) => id,
        other => panic!("nic {} not wired to leaf: {:?}", nic.0, other),
    }
}

#[test]
fn topo_n64_closed_form() {
    let g = n64();
    assert_eq!(g.params.nodes, 64);
    assert_eq!(g.leaves.len(), 16);
    assert_eq!(g.spines.len(), 8);
    assert_eq!(g.e_host(), 512);
    assert_eq!(g.e_ls(), 512);
    assert_eq!(g.b_bisect_gbps(), 102_400);
    assert_eq!(g.gpus.len(), 512);
}

#[test]
fn topo_generated_n32_counts() {
    let g = n32();
    assert_eq!(g.params.nodes, 32);
    assert_eq!(g.leaves.len(), 8);
    assert_eq!(g.spines.len(), 4);
    assert_eq!(g.e_host(), 256);
    assert_eq!(g.e_ls(), 256);
    assert_eq!(g.b_bisect_gbps(), 51_200);
    assert_eq!(g.gpus.len(), 256);
    let host_dir = g
        .links
        .iter()
        .filter(|l| {
            matches!(
                (l.src, l.dst),
                (Endpoint::Nic(_), Endpoint::Leaf(_)) | (Endpoint::Leaf(_), Endpoint::Nic(_))
            )
        })
        .count();
    let ls_dir = g.links.len() - host_dir;
    assert_eq!(host_dir, 512);
    assert_eq!(ls_dir, 512);
    assert!(g.links.iter().all(|l| l.capacity_Bps == 50_000_000_000
        && l.scratch_ppm == 50_000
        && !l.failed
        && l.bytes_this_epoch == 0));
}

#[test]
fn topo_rail_not_tor() {
    for g in [n32(), n64()] {
        for node in &g.nodes {
            let mut leaves = std::collections::BTreeSet::new();
            for &gid in &node.gpus {
                leaves.insert(host_leaf(&g, NicId(gid.0)).0);
            }
            assert_eq!(leaves.len(), node.gpus.len(), "node {} ToR-mapped", node.id.0);
        }
    }
}

#[test]
fn topo_one_nic_per_gpu() {
    let g = n32();
    assert_eq!(g.gpus.len(), g.e_host() as usize);
    let nics: std::collections::BTreeSet<u32> = g.gpus.iter().map(|gpu| gpu.nic.0).collect();
    let ids: std::collections::BTreeSet<u32> = g.gpus.iter().map(|gpu| gpu.id.0).collect();
    assert_eq!(nics, ids);
    assert_eq!(nics.len(), g.gpus.len());
    for gpu in &g.gpus {
        assert_eq!(gpu.nic.0, gpu.id.0);
        assert_eq!(gpu.id.0, gpu.node.0 * g.params.rails + gpu.rail.0 as u32);
    }
}

#[test]
fn topo_bisection_n32_leaf_not_spine() {
    let g = n32();
    let a = NicId(0 * 8 + 0);
    let b = NicId(31 * 8 + 0);
    let leaf_a = host_leaf(&g, a);
    let leaf_b = host_leaf(&g, b);
    assert_eq!(leaf_a, leaf_b);
    for nic in [a, b] {
        for link in &g.links {
            let here = link.src == Endpoint::Nic(nic) || link.dst == Endpoint::Nic(nic);
            if here {
                assert!(
                    !matches!(link.src, Endpoint::Spine(_)) && !matches!(link.dst, Endpoint::Spine(_)),
                    "same-rail host path used a spine: {:?}",
                    (link.src, link.dst)
                );
                assert!(matches!(
                    (link.src, link.dst),
                    (Endpoint::Nic(_), Endpoint::Leaf(_)) | (Endpoint::Leaf(_), Endpoint::Nic(_))
                ));
            }
        }
    }
}

#[test]
fn topo_ls_full_mesh_n32() {
    let g = n32();
    assert_eq!(g.leaves.len(), 8);
    assert_eq!(g.spines.len(), 4);
    for leaf in 0..8u32 {
        for spine in 0..4u32 {
            let cables = g
                .links
                .iter()
                .filter(|l| l.src == Endpoint::Leaf(LeafId(leaf)) && l.dst == Endpoint::Spine(SpineId(spine)))
                .count();
            assert_eq!(cables, 8, "leaf {leaf} spine {spine}");
        }
    }
}

fn spec(fill_ppm: u32) -> TopoSpec {
    TopoSpec {
        gpus: 256,
        rails: 8,
        oversub: 1,
        leaf_radix: 64,
        down: 32,
        port_speed_gbps: 400,
        scratch_ppm: 50_000,
        fill_ppm,
        allow_cross_rail: true,
        buffer_bytes: 33_554_432,
        buffer_infinite: false,
    }
}

#[test]
fn topo_rejects_fill_not_one() {
    let err = Graph::from_file_fields("rail_clos_2tier", &spec(500_000)).unwrap_err();
    assert_eq!(err.e_code(), "E_TOPO");
}

#[test]
fn topo_file_fields_build_n32() {
    let g = Graph::from_file_fields("rail_clos_2tier", &spec(1_000_000)).expect("n32 fields");
    assert_eq!(g.params.nodes, 32);
    assert_eq!(g.leaves.len(), 8);
    assert_eq!(g.spines.len(), 4);
    assert_eq!(g.links.len(), n32().links.len());
    let err = Graph::from_file_fields("fat_tree", &spec(1_000_000)).unwrap_err();
    assert_eq!(err.e_code(), "E_SCHEMA");
}
