use clos_dragonfly::clos::{generate, largest_divisor_leq, validate_inputs};
use clos_dragonfly::json::parse_links;

#[test]
fn test_clos_basic_128() {
    let topo = generate(6400, 800, 200, 128).unwrap();
    assert_eq!(topo.num_hosts, 128);
    assert_eq!(topo.total_switches(), 48);
    assert_eq!(topo.links.len(), 640);
    assert_eq!(topo.num_leafs, 32);
    assert_eq!(topo.num_spines, 16);
    let (h0, h1) = topo.host_id_range();
    assert_eq!((h0, h1), (0, 127));
}

#[test]
fn test_clos_small_cases() {
    for &n in &[4, 8, 16, 32, 64] {
        let topo = generate(6400, 800, 200, n).expect(&format!("failed for {} hosts", n));
        assert_eq!(topo.num_hosts, n);
        assert!(topo.links.len() > 0);
        assert!(topo.num_leafs > 0);
        assert!(topo.num_spines > 0);
    }
}

#[test]
fn test_clos_validation_errors() {
    assert!(generate(6400, 800, 200, 0).is_err());
    assert!(generate(6400, 800, 199, 64).is_err()); // not divisible
    assert!(generate(6401, 800, 200, 64).is_err()); // not divisible
}

#[test]
fn clos_error_messages() {
    assert_eq!(
        generate(6400, 800, 200, 0).unwrap_err(),
        "All throughput/bandwidth values and num_hosts must be positive"
    );
    assert_eq!(
        generate(6400, 800, 199, 64).unwrap_err(),
        "switch_throughput (6400) must be divisible by link_bandwidth (199)"
    );
    assert_eq!(
        generate(6400, 810, 200, 64).unwrap_err(),
        "nic_throughput (810) must be divisible by link_bandwidth (200)"
    );
    assert_eq!(
        generate(600, 200, 200, 4).unwrap_err(),
        "ports_per_switch (3) must be even for non-oversubscribed leaf-spine split"
    );
    assert_eq!(
        generate(1600, 600, 200, 4).unwrap_err(),
        "Half the switch ports (4) must be divisible by links_per_host (3)"
    );
    assert_eq!(
        generate(6400, 800, 200, 6).unwrap_err(),
        "num_hosts (6) must be divisible by hosts_per_leaf (4)"
    );
    assert_eq!(
        generate(6400, 800, 200, 132).unwrap_err(),
        "Cannot build topology: 33 leafs require spines with >= 33 ports, but switches only have 32 ports."
    );
    assert_eq!(validate_inputs(6400, 800, 200, 132), Ok(()));
}

#[test]
fn clos_largest_divisor() {
    assert_eq!(largest_divisor_leq(16, 1), 1);
    assert_eq!(largest_divisor_leq(16, 7), 4);
    assert_eq!(largest_divisor_leq(12, 100), 12);
    assert_eq!(largest_divisor_leq(0, 5), 1);
    assert_eq!(largest_divisor_leq(7, 0), 1);
}

#[test]
fn clos_links_layout() {
    // 16 hosts: 4 leaves of 4 hosts (2 links each), 16 ports per switch, 2 links per leaf/spine pair.
    let topo = generate(3200, 400, 200, 16).unwrap();
    assert_eq!(topo.ports_per_switch, 16);
    assert_eq!(topo.num_leafs, 4);
    assert_eq!(topo.links_per_leaf_spine_pair, 4);
    assert_eq!(topo.num_spines, 2);
    assert_eq!(topo.leaf_south_ports_used, 8);
    assert_eq!(topo.leaf_north_ports_used, 8);
    assert_eq!(topo.spine_ports_used, 16);
    assert_eq!(topo.links.len(), 16 + 4 * 2);
    assert_eq!(topo.links[0], [0, 16, 400]);
    assert_eq!(topo.links[5], [5, 17, 400]);
    assert_eq!(topo.links[16], [16, 20, 800]);
    assert_eq!(topo.links[23], [19, 21, 800]);
    assert_eq!(topo.to_json(), topo.links);
    assert_eq!(topo.leaf_id_range(), (16, 19));
    assert_eq!(topo.spine_id_range(), (20, 21));
}

#[test]
fn clos_summary_report() {
    let topo = generate(3200, 400, 200, 16).unwrap();
    let expected = "=== 2-Layer CLOS Topology ===\n\
Hosts:          16\n\
\x20 IDs:          [0, 15]\n\
\x20 Links/host:   2 x 200G (aggregated: 400G)\n\
Leaf switches:  4\n\
\x20 IDs:          [16, 19]\n\
\x20 South ports:  8/8 used\n\
\x20 North ports:  8/8 used\n\
\x20 Total ports:  16/16 used\n\
Spine switches: 2\n\
\x20 IDs:          [20, 21]\n\
\x20 Ports used:   16/16 used\n\
Total switches: 6\n\
Total links:    24";
    assert_eq!(topo.summary(), expected);
}

#[test]
fn clos_per_node_bandwidth() {
    let topo = generate(6400, 800, 200, 128).unwrap();
    let total = (topo.num_hosts + topo.num_leafs + topo.num_spines) as usize;
    let mut out_bw = vec![0u64; total];
    let mut in_bw = vec![0u64; total];
    let mut out_n = vec![0u32; total];
    let mut in_n = vec![0u32; total];
    for l in &topo.links {
        out_bw[l[0] as usize] += l[2] as u64;
        in_bw[l[1] as usize] += l[2] as u64;
        out_n[l[0] as usize] += 1;
        in_n[l[1] as usize] += 1;
    }
    let (l0, l1) = topo.leaf_id_range();
    let (s0, s1) = topo.spine_id_range();
    assert_eq!((s0, s1), (160, 175));
    for x in 0..128usize {
        assert_eq!((out_n[x], out_bw[x], in_bw[x]), (1, 800, 0));
    }
    for x in l0 as usize..=l1 as usize {
        assert_eq!((in_n[x], out_n[x]), (topo.hosts_per_leaf, topo.num_spines));
        assert_eq!((in_bw[x], out_bw[x]), (3200, 3200));
    }
    for x in s0 as usize..=s1 as usize {
        assert_eq!((out_n[x], in_n[x]), (0, topo.num_leafs));
        assert_eq!(in_bw[x], topo.spine_ports_used as u64 * 200);
        assert!(in_bw[x] <= 6400);
    }
}

#[test]
fn clos_report_uses_all_leaf_ports() {
    let topo = generate(6400, 800, 200, 128).unwrap();
    let report = topo.summary();
    let lines: Vec<&str> = report.lines().map(|l| l.trim()).collect();
    assert_eq!(lines.len(), 14);
    assert_eq!(lines[6], "South ports:  16/16 used");
    assert_eq!(lines[7], "North ports:  16/16 used");
    assert_eq!(lines[8], "Total ports:  32/32 used");
    assert_eq!(lines[12], "Total switches: 48");
    assert_eq!(lines[13], "Total links:    640");
}

#[test]
fn test_write_json() {
    let topo = generate(6400, 800, 200, 8).unwrap();
    let content = topo.json_text();
    assert!(content.trim_start().starts_with('['));
    assert!(content.contains("0"));
}

#[test]
fn clos_json_text_is_pretty() {
    let topo = generate(800, 200, 200, 2).unwrap();
    assert_eq!(topo.links, vec![[0, 2, 200], [1, 2, 200], [2, 3, 400]]);
    let text = "[\n  [\n    0,\n    2,\n    200\n  ],\n  [\n    1,\n    2,\n    200\n  ],\n  [\n    2,\n    3,\n    400\n  ]\n]";
    assert_eq!(topo.json_text(), text);
    assert_eq!(parse_links(text), Some(topo.links.clone()));
}

#[test]
fn json_parse_rejects_other_shapes() {
    assert_eq!(parse_links("[[0, 1, 2], [3, 4, 5]]"), Some(vec![[0, 1, 2], [3, 4, 5]]));
    assert_eq!(parse_links("[]"), Some(vec![]));
    assert_eq!(parse_links("[[0, 1]]"), None);
    assert_eq!(parse_links("[[0, 1, -2]]"), None);
    assert_eq!(parse_links("[[0, 1, 4294967296]]"), None);
    assert_eq!(parse_links("not json"), None);
}
