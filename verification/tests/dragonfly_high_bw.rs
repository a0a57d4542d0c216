use clos_dragonfly::dragonfly_high_bw::config::{
    enumerate_configs, find_best_config, min_routers, select_config,
};
use clos_dragonfly::dragonfly_high_bw::hosts::host_links;
use clos_dragonfly::dragonfly_high_bw::wiring::{pair_groups, wire_global_links};
use clos_dragonfly::dragonfly_high_bw::{dragonfly_ready_check, generate, validate_inputs};
use clos_dragonfly::json::parse_links;

#[test]
fn dragonfly_config_search() {
    let configs = enumerate_configs(32, 4, 16).unwrap();
    assert_eq!(configs.len(), 9388);
    assert_eq!(configs[0], (4, 1, 7, 2));
    assert_eq!(min_routers(&configs), 4);
    assert_eq!(select_config(&configs, 4, 16, 8), Some((3, 2, 7, 2)));
    assert_eq!(select_config(&configs, 4, 16, 3), Some((0, 0, 0, 0)));
    assert_eq!(find_best_config(32, 4, 16, 8), (3, 2, 7, 2));
    assert_eq!(find_best_config(32, 4, 128, 40), (6, 3, 6, 4));
    assert_eq!(min_routers(&enumerate_configs(32, 4, 128).unwrap()), 20);
}

#[test]
fn dragonfly_config_search_overflow() {
    // With 70000 ports a search point's group count overflows a u32.
    assert!(enumerate_configs(70000, 1, 1).is_none());
}

#[test]
fn dragonfly_wiring_small() {
    let links = wire_global_links(3, 2, 2);
    assert_eq!(links, vec![(0, 3), (1, 4), (2, 5), (0, 3), (1, 4), (2, 5)]);
    let counts = pair_groups(3, 2, 2);
    assert_eq!(counts, vec![vec![0, 6], vec![0, 0]]);
}

#[test]
fn dragonfly_wiring_four_groups() {
    let links = wire_global_links(6, 4, 3);
    let expected: Vec<(u32, u32)> = vec![
        (0, 6), (1, 7), (2, 8), (3, 9), (4, 10), (5, 11),
        (0, 12), (1, 13), (2, 14), (3, 15), (4, 16), (5, 17),
        (0, 18), (1, 19), (2, 20), (3, 21), (4, 22), (5, 23),
        (6, 12), (7, 13), (8, 14), (9, 15), (10, 16), (11, 17),
        (6, 18), (7, 19), (8, 20), (9, 21), (10, 22), (11, 23),
        (12, 18), (13, 19), (14, 20), (15, 21), (16, 22), (17, 23),
    ];
    assert_eq!(links, expected);
    // Every router has exactly h = 3 global links.
    let mut ends = vec![0u32; 24];
    for &(s, d) in &links {
        assert!(s / 6 < d / 6);
        ends[s as usize] += 1;
        ends[d as usize] += 1;
    }
    assert!(ends.iter().all(|&e| e == 3));
    let counts = pair_groups(6, 4, 3);
    for x in 0..4 {
        for y in 0..4 {
            assert_eq!(counts[x][y], if x < y { 6 } else { 0 });
        }
    }
}

#[test]
fn dragonfly_host_dealing() {
    let links = host_links(128, 6, 4, 6, 128, 800);
    assert_eq!(links.len(), 128);
    let mut per_router = vec![0u32; 24];
    for (i, l) in links.iter().enumerate() {
        assert_eq!(l[0], i as u32);
        assert_eq!(l[2], 800);
        per_router[(l[1] - 128) as usize] += 1;
    }
    assert_eq!(
        per_router,
        vec![6, 6, 5, 5, 5, 5, 6, 6, 5, 5, 5, 5, 6, 6, 5, 5, 5, 5, 6, 6, 5, 5, 5, 5]
    );
}

#[test]
fn dragonfly_generate_16() {
    let topo = generate(6400, 800, 200, 16, 8).unwrap();
    assert_eq!(topo.routers_per_group, 3);
    assert_eq!(topo.num_groups, 2);
    assert_eq!(topo.hosts_per_router, 7);
    assert_eq!(topo.global_links_per_router, 2);
    assert_eq!(topo.ports_per_switch, 32);
    assert_eq!(topo.links_per_host, 4);
    assert_eq!(topo.total_routers(), 6);
    assert_eq!(topo.router_ports_used(), 32);
    assert_eq!(topo.host_id_range(), (0, 15));
    assert_eq!(topo.router_id_range(), (16, 21));
    let expected: Vec<[u32; 3]> = vec![
        [0, 16, 800], [1, 16, 800], [2, 16, 800], [3, 17, 800], [4, 17, 800], [5, 17, 800],
        [6, 18, 800], [7, 18, 800], [8, 19, 800], [9, 19, 800], [10, 19, 800], [11, 20, 800],
        [12, 20, 800], [13, 20, 800], [14, 21, 800], [15, 21, 800], [16, 17, 200],
        [16, 18, 200], [16, 19, 200], [16, 19, 200], [17, 18, 200], [17, 20, 200],
        [17, 20, 200], [18, 21, 200], [18, 21, 200], [19, 20, 200], [19, 21, 200],
        [20, 21, 200],
    ];
    assert_eq!(topo.links, expected);
    assert_eq!(topo.to_json(), expected);
    let text = "=== Dragonfly High-BW Topology ===\nHosts:              16\n  IDs:              [0, 15]\n  Links/host:       4 x 200G (aggregated: 800G)\nRouters:            6  (a=3, g=2)\n  IDs:              [16, 21]\n  Terminal ports:   28 (p=7, links_per_host=4)\n  Local ports:      2 (a-1=2)\n  Global ports:     2\n  Ports used:       32/32\nGroups:             2\n  Routers/group:    3\n  Hosts/group:      21\n  Intra-group links:3 per group\nTotal links:        28";
    assert_eq!(topo.summary(), text);
}

#[test]
fn dragonfly_generate_128() {
    let topo = generate(6400, 800, 200, 128, 40).unwrap();
    assert_eq!(
        (topo.routers_per_group, topo.global_links_per_router, topo.hosts_per_router, topo.num_groups),
        (6, 3, 6, 4)
    );
    assert_eq!(topo.links.len(), 224);
    assert_eq!(topo.links.len(), 128 + 4 * 15 + 24 * 3 / 2);
    let weighted: u64 = topo
        .links
        .iter()
        .map(|x| x[0] as u64 * 7 + x[1] as u64 * 13 + x[2] as u64)
        .sum();
    assert_eq!(weighted, 679756);
    assert_eq!(topo.links[128], [128, 129, 200]);
    assert_eq!(topo.links[134], [128, 140, 200]);
    assert_eq!(topo.links[135], [128, 146, 200]);
    assert!(topo.links.windows(2).all(|w| w[0] <= w[1]));
    let text = "=== Dragonfly High-BW Topology ===\nHosts:              128\n  IDs:              [0, 127]\n  Links/host:       4 x 200G (aggregated: 800G)\nRouters:            24  (a=6, g=4)\n  IDs:              [128, 151]\n  Terminal ports:   24 (p=6, links_per_host=4)\n  Local ports:      5 (a-1=5)\n  Global ports:     3\n  Ports used:       32/32\nGroups:             4\n  Routers/group:    6\n  Hosts/group:      36\n  Intra-group links:15 per group\nTotal links:        224";
    assert_eq!(topo.summary(), text);
}

#[test]
fn dragonfly_validation_errors() {
    assert_eq!(generate(6400, 800, 200, 0, 8).unwrap_err(), "All values must be positive");
    assert_eq!(
        generate(6400, 800, 199, 16, 8).unwrap_err(),
        "switch_throughput must be divisible by link_bandwidth"
    );
    assert_eq!(
        generate(6400, 810, 200, 16, 8).unwrap_err(),
        "nic_throughput must be divisible by link_bandwidth"
    );
    assert_eq!(validate_inputs(6400, 800, 200, 16), Ok(()));
}

#[test]
fn dragonfly_key_term_in_i32() {
    // 2 * 2^30 terminal ports overflow an i32: the selection cannot proceed.
    assert_eq!(select_config(&vec![(2, 1, 1, 2)], 1 << 30, 1, 100), None);
    // 2^32 - 2 terminal ports read as -2 in i32: the key term is |2 + 4| = 6.
    assert_eq!(select_config(&vec![(2, 1, 1, 2)], 0xffff_fffe, 1, 100), Some((2, 1, 1, 2)));
    // Outside the budget no key is computed.
    assert_eq!(select_config(&vec![(2, 1, 1, 2)], 1 << 30, 1, 3), Some((0, 0, 0, 0)));
}

#[test]
fn dragonfly_wiring_one_router_per_group() {
    assert_eq!(wire_global_links(1, 3, 2), vec![(0, 1), (0, 2), (1, 2)]);
    assert_eq!(pair_groups(1, 3, 2), vec![vec![0, 1, 1], vec![0, 0, 1], vec![0, 0, 0]]);
    assert_eq!(wire_global_links(2, 3, 1), vec![(0, 2), (1, 4), (3, 5)]);
}

#[test]
fn dragonfly_wiring_no_global_links() {
    assert_eq!(wire_global_links(3, 2, 0), Vec::<(u32, u32)>::new());
    assert_eq!(wire_global_links(4, 1, 0), Vec::<(u32, u32)>::new());
    assert_eq!(pair_groups(3, 2, 0), vec![vec![0, 0], vec![0, 0]]);
    assert_eq!(wire_global_links(2, 0, 3), Vec::<(u32, u32)>::new());
    assert_eq!(pair_groups(2, 0, 3), Vec::<Vec<u32>>::new());
}

#[test]
fn dragonfly_router_degrees() {
    let topo = generate(6400, 800, 200, 128, 40).unwrap();
    let n = topo.num_hosts;
    let a = topo.routers_per_group;
    let routers = a * topo.num_groups;
    let group = |x: u32| (x - n) / a;
    let mut local = vec![0u32; routers as usize];
    let mut global = vec![0u32; routers as usize];
    let mut host_links = vec![0u32; n as usize];
    for l in &topo.links {
        assert!(l[0] < l[1] && l[1] < n + routers);
        if l[0] < n {
            assert!(l[1] >= n);
            assert_eq!(l[2], topo.links_per_host * topo.link_bandwidth);
            host_links[l[0] as usize] += 1;
        } else {
            assert_eq!(l[2], topo.link_bandwidth);
            let (x, y) = ((l[0] - n) as usize, (l[1] - n) as usize);
            if group(l[0]) == group(l[1]) {
                local[x] += 1;
                local[y] += 1;
            } else {
                global[x] += 1;
                global[y] += 1;
            }
        }
    }
    assert!(host_links.iter().all(|&c| c == 1));
    assert!(local.iter().all(|&c| c == a - 1));
    assert!(global.iter().all(|&c| c == topo.global_links_per_router));
    assert_eq!(topo.links.len(), 128 + 4 * 6 * 5 / 2 + 6 * 4 * 3 / 2);
    for grp in 0..topo.num_groups {
        for i in 0..a {
            for j in i + 1..a {
                let link = [n + grp * a + i, n + grp * a + j, topo.link_bandwidth];
                assert!(topo.links.contains(&link));
            }
        }
    }
}

#[test]
fn dragonfly_json_round_trip() {
    let topo = generate(6400, 800, 200, 16, 8).unwrap();
    let text = topo.json_text();
    assert!(text.starts_with("[\n  [\n    0,\n    16,\n    800\n  ],"));
    assert_eq!(parse_links(&text), Some(topo.links.clone()));
}

#[test]
fn dragonfly_ready_inputs() {
    assert!(dragonfly_ready_check(6400, 800, 200, 16, 8));
    assert!(dragonfly_ready_check(6400, 800, 200, 128, 40));
    // failing input checks leave nothing to run into
    assert!(dragonfly_ready_check(6400, 800, 200, 0, 8));
    // no shape within a budget of 3 routers
    assert!(!dragonfly_ready_check(6400, 800, 200, 16, 3));
}

#[test]
fn dragonfly_report_lines() {
    let topo = generate(6400, 800, 200, 128, 40).unwrap();
    let report = topo.summary();
    let lines: Vec<&str> = report.lines().collect();
    assert_eq!(lines.len(), 15);
    assert_eq!(lines[4], "Routers:            24  (a=6, g=4)");
    assert_eq!(lines[9], "  Ports used:       32/32");
    assert_eq!(lines[13], "  Intra-group links:15 per group");
    assert_eq!(lines[14], "Total links:        224");
}
