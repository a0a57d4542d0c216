//! The two-layer CLOS (leaf/spine) topology.
//!
//! Hosts get ids `0 .. num_hosts`, leaf switches the next `num_leafs` ids and
//! spine switches the `num_spines` ids after those. Half of every leaf's ports
//! face the hosts and half face the spines, so the fabric is not
//! oversubscribed.

use vstd::prelude::*;
use crate::json::{links_to_json, pretty_json};
use crate::links::{
    bandwidth_from, bandwidth_into, count_from, count_into, link_sum, lemma_uniform_bandwidth_from,
    lemma_uniform_bandwidth_into,
};
use crate::dragonfly_high_bw::hosts::lemma_deal_step;
use crate::text::{decimal, is_line, join_lines, lemma_concat_is_line, lemma_decimal_is_line, lemma_join_push, lemma_report_break, lemma_report_break_bare, lemma_report_piece, fill1, fill2, fill3, message1, message2, message3, push_decimal, push_str, text_of};

verus! {

/// The message returned when an input is zero.
pub open spec fn msg_positive() -> Seq<char> {
    "All throughput/bandwidth values and num_hosts must be positive"@
}

/// `ports_per_switch`: the number of `link_bandwidth` links a switch carries.
pub open spec fn clos_ports(s: u32, l: u32) -> int {
    s as int / l as int
}

/// `links_per_host`: the number of links that bundle into one host NIC.
pub open spec fn clos_links_per_host(n: u32, l: u32) -> int {
    n as int / l as int
}

/// Half the ports of a switch.
pub open spec fn clos_half(s: u32, l: u32) -> int {
    clos_ports(s, l) / 2
}

/// The number of hosts under one leaf.
pub open spec fn clos_hosts_per_leaf(s: u32, n: u32, l: u32) -> int {
    clos_half(s, l) / clos_links_per_host(n, l)
}

/// The number of leaf switches.
pub open spec fn clos_leafs(s: u32, n: u32, l: u32, h: u32) -> int {
    h as int / clos_hosts_per_leaf(s, n, l)
}

/// The most links one leaf/spine pair can carry so that a spine can reach
/// every leaf.
pub open spec fn clos_max_links_per_pair(s: u32, n: u32, l: u32, h: u32) -> int {
    clos_ports(s, l) / clos_leafs(s, n, l, h)
}

/// The number of parallel links between a leaf and a spine.
pub open spec fn clos_links_per_pair(s: u32, n: u32, l: u32, h: u32) -> int {
    largest_divisor_leq_spec(clos_half(s, l), clos_max_links_per_pair(s, n, l, h))
}

/// The number of spine switches.
pub open spec fn clos_spines(s: u32, n: u32, l: u32, h: u32) -> int {
    clos_half(s, l) / clos_links_per_pair(s, n, l, h)
}

/// The error, if any, that the input checks report, in the order they are
/// made.
pub open spec fn clos_validation_error(s: u32, n: u32, l: u32, h: u32) -> Option<Seq<char>> {
    if s == 0 || n == 0 || l == 0 || h == 0 {
        Some(msg_positive())
    } else if s % l != 0 {
        Some(
            fill2(
                "switch_throughput ("@,
                s as nat,
                ") must be divisible by link_bandwidth ("@,
                l as nat,
                ")"@,
            ),
        )
    } else if n % l != 0 {
        Some(
            fill2(
                "nic_throughput ("@,
                n as nat,
                ") must be divisible by link_bandwidth ("@,
                l as nat,
                ")"@,
            ),
        )
    } else if clos_ports(s, l) % 2 != 0 {
        Some(
            fill1(
                "ports_per_switch ("@,
                clos_ports(s, l) as nat,
                ") must be even for non-oversubscribed leaf-spine split"@,
            ),
        )
    } else if clos_half(s, l) % clos_links_per_host(n, l) != 0 {
        Some(
            fill2(
                "Half the switch ports ("@,
                clos_half(s, l) as nat,
                ") must be divisible by links_per_host ("@,
                clos_links_per_host(n, l) as nat,
                ")"@,
            ),
        )
    } else if h as int % clos_hosts_per_leaf(s, n, l) != 0 {
        Some(
            fill2(
                "num_hosts ("@,
                h as nat,
                ") must be divisible by hosts_per_leaf ("@,
                clos_hosts_per_leaf(s, n, l) as nat,
                ")"@,
            ),
        )
    } else {
        None
    }
}

/// What passing the input checks guarantees of the derived quantities.
pub proof fn lemma_clos_valid_facts(s: u32, n: u32, l: u32, h: u32)
    requires
        clos_validation_error(s, n, l, h) is None,
    ensures
        l > 0,
        clos_ports(s, l) * l == s,
        clos_links_per_host(n, l) * l == n,
        clos_ports(s, l) >= 2,
        clos_half(s, l) * 2 == clos_ports(s, l),
        clos_links_per_host(n, l) >= 1,
        clos_hosts_per_leaf(s, n, l) >= 1,
        clos_hosts_per_leaf(s, n, l) * clos_links_per_host(n, l) == clos_half(s, l),
        clos_leafs(s, n, l, h) >= 1,
        clos_leafs(s, n, l, h) * clos_hosts_per_leaf(s, n, l) == h,
{
    let p = clos_ports(s, l);
    let q = clos_links_per_host(n, l);
    let half = clos_half(s, l);
    let hpl = clos_hosts_per_leaf(s, n, l);
    let leafs = clos_leafs(s, n, l, h);
    vstd::arithmetic::div_mod::lemma_fundamental_div_mod(s as int, l as int);
    vstd::arithmetic::div_mod::lemma_fundamental_div_mod(n as int, l as int);
    assert(p * l == s) by (nonlinear_arith)
        requires
            s == l * (s / l) + s % l,
            s % l == 0,
            p == s / l,
    ;
    assert(q * l == n) by (nonlinear_arith)
        requires
            n == l * (n / l) + n % l,
            n % l == 0,
            q == n / l,
    ;
    assert(p >= 1) by (nonlinear_arith)
        requires
            p * l == s,
            s > 0,
            l > 0,
    ;
    assert(q >= 1) by (nonlinear_arith)
        requires
            q * l == n,
            n > 0,
            l > 0,
    ;
    assert(p >= 2);
    assert(half >= 1);
    vstd::arithmetic::div_mod::lemma_fundamental_div_mod(half, q);
    assert(hpl * q == half) by (nonlinear_arith)
        requires
            half == q * (half / q) + half % q,
            half % q == 0,
            hpl == half / q,
    ;
    assert(hpl >= 1) by (nonlinear_arith)
        requires
            hpl * q == half,
            half >= 1,
            q >= 1,
    ;
    vstd::arithmetic::div_mod::lemma_fundamental_div_mod(h as int, hpl);
    assert(leafs * hpl == h) by (nonlinear_arith)
        requires
            h == hpl * (h as int / hpl) + h as int % hpl,
            h as int % hpl == 0,
            leafs == h as int / hpl,
    ;
    assert(leafs >= 1) by (nonlinear_arith)
        requires
            leafs * hpl == h,
            h > 0,
            hpl >= 1,
    ;
}

/// Checks the generator's inputs: all positive, the throughputs multiples
/// of the link bandwidth, an even port count, half the ports a multiple of
/// the links per host, and the host count a multiple of the hosts per leaf.
pub fn validate_inputs(
    switch_throughput: u32,
    nic_throughput: u32,
    link_bandwidth: u32,
    num_hosts: u32,
) -> (res: Result<(), String>)
    ensures
        match res {
            Ok(()) => clos_validation_error(
                switch_throughput,
                nic_throughput,
                link_bandwidth,
                num_hosts,
            ) is None,
            Err(e) => clos_validation_error(
                switch_throughput,
                nic_throughput,
                link_bandwidth,
                num_hosts,
            ) == Some(e@),
        },
{
    let s = switch_throughput;
    let n = nic_throughput;
    let l = link_bandwidth;
    let h = num_hosts;
    if s == 0 || n == 0 || l == 0 || h == 0 {
        return Err(text_of("All throughput/bandwidth values and num_hosts must be positive"));
    }
    if s % l != 0 {
        return Err(
            message2(
                "switch_throughput (",
                s as u64,
                ") must be divisible by link_bandwidth (",
                l as u64,
                ")",
            ),
        );
    }
    if n % l != 0 {
        return Err(
            message2(
                "nic_throughput (",
                n as u64,
                ") must be divisible by link_bandwidth (",
                l as u64,
                ")",
            ),
        );
    }
    let ports_per_switch = s / l;
    if ports_per_switch % 2 != 0 {
        return Err(
            message1(
                "ports_per_switch (",
                ports_per_switch as u64,
                ") must be even for non-oversubscribed leaf-spine split",
            ),
        );
    }
    let links_per_host = n / l;
    let half_ports = ports_per_switch / 2;
    proof {
        vstd::arithmetic::div_mod::lemma_fundamental_div_mod(n as int, l as int);
        assert(links_per_host >= 1) by (nonlinear_arith)
            requires
                n == l * (n / l) + n % l,
                n % l == 0,
                links_per_host == n / l,
                n > 0,
        ;
    }
    if half_ports % links_per_host != 0 {
        return Err(
            message2(
                "Half the switch ports (",
                half_ports as u64,
                ") must be divisible by links_per_host (",
                links_per_host as u64,
                ")",
            ),
        );
    }
    let hosts_per_leaf = half_ports / links_per_host;
    proof {
        lemma_clos_valid_facts_partial(s, n, l, h);
    }
    if h % hosts_per_leaf != 0 {
        return Err(
            message2(
                "num_hosts (",
                h as u64,
                ") must be divisible by hosts_per_leaf (",
                hosts_per_leaf as u64,
                ")",
            ),
        );
    }
    Ok(())
}

/// Up to the last check, the hosts-per-leaf divisor is positive.
proof fn lemma_clos_valid_facts_partial(s: u32, n: u32, l: u32, h: u32)
    requires
        s > 0,
        n > 0,
        l > 0,
        s % l == 0,
        n % l == 0,
        clos_ports(s, l) % 2 == 0,
        clos_half(s, l) % clos_links_per_host(n, l) == 0,
    ensures
        clos_hosts_per_leaf(s, n, l) >= 1,
{
    let p = clos_ports(s, l);
    let q = clos_links_per_host(n, l);
    let half = clos_half(s, l);
    let hpl = clos_hosts_per_leaf(s, n, l);
    vstd::arithmetic::div_mod::lemma_fundamental_div_mod(s as int, l as int);
    vstd::arithmetic::div_mod::lemma_fundamental_div_mod(n as int, l as int);
    assert(p >= 1) by (nonlinear_arith)
        requires
            s == l * (s / l) + s % l,
            s % l == 0,
            p == s / l,
            s > 0,
    ;
    assert(q >= 1) by (nonlinear_arith)
        requires
            n == l * (n / l) + n % l,
            n % l == 0,
            q == n / l,
            n > 0,
    ;
    vstd::arithmetic::div_mod::lemma_fundamental_div_mod(half, q);
    assert(hpl >= 1) by (nonlinear_arith)
        requires
            half == q * (half / q) + half % q,
            half % q == 0,
            hpl == half / q,
            half >= 1,
            q >= 1,
    ;
}

/// The largest `d` with `1 <= d <= top` that divides `n`, searching down
/// from `top`; `1` when there is none.
pub open spec fn largest_divisor_from(n: int, top: int) -> int
    decreases top,
{
    if top <= 1 {
        1
    } else if n % top == 0 {
        top
    } else {
        largest_divisor_from(n, top - 1)
    }
}

/// The largest divisor of `n` that is at most `cap` (and at most `n`), or
/// `1` when the range is empty.
pub open spec fn largest_divisor_leq_spec(n: int, cap: int) -> int {
    largest_divisor_from(n, if cap < n { cap } else { n })
}

/// The search result is a divisor, within range, and no larger divisor is.
pub proof fn lemma_largest_divisor_from(n: int, top: int)
    requires
        n >= 0,
    ensures
        1 <= largest_divisor_from(n, top),
        largest_divisor_from(n, top) <= if top < 1 { 1 } else { top },
        n % largest_divisor_from(n, top) == 0,
        forall|e: int| largest_divisor_from(n, top) < e <= top ==> #[trigger] (n % e) != 0,
    decreases top,
{
    if top > 1 && n % top != 0 {
        lemma_largest_divisor_from(n, top - 1);
    }
}

/// The largest divisor of `n` that does not exceed `cap` (nor `n`).
pub fn largest_divisor_leq(n: u32, cap: u32) -> (d: u32)
    ensures
        d == largest_divisor_leq_spec(n as int, cap as int),
        1 <= d,
        n % d == 0,
        forall|e: int| d < e <= cap && e <= n ==> #[trigger] (n as int % e) != 0,
{
    let top = if cap < n { cap } else { n };
    proof {
        lemma_largest_divisor_from(n as int, top as int);
    }
    let mut d = top;
    while d > 1
        invariant
            d <= top,
            top == (if cap < n { cap } else { n }),
            largest_divisor_from(n as int, top as int) == largest_divisor_from(n as int, d as int),
            1 <= largest_divisor_from(n as int, top as int),
            n as int % largest_divisor_from(n as int, top as int) == 0,
            forall|e: int|
                largest_divisor_from(n as int, top as int) < e <= top ==> #[trigger] (n as int % e)
                    != 0,
        decreases d,
    {
        if n % d == 0 {
            return d;
        }
        d = d - 1;
    }
    1
}

/// A generated two-layer CLOS topology.
#[derive(Debug, Clone)]
pub struct ClosTopology {
    pub num_hosts: u32,
    pub num_leafs: u32,
    pub num_spines: u32,
    pub ports_per_switch: u32,
    pub links_per_host: u32,
    pub hosts_per_leaf: u32,
    pub links_per_leaf_spine_pair: u32,
    pub leaf_south_ports_used: u32,
    pub leaf_north_ports_used: u32,
    pub spine_ports_used: u32,
    pub link_bandwidth: u32,
    /// `[src, dst, bandwidth]` for every (aggregated) link.
    pub links: Vec<[u32; 3]>,
}

impl ClosTopology {
    /// Leaf and spine switches together.
    pub fn total_switches(&self) -> (r: u32)
        requires
            self.num_leafs + self.num_spines <= u32::MAX,
        ensures
            r == self.num_leafs + self.num_spines,
    {
        self.num_leafs + self.num_spines
    }

    /// The first and last host id.
    pub fn host_id_range(&self) -> (r: (u32, u32))
        requires
            self.num_hosts >= 1,
        ensures
            r == (0u32, (self.num_hosts - 1) as u32),
    {
        (0, self.num_hosts - 1)
    }

    /// The first and last leaf id: the leaves follow the hosts.
    pub fn leaf_id_range(&self) -> (r: (u32, u32))
        requires
            1 <= self.num_hosts + self.num_leafs <= u32::MAX,
        ensures
            r == (self.num_hosts, (self.num_hosts + self.num_leafs - 1) as u32),
    {
        let start = self.num_hosts;
        (start, start + self.num_leafs - 1)
    }

    /// The first and last spine id: the spines follow the leaves.
    pub fn spine_id_range(&self) -> (r: (u32, u32))
        requires
            1 <= self.num_hosts + self.num_leafs + self.num_spines <= u32::MAX,
        ensures
            r == (
                (self.num_hosts + self.num_leafs) as u32,
                (self.num_hosts + self.num_leafs + self.num_spines - 1) as u32,
            ),
    {
        let start = self.num_hosts + self.num_leafs;
        (start, start + self.num_spines - 1)
    }

    /// A multi-line report of the topology's sizes, id ranges and port use.
    pub fn summary(&self) -> (r: String)
        requires
            self.summary_fits(),
        ensures
            r@ == self.summary_text(),
    {
        let (h0, h1) = self.host_id_range();
        let (l0, l1) = self.leaf_id_range();
        let (s0, s1) = self.spine_id_range();
        let half = self.ports_per_switch / 2;
        let mut r = text_of("=== 2-Layer CLOS Topology ===\nHosts:          ");
        push_decimal(&mut r, self.num_hosts as u64);
        push_str(&mut r, "\n  IDs:          [");
        push_decimal(&mut r, h0 as u64);
        push_str(&mut r, ", ");
        push_decimal(&mut r, h1 as u64);
        push_str(&mut r, "]\n  Links/host:   ");
        push_decimal(&mut r, self.links_per_host as u64);
        push_str(&mut r, " x ");
        push_decimal(&mut r, self.link_bandwidth as u64);
        push_str(&mut r, "G (aggregated: ");
        push_decimal(&mut r, (self.links_per_host * self.link_bandwidth) as u64);
        push_str(&mut r, "G)\nLeaf switches:  ");
        push_decimal(&mut r, self.num_leafs as u64);
        push_str(&mut r, "\n  IDs:          [");
        push_decimal(&mut r, l0 as u64);
        push_str(&mut r, ", ");
        push_decimal(&mut r, l1 as u64);
        push_str(&mut r, "]\n  South ports:  ");
        push_decimal(&mut r, self.leaf_south_ports_used as u64);
        push_str(&mut r, "/");
        push_decimal(&mut r, half as u64);
        push_str(&mut r, " used\n  North ports:  ");
        push_decimal(&mut r, self.leaf_north_ports_used as u64);
        push_str(&mut r, "/");
        push_decimal(&mut r, half as u64);
        push_str(&mut r, " used\n  Total ports:  ");
        push_decimal(&mut r, (self.leaf_south_ports_used + self.leaf_north_ports_used) as u64);
        push_str(&mut r, "/");
        push_decimal(&mut r, self.ports_per_switch as u64);
        push_str(&mut r, " used\nSpine switches: ");
        push_decimal(&mut r, self.num_spines as u64);
        push_str(&mut r, "\n  IDs:          [");
        push_decimal(&mut r, s0 as u64);
        push_str(&mut r, ", ");
        push_decimal(&mut r, s1 as u64);
        push_str(&mut r, "]\n  Ports used:   ");
        push_decimal(&mut r, self.spine_ports_used as u64);
        push_str(&mut r, "/");
        push_decimal(&mut r, self.ports_per_switch as u64);
        push_str(&mut r, " used\nTotal switches: ");
        push_decimal(&mut r, self.total_switches() as u64);
        push_str(&mut r, "\nTotal links:    ");
        push_decimal(&mut r, self.links.len() as u64);
        r
    }

    /// The values that the report computes all fit in a `u32`.
    pub open spec fn summary_fits(&self) -> bool {
        &&& 1 <= self.num_hosts
        &&& self.num_hosts + self.num_leafs + self.num_spines <= u32::MAX
        &&& self.links_per_host * self.link_bandwidth <= u32::MAX
        &&& self.leaf_south_ports_used + self.leaf_north_ports_used <= u32::MAX
    }

    /// The text of the report.
    pub open spec fn summary_text(&self) -> Seq<char> {
        let h = self.num_hosts as nat;
        let half = (self.ports_per_switch / 2) as nat;
        "=== 2-Layer CLOS Topology ===\nHosts:          "@ + decimal(h) + "\n  IDs:          ["@
            + decimal(0) + ", "@ + decimal((h - 1) as nat) + "]\n  Links/host:   "@ + decimal(
            self.links_per_host as nat,
        ) + " x "@ + decimal(self.link_bandwidth as nat) + "G (aggregated: "@ + decimal(
            (self.links_per_host * self.link_bandwidth) as nat,
        ) + "G)\nLeaf switches:  "@ + decimal(self.num_leafs as nat) + "\n  IDs:          ["@
            + decimal(h) + ", "@ + decimal((h + self.num_leafs - 1) as nat)
            + "]\n  South ports:  "@ + decimal(self.leaf_south_ports_used as nat) + "/"@ + decimal(
            half,
        ) + " used\n  North ports:  "@ + decimal(self.leaf_north_ports_used as nat) + "/"@
            + decimal(half) + " used\n  Total ports:  "@ + decimal(
            (self.leaf_south_ports_used + self.leaf_north_ports_used) as nat,
        ) + "/"@ + decimal(self.ports_per_switch as nat) + " used\nSpine switches: "@ + decimal(
            self.num_spines as nat,
        ) + "\n  IDs:          ["@ + decimal((h + self.num_leafs) as nat) + ", "@ + decimal(
            (h + self.num_leafs + self.num_spines - 1) as nat,
        ) + "]\n  Ports used:   "@ + decimal(self.spine_ports_used as nat) + "/"@ + decimal(
            self.ports_per_switch as nat,
        ) + " used\nTotal switches: "@ + decimal((self.num_leafs + self.num_spines) as nat)
            + "\nTotal links:    "@ + decimal(self.links@.len())
    }

    /// The link list as pretty-printed JSON, the text that is written to a
    /// topology file.
    pub fn json_text(&self) -> (r: String)
        ensures
            r@ == pretty_json(self.links@),
    {
        let links = self.to_json();
        links_to_json(&links)
    }

    /// The link list, `[src, dst, bandwidth]` per link.
    pub fn to_json(&self) -> (r: Vec<[u32; 3]>)
        ensures
            r@ == self.links@,
    {
        let mut r: Vec<[u32; 3]> = Vec::new();
        let mut i: usize = 0;
        while i < self.links.len()
            invariant
                i <= self.links@.len(),
                r@ == self.links@.subrange(0, i as int),
            decreases self.links@.len() - i,
        {
            r.push(self.links[i]);
            i = i + 1;
        }
        r
    }
}

/// A link as a triple of integers `(src, dst, bandwidth)`.
pub open spec fn link_triple(x: [u32; 3]) -> (int, int, int) {
    (x[0] as int, x[1] as int, x[2] as int)
}

/// The error, if any, that generation reports: a failed input check, or a
/// leaf count larger than the port count of a spine.
pub open spec fn clos_error(s: u32, n: u32, l: u32, h: u32) -> Option<Seq<char>> {
    match clos_validation_error(s, n, l, h) {
        Some(m) => Some(m),
        None => if clos_max_links_per_pair(s, n, l, h) < 1 {
            Some(
                fill3(
                    "Cannot build topology: "@,
                    clos_leafs(s, n, l, h) as nat,
                    " leafs require spines with >= "@,
                    clos_leafs(s, n, l, h) as nat,
                    " ports, but switches only have "@,
                    clos_ports(s, l) as nat,
                    " ports."@,
                ),
            )
        } else {
            None
        },
    }
}

/// The `i`-th link of the generated topology: first one link per host, to
/// its leaf (hosts fill the leaves in order), then one link from every leaf
/// to every spine, leaf by leaf.
pub open spec fn clos_link(
    num_hosts: int,
    num_leafs: int,
    num_spines: int,
    hosts_per_leaf: int,
    host_bw: int,
    uplink_bw: int,
    i: int,
) -> (int, int, int) {
    if i < num_hosts {
        (i, num_hosts + i / hosts_per_leaf, host_bw)
    } else {
        let j = i - num_hosts;
        (num_hosts + j / num_spines, num_hosts + num_leafs + j % num_spines, uplink_bw)
    }
}

/// Every id the topology would use fits in a `u32`.
pub open spec fn clos_ids_fit(s: u32, n: u32, l: u32, h: u32) -> bool {
    clos_error(s, n, l, h) is None ==> h + clos_leafs(s, n, l, h) + clos_spines(s, n, l, h)
        <= u32::MAX + 1
}

/// Tells whether every id of the topology that `generate` would build fits
/// in a `u32` (always true when the inputs are rejected).
pub fn ids_fit(s: u32, n: u32, l: u32, h: u32) -> (r: bool)
    ensures
        r == clos_ids_fit(s, n, l, h),
{
    match validate_inputs(s, n, l, h) {
        Err(_) => {
            return true;
        },
        Ok(()) => {},
    }
    proof {
        lemma_clos_valid_facts(s, n, l, h);
    }
    let ports_per_switch = s / l;
    let half_ports = ports_per_switch / 2;
    let hosts_per_leaf = half_ports / (n / l);
    let num_leafs = h / hosts_per_leaf;
    let max_links_per_pair = ports_per_switch / num_leafs;
    if max_links_per_pair < 1 {
        return true;
    }
    proof {
        lemma_clos_plan_facts(s, n, l, h);
    }
    let pair = largest_divisor_leq(half_ports, max_links_per_pair);
    let num_spines = half_ports / pair;
    h as u64 + num_leafs as u64 + num_spines as u64 <= u32::MAX as u64 + 1
}

/// What a successful generation guarantees of the derived quantities.
pub proof fn lemma_clos_plan_facts(s: u32, n: u32, l: u32, h: u32)
    requires
        clos_error(s, n, l, h) is None,
    ensures
        clos_max_links_per_pair(s, n, l, h) >= 1,
        1 <= clos_links_per_pair(s, n, l, h) <= clos_max_links_per_pair(s, n, l, h),
        clos_links_per_pair(s, n, l, h) <= clos_half(s, l),
        clos_half(s, l) % clos_links_per_pair(s, n, l, h) == 0,
        clos_spines(s, n, l, h) >= 1,
        clos_spines(s, n, l, h) * clos_links_per_pair(s, n, l, h) == clos_half(s, l),
        clos_leafs(s, n, l, h) * clos_links_per_pair(s, n, l, h) <= clos_ports(s, l),
        clos_leafs(s, n, l, h) * clos_max_links_per_pair(s, n, l, h) <= clos_ports(s, l),
{
    lemma_clos_valid_facts(s, n, l, h);
    let p = clos_ports(s, l);
    let half = clos_half(s, l);
    let leafs = clos_leafs(s, n, l, h);
    let mx = clos_max_links_per_pair(s, n, l, h);
    let pair = clos_links_per_pair(s, n, l, h);
    let top = if mx < half { mx } else { half };
    lemma_largest_divisor_from(half, top);
    assert(pair == largest_divisor_from(half, top));
    vstd::arithmetic::div_mod::lemma_fundamental_div_mod(half, pair);
    assert(clos_spines(s, n, l, h) * pair == half) by (nonlinear_arith)
        requires
            half == pair * (half / pair) + half % pair,
            half % pair == 0,
            clos_spines(s, n, l, h) == half / pair,
    ;
    assert(clos_spines(s, n, l, h) >= 1) by (nonlinear_arith)
        requires
            clos_spines(s, n, l, h) * pair == half,
            half >= 1,
            pair >= 1,
    ;
    vstd::arithmetic::div_mod::lemma_fundamental_div_mod(p, leafs);
    assert(leafs * mx <= p) by (nonlinear_arith)
        requires
            p == leafs * (p / leafs) + p % leafs,
            p % leafs >= 0,
            mx == p / leafs,
    ;
    assert(leafs * pair <= leafs * mx) by (nonlinear_arith)
        requires
            pair <= mx,
            leafs >= 1,
    ;
}

/// Builds a CLOS topology from the switch throughput, the NIC throughput,
/// the bandwidth of one link and the number of hosts.
///
/// Each leaf uses half its ports for hosts and half for spines; the number
/// of parallel links per leaf/spine pair is the largest divisor of half the
/// port count that still lets a spine reach every leaf.
pub fn generate(
    switch_throughput: u32,
    nic_throughput: u32,
    link_bandwidth: u32,
    num_hosts: u32,
) -> (res: Result<ClosTopology, String>)
    requires
        clos_ids_fit(switch_throughput, nic_throughput, link_bandwidth, num_hosts),
    ensures
        match res {
            Err(e) => clos_error(switch_throughput, nic_throughput, link_bandwidth, num_hosts)
                == Some(e@),
            Ok(t) => clos_error(switch_throughput, nic_throughput, link_bandwidth, num_hosts)
                is None && clos_generated(
                t,
                switch_throughput,
                nic_throughput,
                link_bandwidth,
                num_hosts,
            ),
        },
{
    let s = switch_throughput;
    let n = nic_throughput;
    let l = link_bandwidth;
    let h = num_hosts;
    match validate_inputs(s, n, l, h) {
        Err(e) => {
            return Err(e);
        },
        Ok(()) => {},
    }
    proof {
        lemma_clos_valid_facts(s, n, l, h);
    }
    let ports_per_switch = s / l;
    let links_per_host = n / l;
    let half_ports = ports_per_switch / 2;
    let hosts_per_leaf = half_ports / links_per_host;
    let num_leafs = h / hosts_per_leaf;
    let leaf_south_ports_used = hosts_per_leaf * links_per_host;
    let max_links_per_pair = ports_per_switch / num_leafs;
    if max_links_per_pair < 1 {
        return Err(
            message3(
                "Cannot build topology: ",
                num_leafs as u64,
                " leafs require spines with >= ",
                num_leafs as u64,
                " ports, but switches only have ",
                ports_per_switch as u64,
                " ports.",
            ),
        );
    }
    proof {
        lemma_clos_plan_facts(s, n, l, h);
    }
    let links_per_leaf_spine_pair = largest_divisor_leq(half_ports, max_links_per_pair);
    let num_spines = half_ports / links_per_leaf_spine_pair;
    let spine_ports_used = num_leafs * links_per_leaf_spine_pair;
    let leaf_north_ports_used = num_spines * links_per_leaf_spine_pair;
    let leaf_id_start = h;
    let spine_id_start = h + num_leafs;
    let agg_host_bw = links_per_host * l;
    proof {
        assert(links_per_leaf_spine_pair * l <= ports_per_switch * l) by (nonlinear_arith)
            requires
                links_per_leaf_spine_pair <= ports_per_switch,
                l >= 1,
        ;
    }
    let agg_uplink_bw = links_per_leaf_spine_pair * l;
    let ghost hpl = hosts_per_leaf as int;
    let ghost nl = num_leafs as int;
    let ghost ns = num_spines as int;
    let ghost hbw = agg_host_bw as int;
    let ghost ubw = agg_uplink_bw as int;
    assert(h + nl + ns <= u32::MAX + 1);
    let mut links: Vec<[u32; 3]> = Vec::new();
    // Host-to-leaf
    let mut leaf_idx: u32 = 0;
    while leaf_idx < num_leafs
        invariant
            0 <= leaf_idx <= num_leafs,
            nl * hpl == h,
            hpl >= 1,
            hpl == hosts_per_leaf,
            nl == num_leafs,
            ns >= 1,
            h + nl + ns <= u32::MAX + 1,
            leaf_id_start == h,
            hbw == agg_host_bw,
            links@.len() == leaf_idx * hpl,
            forall|i: int|
                0 <= i < links@.len() ==> link_triple(#[trigger] links@[i]) == clos_link(
                    h as int,
                    nl,
                    ns,
                    hpl,
                    hbw,
                    ubw,
                    i,
                ),
        decreases num_leafs - leaf_idx,
    {
        let leaf_id = leaf_id_start + leaf_idx;
        let mut k: u32 = 0;
        while k < hosts_per_leaf
            invariant
                0 <= leaf_idx < num_leafs,
                0 <= k <= hpl,
                nl * hpl == h,
                hpl >= 1,
                hpl == hosts_per_leaf,
                nl == num_leafs,
                leaf_id == h + leaf_idx,
                hbw == agg_host_bw,
                links@.len() == leaf_idx * hpl + k,
                forall|i: int|
                    0 <= i < links@.len() ==> link_triple(#[trigger] links@[i]) == clos_link(
                        h as int,
                        nl,
                        ns,
                        hpl,
                        hbw,
                        ubw,
                        i,
                    ),
            decreases hosts_per_leaf - k,
        {
            proof {
                assert(leaf_idx * hpl + k < h) by (nonlinear_arith)
                    requires
                        leaf_idx < nl,
                        k < hpl,
                        nl * hpl == h,
                ;
                vstd::arithmetic::div_mod::lemma_fundamental_div_mod_converse(
                    leaf_idx * hpl + k,
                    hpl,
                    leaf_idx as int,
                    k as int,
                );
            }
            let host_id = leaf_idx * hosts_per_leaf + k;
            links.push([host_id, leaf_id, agg_host_bw]);
            k = k + 1;
        }
        proof {
            assert(leaf_idx * hpl + hpl == (leaf_idx + 1) * hpl) by (nonlinear_arith);
        }
        leaf_idx = leaf_idx + 1;
    }
    // Leaf-to-spine
    let mut leaf_idx: u32 = 0;
    while leaf_idx < num_leafs
        invariant
            0 <= leaf_idx <= num_leafs,
            nl * hpl == h,
            ns >= 1,
            ns == num_spines,
            nl == num_leafs,
            leaf_id_start == h,
            spine_id_start == h + nl,
            h + nl + ns <= u32::MAX + 1,
            ubw == agg_uplink_bw,
            links@.len() == h + leaf_idx * ns,
            forall|i: int|
                0 <= i < links@.len() ==> link_triple(#[trigger] links@[i]) == clos_link(
                    h as int,
                    nl,
                    ns,
                    hpl,
                    hbw,
                    ubw,
                    i,
                ),
        decreases num_leafs - leaf_idx,
    {
        let leaf_id = leaf_id_start + leaf_idx;
        let mut k: u32 = 0;
        while k < num_spines
            invariant
                0 <= leaf_idx < num_leafs,
                0 <= k <= ns,
                ns == num_spines,
                nl == num_leafs,
                leaf_id == h + leaf_idx,
                spine_id_start == h + nl,
                h + nl + ns <= u32::MAX + 1,
                ubw == agg_uplink_bw,
                links@.len() == h + leaf_idx * ns + k,
                forall|i: int|
                    0 <= i < links@.len() ==> link_triple(#[trigger] links@[i]) == clos_link(
                        h as int,
                        nl,
                        ns,
                        hpl,
                        hbw,
                        ubw,
                        i,
                    ),
            decreases num_spines - k,
        {
            proof {
                vstd::arithmetic::div_mod::lemma_fundamental_div_mod_converse(
                    leaf_idx * ns + k,
                    ns,
                    leaf_idx as int,
                    k as int,
                );
            }
            let spine_id = spine_id_start + k;
            links.push([leaf_id, spine_id, agg_uplink_bw]);
            k = k + 1;
        }
        proof {
            assert(leaf_idx * ns + ns == (leaf_idx + 1) * ns) by (nonlinear_arith);
        }
        leaf_idx = leaf_idx + 1;
    }
    Ok(
        ClosTopology {
            num_hosts: h,
            num_leafs,
            num_spines,
            ports_per_switch,
            links_per_host,
            hosts_per_leaf,
            links_per_leaf_spine_pair,
            leaf_south_ports_used,
            leaf_north_ports_used,
            spine_ports_used,
            link_bandwidth: l,
            links,
        },
    )
}

/// `v` clamped to `0 ..= d`.
pub open spec fn clamp_to(v: int, d: int) -> int {
    if v < 0 {
        0
    } else if v > d {
        d
    } else {
        v
    }
}

/// `m / d == c` exactly when `m` lies in `c * d .. c * d + d`.
proof fn lemma_div_window(m: int, d: int, c: int)
    requires
        m >= 0,
        d >= 1,
        c >= 0,
    ensures
        (m / d == c) <==> (c * d <= m < c * d + d),
{
    vstd::arithmetic::div_mod::lemma_fundamental_div_mod(m, d);
    let q = m / d;
    let r = m % d;
    if q < c {
        assert(m < c * d) by (nonlinear_arith)
            requires
                m == d * q + r,
                r < d,
                q < c,
                d >= 1,
        ;
    } else if q > c {
        assert(m >= c * d + d) by (nonlinear_arith)
            requires
                m == d * q + r,
                r >= 0,
                q > c,
                d >= 1,
        ;
    } else {
        assert(c * d <= m < c * d + d) by (nonlinear_arith)
            requires
                m == d * q + r,
                0 <= r < d,
                q == c,
        ;
    }
}

/// How many of the first `m` links of a CLOS link list leave and reach node
/// `x`.
proof fn lemma_clos_link_counts(
    s: Seq<[u32; 3]>,
    nh: int,
    nl: int,
    ns: int,
    hpl: int,
    hbw: int,
    ubw: int,
    x: int,
    m: int,
)
    requires
        nh == nl * hpl,
        nl >= 0,
        hpl >= 1,
        ns >= 1,
        s.len() == nh + nl * ns,
        forall|i: int|
            0 <= i < s.len() ==> link_triple(#[trigger] s[i]) == clos_link(nh, nl, ns, hpl, hbw, ubw, i),
        0 <= m <= s.len(),
    ensures
        0 <= x < nh ==> link_sum(s.take(m), count_from(x)) == (if x < m {
            1int
        } else {
            0
        }) && link_sum(s.take(m), count_into(x)) == 0,
        nh <= x < nh + nl ==> link_sum(s.take(m), count_from(x)) == clamp_to(
            m - nh - (x - nh) * ns,
            ns,
        ) && link_sum(s.take(m), count_into(x)) == clamp_to(
            (if m < nh {
                m
            } else {
                nh
            }) - (x - nh) * hpl,
            hpl,
        ),
        nh + nl <= x < nh + nl + ns ==> link_sum(s.take(m), count_from(x)) == 0 && link_sum(
            s.take(m),
            count_into(x),
        ) == (if m <= nh {
            0
        } else {
            (m - nh) / ns + (if x - nh - nl < (m - nh) % ns {
                1int
            } else {
                0
            })
        }),
    decreases m,
{
    assert(nh >= 0) by (nonlinear_arith)
        requires
            nh == nl * hpl,
            nl >= 0,
            hpl >= 1,
    ;
    if m == 0 {
        assert(s.take(0) =~= Seq::<[u32; 3]>::empty());
        if nh <= x < nh + nl {
            assert((x - nh) * ns >= 0 && (x - nh) * hpl >= 0) by (nonlinear_arith)
                requires
                    x - nh >= 0,
                    ns >= 1,
                    hpl >= 1,
            ;
        }
    } else {
        let k = m - 1;
        lemma_clos_link_counts(s, nh, nl, ns, hpl, hbw, ubw, x, k);
        assert(s.take(m).drop_last() =~= s.take(k));
        assert(s.take(m).last() == s[k]);
        assert(link_triple(s[k]) == clos_link(nh, nl, ns, hpl, hbw, ubw, k));
        if k < nh {
            vstd::arithmetic::div_mod::lemma_fundamental_div_mod(k, hpl);
            assert(0 <= k / hpl < nl) by (nonlinear_arith)
                requires
                    0 <= k < nh,
                    nh == nl * hpl,
                    hpl >= 1,
            ;
            if nh <= x < nh + nl {
                lemma_div_window(k, hpl, x - nh);
                assert((x - nh) * ns >= 0) by (nonlinear_arith)
                    requires
                        x - nh >= 0,
                        ns >= 1,
                ;
            }
        } else {
            let j = k - nh;
            assert(j < nl * ns);
            vstd::arithmetic::div_mod::lemma_fundamental_div_mod(j, ns);
            assert(0 <= j / ns < nl) by (nonlinear_arith)
                requires
                    0 <= j < nl * ns,
                    ns >= 1,
            ;
            if nh <= x < nh + nl {
                lemma_div_window(j, ns, x - nh);
                assert((x - nh) * hpl <= nh) by (nonlinear_arith)
                    requires
                        x - nh < nl,
                        nh == nl * hpl,
                        hpl >= 1,
                ;
            }
            if nh + nl <= x < nh + nl + ns {
                let pos = x - nh - nl;
                if j == 0 {
                    vstd::arithmetic::div_mod::lemma_fundamental_div_mod_converse(0, ns, 0, 0);
                }
                lemma_deal_step(j, ns, pos);
            }
        }
    }
}

/// How many links, and how much bandwidth, leave and reach node `x` of a
/// generated CLOS topology.
proof fn lemma_clos_node(t: ClosTopology, s: u32, n: u32, l: u32, h: u32, x: int)
    requires
        clos_error(s, n, l, h) is None,
        clos_generated(t, s, n, l, h),
    ensures
        0 <= x < t.num_hosts ==> {
            &&& link_sum(t.links@, count_from(x)) == 1
            &&& link_sum(t.links@, count_into(x)) == 0
            &&& link_sum(t.links@, bandwidth_from(x)) == n
            &&& link_sum(t.links@, bandwidth_into(x)) == 0
        },
        t.num_hosts <= x < t.num_hosts + t.num_leafs ==> {
            &&& link_sum(t.links@, count_from(x)) == t.num_spines
            &&& link_sum(t.links@, count_into(x)) == t.hosts_per_leaf
            &&& link_sum(t.links@, bandwidth_from(x)) == s / 2
            &&& link_sum(t.links@, bandwidth_into(x)) == s / 2
        },
        t.num_hosts + t.num_leafs <= x < t.num_hosts + t.num_leafs + t.num_spines ==> {
            &&& link_sum(t.links@, count_from(x)) == 0
            &&& link_sum(t.links@, count_into(x)) == t.num_leafs
            &&& link_sum(t.links@, bandwidth_from(x)) == 0
            &&& link_sum(t.links@, bandwidth_into(x)) == t.spine_ports_used * l
        },
{
    lemma_clos_valid_facts(s, n, l, h);
    lemma_clos_plan_facts(s, n, l, h);
    let links = t.links@;
    let nh = h as int;
    let hpl = t.hosts_per_leaf as int;
    let nl = t.num_leafs as int;
    let ns = t.num_spines as int;
    let pair = t.links_per_leaf_spine_pair as int;
    let q = t.links_per_host as int;
    let len = links.len() as int;
    let hbw = q * l;
    let ubw = pair * l;
    assert(links.take(len) =~= links);
    lemma_clos_link_counts(links, nh, nl, ns, hpl, hbw, ubw, x, len);
    assert forall|i: int| 0 <= i < len implies {
        &&& (i < nh ==> links[i][0] == i && links[i][2] == hbw && nh <= links[i][1] < nh + nl)
        &&& (i >= nh ==> nh <= links[i][0] < nh + nl && nh + nl <= links[i][1] && links[i][2] == ubw)
    } by {
        assert(link_triple(links[i]) == clos_link(nh, nl, ns, hpl, hbw, ubw, i));
        if i < nh {
            assert(0 <= i / hpl < nl) by (nonlinear_arith)
                requires
                    0 <= i < nh,
                    nh == nl * hpl,
                    hpl >= 1,
            ;
        } else {
            assert(0 <= (i - nh) / ns < nl) by (nonlinear_arith)
                requires
                    0 <= i - nh < nl * ns,
                    ns >= 1,
            ;
            assert(0 <= (i - nh) % ns) by (nonlinear_arith)
                requires
                    ns >= 1,
            ;
        }
    }
    assert(hbw == n);
    assert(s as int == 2 * (hpl * hbw)) by (nonlinear_arith)
        requires
            hpl * q == clos_half(s, l),
            clos_half(s, l) * 2 == clos_ports(s, l),
            clos_ports(s, l) * l == s,
            hbw == q * l,
    ;
    assert(s as int == 2 * (ns * ubw)) by (nonlinear_arith)
        requires
            ns * pair == clos_half(s, l),
            clos_half(s, l) * 2 == clos_ports(s, l),
            clos_ports(s, l) * l == s,
            ubw == pair * l,
    ;
    if 0 <= x < nh {
        lemma_uniform_bandwidth_from(links, x, hbw);
        lemma_uniform_bandwidth_into(links, x, 0);
        assert(hbw * 1 == hbw);
    } else if nh <= x < nh + nl {
        assert(len - nh - (x - nh) * ns >= ns) by (nonlinear_arith)
            requires
                len - nh == nl * ns,
                0 <= x - nh < nl,
                ns >= 1,
        {
            assert((nl - (x - nh)) * ns >= ns) by (nonlinear_arith)
                requires
                    nl - (x - nh) >= 1,
                    ns >= 1,
            ;
        }
        assert(nh - (x - nh) * hpl >= hpl) by (nonlinear_arith)
            requires
                nh == nl * hpl,
                0 <= x - nh < nl,
                hpl >= 1,
        {
            assert((nl - (x - nh)) * hpl >= hpl) by (nonlinear_arith)
                requires
                    nl - (x - nh) >= 1,
                    hpl >= 1,
            ;
        }
        lemma_uniform_bandwidth_from(links, x, ubw);
        lemma_uniform_bandwidth_into(links, x, hbw);
        assert(ubw * ns == ns * ubw) by (nonlinear_arith);
        assert(hbw * hpl == hpl * hbw) by (nonlinear_arith);
    } else if nh + nl <= x < nh + nl + ns {
        vstd::arithmetic::div_mod::lemma_fundamental_div_mod_converse(nl * ns, ns, nl, 0);
        lemma_uniform_bandwidth_from(links, x, 0);
        lemma_uniform_bandwidth_into(links, x, ubw);
        assert(ubw * nl == nl * pair * l) by (nonlinear_arith)
            requires
                ubw == pair * l,
        ;
    }
}

/// The report of a CLOS fabric whose leaves use all their ports, half south
/// and half north: `hosts` hosts with `lph` links of `bw` each, `leafs` leaf
/// and `spines` spine switches of `ports` ports, `spine_used` ports used per
/// spine and `links` links.
pub open spec fn clos_report(
    hosts: nat,
    lph: nat,
    bw: nat,
    leafs: nat,
    spines: nat,
    ports: nat,
    spine_used: nat,
    links: nat,
) -> Seq<char> {
    let half = ports / 2;
    "=== 2-Layer CLOS Topology ===\nHosts:          "@ + decimal(hosts) + "\n  IDs:          ["@
        + decimal(0) + ", "@ + decimal((hosts - 1) as nat) + "]\n  Links/host:   "@ + decimal(lph)
        + " x "@ + decimal(bw) + "G (aggregated: "@ + decimal(lph * bw) + "G)\nLeaf switches:  "@
        + decimal(leafs) + "\n  IDs:          ["@ + decimal(hosts) + ", "@ + decimal(
        (hosts + leafs - 1) as nat,
    ) + "]\n  South ports:  "@ + decimal(half) + "/"@ + decimal(half) + " used\n  North ports:  "@
        + decimal(half) + "/"@ + decimal(half) + " used\n  Total ports:  "@ + decimal(ports) + "/"@
        + decimal(ports) + " used\nSpine switches: "@ + decimal(spines) + "\n  IDs:          ["@
        + decimal(hosts + leafs) + ", "@ + decimal((hosts + leafs + spines - 1) as nat)
        + "]\n  Ports used:   "@ + decimal(spine_used) + "/"@ + decimal(ports)
        + " used\nTotal switches: "@ + decimal(leafs + spines) + "\nTotal links:    "@ + decimal(
        links,
    )
}

/// The fourteen lines of `clos_report`, in order.
pub open spec fn clos_report_lines(
    hosts: nat,
    lph: nat,
    bw: nat,
    leafs: nat,
    spines: nat,
    ports: nat,
    spine_used: nat,
    links: nat,
) -> Seq<Seq<char>> {
    let half = ports / 2;
    Seq::<Seq<char>>::empty()
        .push("=== 2-Layer CLOS Topology ==="@)
        .push("Hosts:          "@ + decimal(hosts))
        .push("  IDs:          ["@ + decimal(0) + ", "@ + decimal((hosts - 1) as nat) + "]"@)
        .push("  Links/host:   "@ + decimal(lph) + " x "@ + decimal(bw) + "G (aggregated: "@ + decimal(lph * bw) + "G)"@)
        .push("Leaf switches:  "@ + decimal(leafs))
        .push("  IDs:          ["@ + decimal(hosts) + ", "@ + decimal((hosts + leafs - 1) as nat) + "]"@)
        .push("  South ports:  "@ + decimal(half) + "/"@ + decimal(half) + " used"@)
        .push("  North ports:  "@ + decimal(half) + "/"@ + decimal(half) + " used"@)
        .push("  Total ports:  "@ + decimal(ports) + "/"@ + decimal(ports) + " used"@)
        .push("Spine switches: "@ + decimal(spines))
        .push("  IDs:          ["@ + decimal(hosts + leafs) + ", "@ + decimal((hosts + leafs + spines - 1) as nat) + "]"@)
        .push("  Ports used:   "@ + decimal(spine_used) + "/"@ + decimal(ports) + " used"@)
        .push("Total switches: "@ + decimal(leafs + spines))
        .push("Total links:    "@ + decimal(links))
}

/// `clos_report` is its fourteen lines joined by newlines, and no line holds a
/// newline.
pub proof fn lemma_clos_report_lines(
    hosts: nat,
    lph: nat,
    bw: nat,
    leafs: nat,
    spines: nat,
    ports: nat,
    spine_used: nat,
    links: nat,
)
    ensures
        clos_report(
            hosts, lph, bw, leafs, spines, ports, spine_used, links,
        ) == join_lines(clos_report_lines(
            hosts, lph, bw, leafs, spines, ports, spine_used, links,
        )),
        clos_report_lines(
            hosts, lph, bw, leafs, spines, ports, spine_used, links,
        ).len() == 14,
        forall|i: int|
            0 <= i < 14 ==> is_line(
                #[trigger] clos_report_lines(
                    hosts, lph, bw, leafs, spines, ports, spine_used, links,
                )[i],
            ),
{
    let half = ports / 2;
    reveal_strlit("\n  IDs:          [");
    reveal_strlit("\nTotal links:    ");
    reveal_strlit("  IDs:          [");
    reveal_strlit("  Links/host:   ");
    reveal_strlit("  North ports:  ");
    reveal_strlit("  Ports used:   ");
    reveal_strlit("  South ports:  ");
    reveal_strlit("  Total ports:  ");
    reveal_strlit(" used");
    reveal_strlit(" used\n  North ports:  ");
    reveal_strlit(" used\n  Total ports:  ");
    reveal_strlit(" used\nSpine switches: ");
    reveal_strlit(" used\nTotal switches: ");
    reveal_strlit(" x ");
    reveal_strlit(", ");
    reveal_strlit("/");
    reveal_strlit("=== 2-Layer CLOS Topology ===");
    reveal_strlit("=== 2-Layer CLOS Topology ===\nHosts:          ");
    reveal_strlit("G (aggregated: ");
    reveal_strlit("G)");
    reveal_strlit("G)\nLeaf switches:  ");
    reveal_strlit("Hosts:          ");
    reveal_strlit("Leaf switches:  ");
    reveal_strlit("Spine switches: ");
    reveal_strlit("Total links:    ");
    reveal_strlit("Total switches: ");
    reveal_strlit("]");
    reveal_strlit("]\n  Links/host:   ");
    reveal_strlit("]\n  Ports used:   ");
    reveal_strlit("]\n  South ports:  ");
    let l0 = "=== 2-Layer CLOS Topology ==="@;
    let l1 = "Hosts:          "@ + decimal(hosts);
    let l2 = "  IDs:          ["@ + decimal(0) + ", "@ + decimal((hosts - 1) as nat) + "]"@;
    let l3 = "  Links/host:   "@ + decimal(lph) + " x "@ + decimal(bw) + "G (aggregated: "@ + decimal(lph * bw) + "G)"@;
    let l4 = "Leaf switches:  "@ + decimal(leafs);
    let l5 = "  IDs:          ["@ + decimal(hosts) + ", "@ + decimal((hosts + leafs - 1) as nat) + "]"@;
    let l6 = "  South ports:  "@ + decimal(half) + "/"@ + decimal(half) + " used"@;
    let l7 = "  North ports:  "@ + decimal(half) + "/"@ + decimal(half) + " used"@;
    let l8 = "  Total ports:  "@ + decimal(ports) + "/"@ + decimal(ports) + " used"@;
    let l9 = "Spine switches: "@ + decimal(spines);
    let l10 = "  IDs:          ["@ + decimal(hosts + leafs) + ", "@ + decimal((hosts + leafs + spines - 1) as nat) + "]"@;
    let l11 = "  Ports used:   "@ + decimal(spine_used) + "/"@ + decimal(ports) + " used"@;
    let l12 = "Total switches: "@ + decimal(leafs + spines);
    let l13 = "Total links:    "@ + decimal(links);
    let p1 = Seq::<Seq<char>>::empty().push(l0);
    let p2 = p1.push(l1);
    let p3 = p2.push(l2);
    let p4 = p3.push(l3);
    let p5 = p4.push(l4);
    let p6 = p5.push(l5);
    let p7 = p6.push(l6);
    let p8 = p7.push(l7);
    let p9 = p8.push(l8);
    let p10 = p9.push(l9);
    let p11 = p10.push(l10);
    let p12 = p11.push(l11);
    let p13 = p12.push(l12);
    let p14 = p13.push(l13);
    assert(p14 == clos_report_lines(hosts, lph, bw, leafs, spines, ports, spine_used, links));
    assert(join_lines(p1) == l0);
    lemma_join_push(p1, l1);
    lemma_join_push(p2, l2);
    lemma_join_push(p3, l3);
    lemma_join_push(p4, l4);
    lemma_join_push(p5, l5);
    lemma_join_push(p6, l6);
    lemma_join_push(p7, l7);
    lemma_join_push(p8, l8);
    lemma_join_push(p9, l9);
    lemma_join_push(p10, l10);
    lemma_join_push(p11, l11);
    lemma_join_push(p12, l12);
    lemma_join_push(p13, l13);
    let r0 = "=== 2-Layer CLOS Topology ===\nHosts:          "@;
    assert("=== 2-Layer CLOS Topology ===\nHosts:          "@ =~= "=== 2-Layer CLOS Topology ==="@ + seq!['\n'] + "Hosts:          "@);
    let r1 = r0 + decimal(hosts);
    lemma_report_piece(r0, join_lines(p1), "Hosts:          "@, decimal(hosts));
    let r2 = r1 + "\n  IDs:          ["@;
    assert("\n  IDs:          ["@ =~= seq!['\n'] + "  IDs:          ["@);
    lemma_report_break_bare(r1, join_lines(p1), "Hosts:          "@ + decimal(hosts), "\n  IDs:          ["@, "  IDs:          ["@);
    let r3 = r2 + decimal(0);
    lemma_report_piece(r2, join_lines(p2), "  IDs:          ["@, decimal(0));
    let r4 = r3 + ", "@;
    lemma_report_piece(r3, join_lines(p2), "  IDs:          ["@ + decimal(0), ", "@);
    let r5 = r4 + decimal((hosts - 1) as nat);
    lemma_report_piece(r4, join_lines(p2), "  IDs:          ["@ + decimal(0) + ", "@, decimal((hosts - 1) as nat));
    let r6 = r5 + "]\n  Links/host:   "@;
    assert("]\n  Links/host:   "@ =~= "]"@ + seq!['\n'] + "  Links/host:   "@);
    lemma_report_break(r5, join_lines(p2), "  IDs:          ["@ + decimal(0) + ", "@ + decimal((hosts - 1) as nat), "]\n  Links/host:   "@, "]"@, "  Links/host:   "@);
    let r7 = r6 + decimal(lph);
    lemma_report_piece(r6, join_lines(p3), "  Links/host:   "@, decimal(lph));
    let r8 = r7 + " x "@;
    lemma_report_piece(r7, join_lines(p3), "  Links/host:   "@ + decimal(lph), " x "@);
    let r9 = r8 + decimal(bw);
    lemma_report_piece(r8, join_lines(p3), "  Links/host:   "@ + decimal(lph) + " x "@, decimal(bw));
    let r10 = r9 + "G (aggregated: "@;
    lemma_report_piece(r9, join_lines(p3), "  Links/host:   "@ + decimal(lph) + " x "@ + decimal(bw), "G (aggregated: "@);
    let r11 = r10 + decimal(lph * bw);
    lemma_report_piece(r10, join_lines(p3), "  Links/host:   "@ + decimal(lph) + " x "@ + decimal(bw) + "G (aggregated: "@, decimal(lph * bw));
    let r12 = r11 + "G)\nLeaf switches:  "@;
    assert("G)\nLeaf switches:  "@ =~= "G)"@ + seq!['\n'] + "Leaf switches:  "@);
    lemma_report_break(r11, join_lines(p3), "  Links/host:   "@ + decimal(lph) + " x "@ + decimal(bw) + "G (aggregated: "@ + decimal(lph * bw), "G)\nLeaf switches:  "@, "G)"@, "Leaf switches:  "@);
    let r13 = r12 + decimal(leafs);
    lemma_report_piece(r12, join_lines(p4), "Leaf switches:  "@, decimal(leafs));
    let r14 = r13 + "\n  IDs:          ["@;
    assert("\n  IDs:          ["@ =~= seq!['\n'] + "  IDs:          ["@);
    lemma_report_break_bare(r13, join_lines(p4), "Leaf switches:  "@ + decimal(leafs), "\n  IDs:          ["@, "  IDs:          ["@);
    let r15 = r14 + decimal(hosts);
    lemma_report_piece(r14, join_lines(p5), "  IDs:          ["@, decimal(hosts));
    let r16 = r15 + ", "@;
    lemma_report_piece(r15, join_lines(p5), "  IDs:          ["@ + decimal(hosts), ", "@);
    let r17 = r16 + decimal((hosts + leafs - 1) as nat);
    lemma_report_piece(r16, join_lines(p5), "  IDs:          ["@ + decimal(hosts) + ", "@, decimal((hosts + leafs - 1) as nat));
    let r18 = r17 + "]\n  South ports:  "@;
    assert("]\n  South ports:  "@ =~= "]"@ + seq!['\n'] + "  South ports:  "@);
    lemma_report_break(r17, join_lines(p5), "  IDs:          ["@ + decimal(hosts) + ", "@ + decimal((hosts + leafs - 1) as nat), "]\n  South ports:  "@, "]"@, "  South ports:  "@);
    let r19 = r18 + decimal(half);
    lemma_report_piece(r18, join_lines(p6), "  South ports:  "@, decimal(half));
    let r20 = r19 + "/"@;
    lemma_report_piece(r19, join_lines(p6), "  South ports:  "@ + decimal(half), "/"@);
    let r21 = r20 + decimal(half);
    lemma_report_piece(r20, join_lines(p6), "  South ports:  "@ + decimal(half) + "/"@, decimal(half));
    let r22 = r21 + " used\n  North ports:  "@;
    assert(" used\n  North ports:  "@ =~= " used"@ + seq!['\n'] + "  North ports:  "@);
    lemma_report_break(r21, join_lines(p6), "  South ports:  "@ + decimal(half) + "/"@ + decimal(half), " used\n  North ports:  "@, " used"@, "  North ports:  "@);
    let r23 = r22 + decimal(half);
    lemma_report_piece(r22, join_lines(p7), "  North ports:  "@, decimal(half));
    let r24 = r23 + "/"@;
    lemma_report_piece(r23, join_lines(p7), "  North ports:  "@ + decimal(half), "/"@);
    let r25 = r24 + decimal(half);
    lemma_report_piece(r24, join_lines(p7), "  North ports:  "@ + decimal(half) + "/"@, decimal(half));
    let r26 = r25 + " used\n  Total ports:  "@;
    assert(" used\n  Total ports:  "@ =~= " used"@ + seq!['\n'] + "  Total ports:  "@);
    lemma_report_break(r25, join_lines(p7), "  North ports:  "@ + decimal(half) + "/"@ + decimal(half), " used\n  Total ports:  "@, " used"@, "  Total ports:  "@);
    let r27 = r26 + decimal(ports);
    lemma_report_piece(r26, join_lines(p8), "  Total ports:  "@, decimal(ports));
    let r28 = r27 + "/"@;
    lemma_report_piece(r27, join_lines(p8), "  Total ports:  "@ + decimal(ports), "/"@);
    let r29 = r28 + decimal(ports);
    lemma_report_piece(r28, join_lines(p8), "  Total ports:  "@ + decimal(ports) + "/"@, decimal(ports));
    let r30 = r29 + " used\nSpine switches: "@;
    assert(" used\nSpine switches: "@ =~= " used"@ + seq!['\n'] + "Spine switches: "@);
    lemma_report_break(r29, join_lines(p8), "  Total ports:  "@ + decimal(ports) + "/"@ + decimal(ports), " used\nSpine switches: "@, " used"@, "Spine switches: "@);
    let r31 = r30 + decimal(spines);
    lemma_report_piece(r30, join_lines(p9), "Spine switches: "@, decimal(spines));
    let r32 = r31 + "\n  IDs:          ["@;
    assert("\n  IDs:          ["@ =~= seq!['\n'] + "  IDs:          ["@);
    lemma_report_break_bare(r31, join_lines(p9), "Spine switches: "@ + decimal(spines), "\n  IDs:          ["@, "  IDs:          ["@);
    let r33 = r32 + decimal(hosts + leafs);
    lemma_report_piece(r32, join_lines(p10), "  IDs:          ["@, decimal(hosts + leafs));
    let r34 = r33 + ", "@;
    lemma_report_piece(r33, join_lines(p10), "  IDs:          ["@ + decimal(hosts + leafs), ", "@);
    let r35 = r34 + decimal((hosts + leafs + spines - 1) as nat);
    lemma_report_piece(r34, join_lines(p10), "  IDs:          ["@ + decimal(hosts + leafs) + ", "@, decimal((hosts + leafs + spines - 1) as nat));
    let r36 = r35 + "]\n  Ports used:   "@;
    assert("]\n  Ports used:   "@ =~= "]"@ + seq!['\n'] + "  Ports used:   "@);
    lemma_report_break(r35, join_lines(p10), "  IDs:          ["@ + decimal(hosts + leafs) + ", "@ + decimal((hosts + leafs + spines - 1) as nat), "]\n  Ports used:   "@, "]"@, "  Ports used:   "@);
    let r37 = r36 + decimal(spine_used);
    lemma_report_piece(r36, join_lines(p11), "  Ports used:   "@, decimal(spine_used));
    let r38 = r37 + "/"@;
    lemma_report_piece(r37, join_lines(p11), "  Ports used:   "@ + decimal(spine_used), "/"@);
    let r39 = r38 + decimal(ports);
    lemma_report_piece(r38, join_lines(p11), "  Ports used:   "@ + decimal(spine_used) + "/"@, decimal(ports));
    let r40 = r39 + " used\nTotal switches: "@;
    assert(" used\nTotal switches: "@ =~= " used"@ + seq!['\n'] + "Total switches: "@);
    lemma_report_break(r39, join_lines(p11), "  Ports used:   "@ + decimal(spine_used) + "/"@ + decimal(ports), " used\nTotal switches: "@, " used"@, "Total switches: "@);
    let r41 = r40 + decimal(leafs + spines);
    lemma_report_piece(r40, join_lines(p12), "Total switches: "@, decimal(leafs + spines));
    let r42 = r41 + "\nTotal links:    "@;
    assert("\nTotal links:    "@ =~= seq!['\n'] + "Total links:    "@);
    lemma_report_break_bare(r41, join_lines(p12), "Total switches: "@ + decimal(leafs + spines), "\nTotal links:    "@, "Total links:    "@);
    let r43 = r42 + decimal(links);
    lemma_report_piece(r42, join_lines(p13), "Total links:    "@, decimal(links));
    assert(clos_report(hosts, lph, bw, leafs, spines, ports, spine_used, links) == r43);
    assert(is_line("=== 2-Layer CLOS Topology ==="@));
    assert(is_line("Hosts:          "@));
    lemma_decimal_is_line(hosts);
    lemma_concat_is_line("Hosts:          "@, decimal(hosts));
    assert(is_line("  IDs:          ["@));
    lemma_decimal_is_line(0);
    lemma_concat_is_line("  IDs:          ["@, decimal(0));
    assert(is_line(", "@));
    lemma_concat_is_line("  IDs:          ["@ + decimal(0), ", "@);
    lemma_decimal_is_line((hosts - 1) as nat);
    lemma_concat_is_line("  IDs:          ["@ + decimal(0) + ", "@, decimal((hosts - 1) as nat));
    assert(is_line("]"@));
    lemma_concat_is_line("  IDs:          ["@ + decimal(0) + ", "@ + decimal((hosts - 1) as nat), "]"@);
    assert(is_line("  Links/host:   "@));
    lemma_decimal_is_line(lph);
    lemma_concat_is_line("  Links/host:   "@, decimal(lph));
    assert(is_line(" x "@));
    lemma_concat_is_line("  Links/host:   "@ + decimal(lph), " x "@);
    lemma_decimal_is_line(bw);
    lemma_concat_is_line("  Links/host:   "@ + decimal(lph) + " x "@, decimal(bw));
    assert(is_line("G (aggregated: "@));
    lemma_concat_is_line("  Links/host:   "@ + decimal(lph) + " x "@ + decimal(bw), "G (aggregated: "@);
    lemma_decimal_is_line(lph * bw);
    lemma_concat_is_line("  Links/host:   "@ + decimal(lph) + " x "@ + decimal(bw) + "G (aggregated: "@, decimal(lph * bw));
    assert(is_line("G)"@));
    lemma_concat_is_line("  Links/host:   "@ + decimal(lph) + " x "@ + decimal(bw) + "G (aggregated: "@ + decimal(lph * bw), "G)"@);
    assert(is_line("Leaf switches:  "@));
    lemma_decimal_is_line(leafs);
    lemma_concat_is_line("Leaf switches:  "@, decimal(leafs));
    assert(is_line("  IDs:          ["@));
    lemma_decimal_is_line(hosts);
    lemma_concat_is_line("  IDs:          ["@, decimal(hosts));
    assert(is_line(", "@));
    lemma_concat_is_line("  IDs:          ["@ + decimal(hosts), ", "@);
    lemma_decimal_is_line((hosts + leafs - 1) as nat);
    lemma_concat_is_line("  IDs:          ["@ + decimal(hosts) + ", "@, decimal((hosts + leafs - 1) as nat));
    assert(is_line("]"@));
    lemma_concat_is_line("  IDs:          ["@ + decimal(hosts) + ", "@ + decimal((hosts + leafs - 1) as nat), "]"@);
    assert(is_line("  South ports:  "@));
    lemma_decimal_is_line(half);
    lemma_concat_is_line("  South ports:  "@, decimal(half));
    assert(is_line("/"@));
    lemma_concat_is_line("  South ports:  "@ + decimal(half), "/"@);
    lemma_decimal_is_line(half);
    lemma_concat_is_line("  South ports:  "@ + decimal(half) + "/"@, decimal(half));
    assert(is_line(" used"@));
    lemma_concat_is_line("  South ports:  "@ + decimal(half) + "/"@ + decimal(half), " used"@);
    assert(is_line("  North ports:  "@));
    lemma_decimal_is_line(half);
    lemma_concat_is_line("  North ports:  "@, decimal(half));
    assert(is_line("/"@));
    lemma_concat_is_line("  North ports:  "@ + decimal(half), "/"@);
    lemma_decimal_is_line(half);
    lemma_concat_is_line("  North ports:  "@ + decimal(half) + "/"@, decimal(half));
    assert(is_line(" used"@));
    lemma_concat_is_line("  North ports:  "@ + decimal(half) + "/"@ + decimal(half), " used"@);
    assert(is_line("  Total ports:  "@));
    lemma_decimal_is_line(ports);
    lemma_concat_is_line("  Total ports:  "@, decimal(ports));
    assert(is_line("/"@));
    lemma_concat_is_line("  Total ports:  "@ + decimal(ports), "/"@);
    lemma_decimal_is_line(ports);
    lemma_concat_is_line("  Total ports:  "@ + decimal(ports) + "/"@, decimal(ports));
    assert(is_line(" used"@));
    lemma_concat_is_line("  Total ports:  "@ + decimal(ports) + "/"@ + decimal(ports), " used"@);
    assert(is_line("Spine switches: "@));
    lemma_decimal_is_line(spines);
    lemma_concat_is_line("Spine switches: "@, decimal(spines));
    assert(is_line("  IDs:          ["@));
    lemma_decimal_is_line(hosts + leafs);
    lemma_concat_is_line("  IDs:          ["@, decimal(hosts + leafs));
    assert(is_line(", "@));
    lemma_concat_is_line("  IDs:          ["@ + decimal(hosts + leafs), ", "@);
    lemma_decimal_is_line((hosts + leafs + spines - 1) as nat);
    lemma_concat_is_line("  IDs:          ["@ + decimal(hosts + leafs) + ", "@, decimal((hosts + leafs + spines - 1) as nat));
    assert(is_line("]"@));
    lemma_concat_is_line("  IDs:          ["@ + decimal(hosts + leafs) + ", "@ + decimal((hosts + leafs + spines - 1) as nat), "]"@);
    assert(is_line("  Ports used:   "@));
    lemma_decimal_is_line(spine_used);
    lemma_concat_is_line("  Ports used:   "@, decimal(spine_used));
    assert(is_line("/"@));
    lemma_concat_is_line("  Ports used:   "@ + decimal(spine_used), "/"@);
    lemma_decimal_is_line(ports);
    lemma_concat_is_line("  Ports used:   "@ + decimal(spine_used) + "/"@, decimal(ports));
    assert(is_line(" used"@));
    lemma_concat_is_line("  Ports used:   "@ + decimal(spine_used) + "/"@ + decimal(ports), " used"@);
    assert(is_line("Total switches: "@));
    lemma_decimal_is_line(leafs + spines);
    lemma_concat_is_line("Total switches: "@, decimal(leafs + spines));
    assert(is_line("Total links:    "@));
    lemma_decimal_is_line(links);
    lemma_concat_is_line("Total links:    "@, decimal(links));
    assert(p14[0] == l0);
    assert(p14[1] == l1);
    assert(p14[2] == l2);
    assert(p14[3] == l3);
    assert(p14[4] == l4);
    assert(p14[5] == l5);
    assert(p14[6] == l6);
    assert(p14[7] == l7);
    assert(p14[8] == l8);
    assert(p14[9] == l9);
    assert(p14[10] == l10);
    assert(p14[11] == l11);
    assert(p14[12] == l12);
    assert(p14[13] == l13);
}

/// What every generated CLOS topology satisfies: the leaves are not
/// oversubscribed (as many ports and as much bandwidth face the spines as
/// face the hosts), spines use no more ports than they have, every host
/// hangs off exactly one leaf, every leaf reaches every spine, and every link
/// joins a host to a leaf or a leaf to a spine within the id ranges.
///
/// Per node: a host sends `nic_throughput` over one link and receives
/// nothing; a leaf receives from `hosts_per_leaf` links and sends over
/// `num_spines` links, half the switch throughput each way; a spine sends
/// nothing and receives from `num_leafs` links, at most the switch
/// throughput. The report's numbers fit in a `u32` exactly when
/// `num_hosts + num_leafs + num_spines` does, and then the report is the
/// fourteen lines of `clos_report_lines`: `P/2` of `P/2` ports used south
/// and north, `P/P` in all, the leaf and spine count as the switch count and
/// `num_hosts + leafs * spines` links.
pub proof fn lemma_clos_topology_laws(t: ClosTopology, s: u32, n: u32, l: u32, h: u32)
    requires
        clos_error(s, n, l, h) is None,
        clos_generated(t, s, n, l, h),
    ensures
        t.leaf_south_ports_used == t.ports_per_switch / 2,
        t.leaf_north_ports_used == t.ports_per_switch / 2,
        t.leaf_south_ports_used + t.leaf_north_ports_used == t.ports_per_switch,
        t.spine_ports_used <= t.ports_per_switch,
        t.num_hosts == t.num_leafs * t.hosts_per_leaf,
        t.num_leafs >= 1,
        t.num_spines >= 1,
        t.links@.len() == t.num_hosts + t.num_leafs * t.num_spines,
        t.hosts_per_leaf * n == t.num_spines * (t.links_per_leaf_spine_pair * l),
        t.ports_per_switch * l == s,
        forall|i: int|
            0 <= i < t.num_hosts ==> #[trigger] t.links@[i][0] == i && t.num_hosts
                <= t.links@[i][1] < t.num_hosts + t.num_leafs && t.links@[i][1] == t.num_hosts + i
                / t.hosts_per_leaf as int && t.links@[i][2] == n,
        forall|a: int, b: int|
            0 <= a < t.num_leafs && 0 <= b < t.num_spines ==> link_triple(
                #[trigger] t.links@[t.num_hosts + a * t.num_spines + b],
            ) == (
                t.num_hosts + a,
                t.num_hosts + t.num_leafs + b,
                t.links_per_leaf_spine_pair * l,
            ),
        forall|i: int|
            t.num_hosts <= i < t.links@.len() ==> t.num_hosts <= #[trigger] t.links@[i][0]
                < t.num_hosts + t.num_leafs && t.num_hosts + t.num_leafs <= t.links@[i][1]
                < t.num_hosts + t.num_leafs + t.num_spines,
        forall|x: int|
            #![trigger link_sum(t.links@, count_from(x))]
            #![trigger link_sum(t.links@, count_into(x))]
            #![trigger link_sum(t.links@, bandwidth_from(x))]
            #![trigger link_sum(t.links@, bandwidth_into(x))]
            0 <= x < t.num_hosts ==> {
                &&& link_sum(t.links@, count_from(x)) == 1
                &&& link_sum(t.links@, count_into(x)) == 0
                &&& link_sum(t.links@, bandwidth_from(x)) == n
                &&& link_sum(t.links@, bandwidth_into(x)) == 0
            },
        forall|x: int|
            #![trigger link_sum(t.links@, count_from(x))]
            #![trigger link_sum(t.links@, count_into(x))]
            #![trigger link_sum(t.links@, bandwidth_from(x))]
            #![trigger link_sum(t.links@, bandwidth_into(x))]
            t.num_hosts <= x < t.num_hosts + t.num_leafs ==> {
                &&& link_sum(t.links@, count_from(x)) == t.num_spines
                &&& link_sum(t.links@, count_into(x)) == t.hosts_per_leaf
                &&& link_sum(t.links@, bandwidth_from(x)) == s / 2
                &&& link_sum(t.links@, bandwidth_into(x)) == s / 2
            },
        forall|x: int|
            #![trigger link_sum(t.links@, count_from(x))]
            #![trigger link_sum(t.links@, count_into(x))]
            #![trigger link_sum(t.links@, bandwidth_from(x))]
            #![trigger link_sum(t.links@, bandwidth_into(x))]
            t.num_hosts + t.num_leafs <= x < t.num_hosts + t.num_leafs + t.num_spines ==> {
                &&& link_sum(t.links@, count_from(x)) == 0
                &&& link_sum(t.links@, count_into(x)) == t.num_leafs
                &&& link_sum(t.links@, bandwidth_from(x)) == 0
                &&& link_sum(t.links@, bandwidth_into(x)) == t.spine_ports_used * l
                &&& link_sum(t.links@, bandwidth_into(x)) <= s
            },
        t.summary_fits() <==> t.num_hosts + t.num_leafs + t.num_spines <= u32::MAX,
        t.summary_fits() ==> t.summary_text() == clos_report(
            h as nat,
            t.links_per_host as nat,
            l as nat,
            t.num_leafs as nat,
            t.num_spines as nat,
            t.ports_per_switch as nat,
            t.spine_ports_used as nat,
            (h + t.num_leafs * t.num_spines) as nat,
        ),
        t.summary_fits() ==> t.summary_text() == join_lines(
            clos_report_lines(
                h as nat,
                t.links_per_host as nat,
                l as nat,
                t.num_leafs as nat,
                t.num_spines as nat,
                t.ports_per_switch as nat,
                t.spine_ports_used as nat,
                (h + t.num_leafs * t.num_spines) as nat,
            ),
        ),
        clos_report_lines(
            h as nat,
            t.links_per_host as nat,
            l as nat,
            t.num_leafs as nat,
            t.num_spines as nat,
            t.ports_per_switch as nat,
            t.spine_ports_used as nat,
            (h + t.num_leafs * t.num_spines) as nat,
        ).len() == 14,
        forall|i: int|
            0 <= i < 14 ==> is_line(
                #[trigger] clos_report_lines(
                    h as nat,
                    t.links_per_host as nat,
                    l as nat,
                    t.num_leafs as nat,
                    t.num_spines as nat,
                    t.ports_per_switch as nat,
                    t.spine_ports_used as nat,
                    (h + t.num_leafs * t.num_spines) as nat,
                )[i],
            ),
{
    lemma_clos_valid_facts(s, n, l, h);
    lemma_clos_plan_facts(s, n, l, h);
    let hpl = t.hosts_per_leaf as int;
    let nl = t.num_leafs as int;
    let ns = t.num_spines as int;
    let pair = t.links_per_leaf_spine_pair as int;
    let q = t.links_per_host as int;
    assert(hpl * n == ns * (pair * l)) by (nonlinear_arith)
        requires
            hpl * q == ns * pair,
            q * l == n,
    ;
    assert forall|i: int| 0 <= i < t.num_hosts implies #[trigger] t.links@[i][0] == i
        && t.num_hosts <= t.links@[i][1] < t.num_hosts + t.num_leafs && t.links@[i][1]
        == t.num_hosts + i / hpl && t.links@[i][2] == n by {
        assert(link_triple(t.links@[i]) == clos_link(h as int, nl, ns, hpl, q * l, pair * l, i));
        assert(0 <= i / hpl < nl) by (nonlinear_arith)
            requires
                0 <= i < h,
                nl * hpl == h,
                hpl >= 1,
        ;
    }
    assert forall|a: int, b: int| 0 <= a < t.num_leafs && 0 <= b < t.num_spines implies link_triple(
        #[trigger] t.links@[t.num_hosts + a * t.num_spines + b],
    ) == (t.num_hosts + a, t.num_hosts + t.num_leafs + b, t.links_per_leaf_spine_pair * l) by {
        let i = t.num_hosts + a * ns + b;
        assert(a * ns + b < nl * ns) by (nonlinear_arith)
            requires
                0 <= a < nl,
                0 <= b < ns,
        ;
        assert(0 <= a * ns) by (nonlinear_arith)
            requires
                0 <= a,
                0 <= ns,
        ;
        assert(link_triple(t.links@[i]) == clos_link(h as int, nl, ns, hpl, q * l, pair * l, i));
        vstd::arithmetic::div_mod::lemma_fundamental_div_mod_converse(a * ns + b, ns, a, b);
    }
    assert forall|i: int| t.num_hosts <= i < t.links@.len() implies t.num_hosts
        <= #[trigger] t.links@[i][0] < t.num_hosts + t.num_leafs && t.num_hosts + t.num_leafs
        <= t.links@[i][1] < t.num_hosts + t.num_leafs + t.num_spines by {
        let j = i - h;
        assert(link_triple(t.links@[i]) == clos_link(h as int, nl, ns, hpl, q * l, pair * l, i));
        assert(0 <= j / ns < nl) by (nonlinear_arith)
            requires
                0 <= j < nl * ns,
                ns >= 1,
        ;
        assert(0 <= j % ns < ns) by (nonlinear_arith)
            requires
                ns >= 1,
        ;
    }
    assert forall|x: int| 0 <= x < t.num_hosts + t.num_leafs + t.num_spines implies {
        &&& (0 <= x < t.num_hosts ==> {
            &&& link_sum(t.links@, count_from(x)) == 1
            &&& link_sum(t.links@, count_into(x)) == 0
            &&& link_sum(t.links@, bandwidth_from(x)) == n
            &&& link_sum(t.links@, bandwidth_into(x)) == 0
        })
        &&& (t.num_hosts <= x < t.num_hosts + t.num_leafs ==> {
            &&& link_sum(t.links@, count_from(x)) == t.num_spines
            &&& link_sum(t.links@, count_into(x)) == t.hosts_per_leaf
            &&& link_sum(t.links@, bandwidth_from(x)) == s / 2
            &&& link_sum(t.links@, bandwidth_into(x)) == s / 2
        })
        &&& (t.num_hosts + t.num_leafs <= x ==> {
            &&& link_sum(t.links@, count_from(x)) == 0
            &&& link_sum(t.links@, count_into(x)) == t.num_leafs
            &&& link_sum(t.links@, bandwidth_from(x)) == 0
            &&& link_sum(t.links@, bandwidth_into(x)) == t.spine_ports_used * l
            &&& link_sum(t.links@, bandwidth_into(x)) <= s
        })
    } by {
        lemma_clos_node(t, s, n, l, h, x);
        assert(t.spine_ports_used * l <= s) by (nonlinear_arith)
            requires
                t.spine_ports_used <= t.ports_per_switch,
                t.ports_per_switch * l == s,
        ;
    }
    assert(q * l == n);
    assert(t.leaf_south_ports_used + t.leaf_north_ports_used == t.ports_per_switch);
    lemma_clos_report_lines(
        h as nat,
        t.links_per_host as nat,
        l as nat,
        t.num_leafs as nat,
        t.num_spines as nat,
        t.ports_per_switch as nat,
        t.spine_ports_used as nat,
        (h + t.num_leafs * t.num_spines) as nat,
    );
}

/// `t` is the topology that generation builds from these inputs.
pub open spec fn clos_generated(t: ClosTopology, s: u32, n: u32, l: u32, h: u32) -> bool {
    &&& t.num_hosts == h
    &&& t.num_leafs == clos_leafs(s, n, l, h)
    &&& t.num_spines == clos_spines(s, n, l, h)
    &&& t.ports_per_switch == clos_ports(s, l)
    &&& t.links_per_host == clos_links_per_host(n, l)
    &&& t.hosts_per_leaf == clos_hosts_per_leaf(s, n, l)
    &&& t.links_per_leaf_spine_pair == clos_links_per_pair(s, n, l, h)
    &&& t.leaf_south_ports_used == clos_hosts_per_leaf(s, n, l) * clos_links_per_host(n, l)
    &&& t.leaf_north_ports_used == clos_spines(s, n, l, h) * clos_links_per_pair(s, n, l, h)
    &&& t.spine_ports_used == clos_leafs(s, n, l, h) * clos_links_per_pair(s, n, l, h)
    &&& t.link_bandwidth == l
    &&& t.links@.len() == h + clos_leafs(s, n, l, h) * clos_spines(s, n, l, h)
    &&& forall|i: int|
        0 <= i < t.links@.len() ==> link_triple(#[trigger] t.links@[i]) == clos_link(
            h as int,
            clos_leafs(s, n, l, h),
            clos_spines(s, n, l, h),
            clos_hosts_per_leaf(s, n, l),
            clos_links_per_host(n, l) * l,
            clos_links_per_pair(s, n, l, h) * l,
            i,
        )
}

} // verus!
