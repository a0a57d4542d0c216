//! The high-bandwidth Dragonfly topology: groups of fully meshed routers,
//! with every router also wired to routers of other groups.
//!
//! Hosts get ids `0 .. num_hosts` and routers the following
//! `routers_per_group * num_groups` ids, group by group.

pub mod config;
pub mod degrees;
pub mod hosts;
pub mod wiring;

use vstd::prelude::*;
use crate::json::{links_to_json, pretty_json};
use crate::text::{
    decimal,
    is_line,
    join_lines,
    lemma_concat_is_line,
    lemma_decimal_is_line,
    lemma_join_push,
    lemma_report_break,
    lemma_report_break_bare,
    lemma_report_piece,
    push_decimal,
    push_str,
    text_of,
};
use crate::dragonfly_high_bw::config::{
    Config,
    best_config,
    enumerate_configs,
    find_best_config,
    has_config,
    is_config,
    key_term_fits,
    lemma_config_list_sized,
    select_config,
    has_config_within,
    is_best_config,
    key_fits,
    lemma_best_config_unique,
    lemma_config_uses_all_ports,
    remaining_ports,
    search_fits,
};
use crate::dragonfly_high_bw::degrees::{
    global_ends,
    lemma_global_degrees,
    lemma_intra_degrees,
    lemma_intra_has_pair,
    lemma_intra_shape,
    local_ends,
};
use crate::dragonfly_high_bw::hosts::{host_count, host_links, host_links_upto, lemma_host_links_shape};
use crate::links::{
    count_from,
    count_into,
    lemma_count_from_numbered,
    lemma_link_sum_concat,
    lemma_link_sum_permutation,
    lemma_link_sum_witness,
    lemma_link_sum_zero,
    link_sum,
};
use crate::dragonfly_high_bw::wiring::{endpoint_count, global_wiring, wire_global_links};

verus! {

/// A generated high-bandwidth Dragonfly topology.
#[derive(Debug, Clone)]
pub struct DragonflyTopology {
    pub num_hosts: u32,
    /// `a`
    pub routers_per_group: u32,
    /// `g`
    pub num_groups: u32,
    /// `p`
    pub hosts_per_router: u32,
    /// `h`
    pub global_links_per_router: u32,
    /// `k`
    pub ports_per_switch: u32,
    pub links_per_host: u32,
    pub link_bandwidth: u32,
    /// `[src, dst, bandwidth]` for every (aggregated) link, in ascending order.
    pub links: Vec<[u32; 3]>,
}

impl DragonflyTopology {
    /// All routers: `routers_per_group * num_groups`.
    pub fn total_routers(&self) -> (r: u32)
        requires
            self.routers_per_group * self.num_groups <= u32::MAX,
        ensures
            r == self.routers_per_group * self.num_groups,
    {
        self.routers_per_group * self.num_groups
    }

    /// The first and last host id.
    pub fn host_id_range(&self) -> (r: (u32, u32))
        requires
            self.num_hosts >= 1,
        ensures
            r == (0u32, (self.num_hosts - 1) as u32),
    {
        (0, self.num_hosts - 1)
    }

    /// The first and last router id: the routers follow the hosts.
    pub fn router_id_range(&self) -> (r: (u32, u32))
        requires
            self.routers_per_group * self.num_groups <= u32::MAX,
            1 <= self.num_hosts + self.routers_per_group * self.num_groups <= u32::MAX,
        ensures
            r == (
                self.num_hosts,
                (self.num_hosts + self.routers_per_group * self.num_groups - 1) as u32,
            ),
    {
        let start = self.num_hosts;
        (start, start + self.total_routers() - 1)
    }

    /// The ports a router uses: host links, links to the other routers of
    /// its group, and global links.
    pub fn router_ports_used(&self) -> (r: u32)
        requires
            self.routers_per_group >= 1,
            self.hosts_per_router * self.links_per_host + (self.routers_per_group - 1)
                + self.global_links_per_router <= u32::MAX,
        ensures
            r == self.hosts_per_router * self.links_per_host + (self.routers_per_group - 1)
                + self.global_links_per_router,
    {
        let terminal = self.hosts_per_router * self.links_per_host;
        let local = self.routers_per_group - 1;
        let global = self.global_links_per_router;
        terminal + local + global
    }

    /// The values that the report computes all fit in a `u32`.
    pub open spec fn summary_fits(&self) -> bool {
        let a = self.routers_per_group;
        &&& self.num_hosts >= 1
        &&& a >= 1
        &&& a * self.num_groups <= u32::MAX
        &&& self.num_hosts + a * self.num_groups <= u32::MAX
        &&& self.links_per_host * self.link_bandwidth <= u32::MAX
        &&& self.hosts_per_router * self.links_per_host + (a - 1) + self.global_links_per_router
            <= u32::MAX
        &&& a * self.hosts_per_router <= u32::MAX
        &&& a * (a - 1) <= u32::MAX
    }

    /// The text of the report.
    pub open spec fn summary_text(&self) -> Seq<char> {
        let n = self.num_hosts as nat;
        let a = self.routers_per_group as nat;
        let g = self.num_groups as nat;
        let p = self.hosts_per_router as nat;
        let lph = self.links_per_host as nat;
        let total = a * g;
        "=== Dragonfly High-BW Topology ===\nHosts:              "@ + decimal(n)
            + "\n  IDs:              ["@ + decimal(0) + ", "@ + decimal((n - 1) as nat)
            + "]\n  Links/host:       "@ + decimal(lph) + " x "@ + decimal(
            self.link_bandwidth as nat,
        ) + "G (aggregated: "@ + decimal(lph * (self.link_bandwidth as nat)) + "G)\nRouters:            "@
            + decimal(total) + "  (a="@ + decimal(a) + ", g="@ + decimal(g)
            + ")\n  IDs:              ["@ + decimal(n) + ", "@ + decimal((n + total - 1) as nat)
            + "]\n  Terminal ports:   "@ + decimal(p * lph) + " (p="@ + decimal(p)
            + ", links_per_host="@ + decimal(lph) + ")\n  Local ports:      "@ + decimal(
            (a - 1) as nat,
        ) + " (a-1="@ + decimal((a - 1) as nat) + ")\n  Global ports:     "@ + decimal(
            self.global_links_per_router as nat,
        ) + "\n  Ports used:       "@ + decimal(
            (p * lph + (a - 1) + self.global_links_per_router) as nat,
        ) + "/"@ + decimal(self.ports_per_switch as nat) + "\nGroups:             "@ + decimal(g)
            + "\n  Routers/group:    "@ + decimal(a) + "\n  Hosts/group:      "@ + decimal(a * p)
            + "\n  Intra-group links:"@ + decimal(((a * (a - 1)) / 2) as nat) + " per group"@
            + "\nTotal links:        "@ + decimal(self.links@.len())
    }

    /// A multi-line report of the topology's shape, id ranges and port use.
    pub fn summary(&self) -> (r: String)
        requires
            self.summary_fits(),
        ensures
            r@ == self.summary_text(),
    {
        let a = self.routers_per_group;
        let p = self.hosts_per_router;
        let h = self.global_links_per_router;
        let g = self.num_groups;
        let terminal_ports = p * self.links_per_host;
        let local_ports = a - 1;
        let host_bw = self.links_per_host * self.link_bandwidth;
        let (h0, h1) = self.host_id_range();
        let (r0, r1) = self.router_id_range();
        let mut r = text_of("=== Dragonfly High-BW Topology ===\nHosts:              ");
        push_decimal(&mut r, self.num_hosts as u64);
        push_str(&mut r, "\n  IDs:              [");
        push_decimal(&mut r, h0 as u64);
        push_str(&mut r, ", ");
        push_decimal(&mut r, h1 as u64);
        push_str(&mut r, "]\n  Links/host:       ");
        push_decimal(&mut r, self.links_per_host as u64);
        push_str(&mut r, " x ");
        push_decimal(&mut r, self.link_bandwidth as u64);
        push_str(&mut r, "G (aggregated: ");
        push_decimal(&mut r, host_bw as u64);
        push_str(&mut r, "G)\nRouters:            ");
        push_decimal(&mut r, self.total_routers() as u64);
        push_str(&mut r, "  (a=");
        push_decimal(&mut r, a as u64);
        push_str(&mut r, ", g=");
        push_decimal(&mut r, g as u64);
        push_str(&mut r, ")\n  IDs:              [");
        push_decimal(&mut r, r0 as u64);
        push_str(&mut r, ", ");
        push_decimal(&mut r, r1 as u64);
        push_str(&mut r, "]\n  Terminal ports:   ");
        push_decimal(&mut r, terminal_ports as u64);
        push_str(&mut r, " (p=");
        push_decimal(&mut r, p as u64);
        push_str(&mut r, ", links_per_host=");
        push_decimal(&mut r, self.links_per_host as u64);
        push_str(&mut r, ")\n  Local ports:      ");
        push_decimal(&mut r, local_ports as u64);
        push_str(&mut r, " (a-1=");
        push_decimal(&mut r, (a - 1) as u64);
        push_str(&mut r, ")\n  Global ports:     ");
        push_decimal(&mut r, h as u64);
        push_str(&mut r, "\n  Ports used:       ");
        push_decimal(&mut r, self.router_ports_used() as u64);
        push_str(&mut r, "/");
        push_decimal(&mut r, self.ports_per_switch as u64);
        push_str(&mut r, "\nGroups:             ");
        push_decimal(&mut r, g as u64);
        push_str(&mut r, "\n  Routers/group:    ");
        push_decimal(&mut r, a as u64);
        push_str(&mut r, "\n  Hosts/group:      ");
        push_decimal(&mut r, (a * p) as u64);
        push_str(&mut r, "\n  Intra-group links:");
        push_decimal(&mut r, (a * (a - 1) / 2) as u64);
        push_str(&mut r, " per group");
        push_str(&mut r, "\nTotal links:        ");
        push_decimal(&mut r, self.links.len() as u64);
        r
    }

    /// The link list as pretty-printed JSON, the text that is written to a
    /// topology file.
    pub fn json_text(&self) -> (r: String)
        ensures
            r@ == pretty_json(self.links@),
    {
        let links = self.to_json();
        links_to_json(&links)
    }

    /// The link list, `[src, dst, bandwidth]` per link.
    pub fn to_json(&self) -> (r: Vec<[u32; 3]>)
        ensures
            r@ == self.links@,
    {
        let mut r: Vec<[u32; 3]> = Vec::new();
        let mut i: usize = 0;
        while i < self.links.len()
            invariant
                i <= self.links@.len(),
                r@ == self.links@.subrange(0, i as int),
            decreases self.links@.len() - i,
        {
            r.push(self.links[i]);
            i = i + 1;
        }
        r
    }
}

/// The error, if any, that the input checks report.
pub open spec fn dragonfly_validation_error(s: u32, n: u32, l: u32, h: u32) -> Option<Seq<char>> {
    if s == 0 || n == 0 || l == 0 || h == 0 {
        Some("All values must be positive"@)
    } else if s % l != 0 {
        Some("switch_throughput must be divisible by link_bandwidth"@)
    } else if n % l != 0 {
        Some("nic_throughput must be divisible by link_bandwidth"@)
    } else {
        None
    }
}

/// Checks that all inputs are positive and that both throughputs are
/// multiples of the link bandwidth.
pub fn validate_inputs(s: u32, n: u32, l: u32, h: u32) -> (res: Result<(), String>)
    ensures
        match res {
            Ok(()) => dragonfly_validation_error(s, n, l, h) is None,
            Err(e) => dragonfly_validation_error(s, n, l, h) == Some(e@),
        },
{
    if s == 0 || n == 0 || l == 0 || h == 0 {
        return Err(text_of("All values must be positive"));
    }
    if s % l != 0 {
        return Err(text_of("switch_throughput must be divisible by link_bandwidth"));
    }
    if n % l != 0 {
        return Err(text_of("nic_throughput must be divisible by link_bandwidth"));
    }
    Ok(())
}

/// `x <= y` in the lexicographic order of links.
pub open spec fn link_le(x: [u32; 3], y: [u32; 3]) -> bool {
    ||| x[0] < y[0]
    ||| x[0] == y[0] && x[1] < y[1]
    ||| x[0] == y[0] && x[1] == y[1] && x[2] <= y[2]
}

/// The links are in ascending lexicographic order.
pub open spec fn links_sorted(s: Seq<[u32; 3]>) -> bool {
    forall|i: int, j: int| 0 <= i < j < s.len() ==> link_le(s[i], s[j])
}

/// Sorts links in ascending lexicographic order (std's stable slice sort;
/// arrays compare lexicographically).
#[verifier::external_body]
fn sort_links(v: &mut Vec<[u32; 3]>)
    ensures
        final(v)@.to_multiset() == old(v)@.to_multiset(),
        final(v)@.len() == old(v)@.len(),
        links_sorted(final(v)@),
{
    v.sort();
}

/// The intra-group link for entry `q` of the `g * a * a` table of
/// (group, router, router) triples.
pub open spec fn intra_link(a: int, start: int, bw: u32, q: int) -> [u32; 3] {
    let grp = q / (a * a);
    let i = (q / a) % a;
    let j = q % a;
    [(start + grp * a + i) as u32, (start + grp * a + j) as u32, bw]
}

/// The intra-group links of the first `q` table entries: one link for each
/// pair of routers `i < j` of a group, group by group.
pub open spec fn intra_links_upto(a: int, start: int, bw: u32, q: nat) -> Seq<[u32; 3]>
    decreases q,
{
    if q == 0 {
        Seq::empty()
    } else {
        let prev = intra_links_upto(a, start, bw, (q - 1) as nat);
        if ((q - 1) / a) % a < (q - 1) % a {
            prev.push(intra_link(a, start, bw, q - 1))
        } else {
            prev
        }
    }
}

/// Router-offset pairs as id triples: ids `start + offset`, bandwidth `bw`.
pub open spec fn offset_links(w: Seq<(u32, u32)>, start: int, bw: u32) -> Seq<[u32; 3]> {
    w.map_values(|e: (u32, u32)| [(start + e.0) as u32, (start + e.1) as u32, bw])
}

/// The global links as id triples.
pub open spec fn global_links(a: u32, g: u32, h: u32, start: int, bw: u32) -> Seq<[u32; 3]> {
    offset_links(global_wiring(a, g, h), start, bw)
}

/// The links of the Dragonfly with shape `c`, before sorting: host links,
/// then intra-group links, then global links.
pub open spec fn dragonfly_links(n: u32, lph: u32, l: u32, c: Config) -> Seq<[u32; 3]> {
    let (a, h, p, g) = c;
    host_links_upto(n as int, a as int, g as int, n as int, (lph * l) as u32, (a * g) as nat)
        + intra_links_upto(a as int, n as int, l, (g * a * a) as nat) + global_links(
        a,
        g,
        h,
        n as int,
        l,
    )
}

/// What generation needs beyond the input checks: a search that fits in
/// `u32`, a valid shape within the router budget whose key terms fit an
/// `i32`, and router ids that fit in a `u32`.
pub open spec fn dragonfly_ready(s: u32, n: u32, l: u32, hosts: u32, cap: u32) -> bool {
    dragonfly_validation_error(s, n, l, hosts) is None ==> {
        let k = (s / l) as u32;
        let lph = (n / l) as u32;
        let c = best_config(k, lph, hosts, cap);
        &&& search_fits(k, lph)
        &&& has_config_within(k, lph, hosts, cap)
        &&& key_fits(k, lph, hosts, cap)
        &&& hosts + c.0 * c.3 <= u32::MAX + 1
    }
}

/// Tells whether `generate` can run on these inputs (`dragonfly_ready`):
/// always when the input checks fail; otherwise when the shape search fits
/// in `u32`, some shape is within the router budget, the key terms of those
/// shapes fit an `i32`, and the router ids of the preferred shape fit in a
/// `u32`.
pub fn dragonfly_ready_check(s: u32, n: u32, l: u32, hosts: u32, cap: u32) -> (r: bool)
    ensures
        r == dragonfly_ready(s, n, l, hosts, cap),
{
    match validate_inputs(s, n, l, hosts) {
        Err(_) => {
            return true;
        },
        Ok(()) => {},
    }
    let k = s / l;
    let lph = n / l;
    proof {
        vstd::arithmetic::div_mod::lemma_fundamental_div_mod(n as int, l as int);
        assert(lph >= 1) by (nonlinear_arith)
            requires
                n == l * (n / l) + n % l,
                n % l == 0,
                lph == n / l,
                n > 0,
        ;
    }
    let configs = match enumerate_configs(k, lph, hosts) {
        Some(v) => v,
        None => {
            return false;
        },
    };
    proof {
        lemma_config_list_sized(k, lph, hosts, configs@);
    }
    match select_config(&configs, lph, hosts, cap) {
        Some(_) => {},
        None => {
            proof {
                let i = choose|i: int|
                    0 <= i < configs@.len() && (#[trigger] configs@[i]).0 * configs@[i].3 <= cap
                        && !key_term_fits(configs@[i], lph);
                assert(is_config(k, lph, hosts, configs@[i]));
            }
            return false;
        },
    }
    proof {
        assert forall|c: Config| is_config(k, lph, hosts, c) && c.0 * c.3 <= cap implies #[trigger] key_term_fits(c, lph) by {
            assert(configs@.contains(c));
            let i = choose|i: int| 0 <= i < configs@.len() && configs@[i] == c;
            assert((#[trigger] configs@[i]).0 * configs@[i].3 <= cap);
        }
        assert(key_fits(k, lph, hosts, cap));
    }
    if configs.len() == 0 {
        proof {
            if has_config_within(k, lph, hosts, cap) {
                let c = choose|c: Config| is_config(k, lph, hosts, c) && c.0 * c.3 <= cap;
                assert(configs@.contains(c));
            }
        }
        return false;
    }
    proof {
        assert(is_config(k, lph, hosts, configs@[0]));
        assert(has_config(k, lph, hosts));
    }
    let best = find_best_config(k, lph, hosts, cap);
    if best.0 == 0 {
        proof {
            if has_config_within(k, lph, hosts, cap) {
                assert(is_config(k, lph, hosts, best));
            }
        }
        return false;
    }
    proof {
        lemma_best_config_unique(k, lph, hosts, cap, best);
    }
    hosts as u64 + best.0 as u64 * best.3 as u64 <= u32::MAX as u64 + 1
}

/// `t` is the Dragonfly generated from these inputs.
pub open spec fn dragonfly_generated(
    t: DragonflyTopology,
    s: u32,
    n: u32,
    l: u32,
    hosts: u32,
    cap: u32,
) -> bool {
    let k = (s / l) as u32;
    let lph = (n / l) as u32;
    let c = best_config(k, lph, hosts, cap);
    &&& is_best_config(k, lph, hosts, cap, c)
    &&& t.num_hosts == hosts
    &&& t.routers_per_group == c.0
    &&& t.global_links_per_router == c.1
    &&& t.hosts_per_router == c.2
    &&& t.num_groups == c.3
    &&& t.ports_per_switch == k
    &&& t.links_per_host == lph
    &&& t.link_bandwidth == l
    &&& links_sorted(t.links@)
    &&& t.links@.to_multiset() == dragonfly_links(hosts, lph, l, c).to_multiset()
}

/// The report of a Dragonfly whose routers use all `k` of their ports:
/// `hosts` hosts with `lph` links of `bw` each, `g` groups of `a` routers,
/// `p` hosts and `h` global links per router, and `links` links.
pub open spec fn dragonfly_report(
    hosts: nat,
    lph: nat,
    bw: nat,
    a: nat,
    g: nat,
    p: nat,
    h: nat,
    k: nat,
    links: nat,
) -> Seq<char> {
    "=== Dragonfly High-BW Topology ===\nHosts:              "@ + decimal(hosts)
        + "\n  IDs:              ["@ + decimal(0) + ", "@ + decimal((hosts - 1) as nat)
        + "]\n  Links/host:       "@ + decimal(lph) + " x "@ + decimal(bw) + "G (aggregated: "@
        + decimal(lph * bw) + "G)\nRouters:            "@ + decimal(a * g) + "  (a="@ + decimal(a)
        + ", g="@ + decimal(g) + ")\n  IDs:              ["@ + decimal(hosts) + ", "@ + decimal(
        (hosts + a * g - 1) as nat,
    ) + "]\n  Terminal ports:   "@ + decimal(p * lph) + " (p="@ + decimal(p)
        + ", links_per_host="@ + decimal(lph) + ")\n  Local ports:      "@ + decimal(
        (a - 1) as nat,
    ) + " (a-1="@ + decimal((a - 1) as nat) + ")\n  Global ports:     "@ + decimal(h)
        + "\n  Ports used:       "@ + decimal(k) + "/"@ + decimal(k) + "\nGroups:             "@
        + decimal(g) + "\n  Routers/group:    "@ + decimal(a) + "\n  Hosts/group:      "@
        + decimal(a * p) + "\n  Intra-group links:"@ + decimal(((a * (a - 1)) / 2) as nat)
        + " per group"@ + "\nTotal links:        "@ + decimal(links)
}

/// The fifteen lines of `dragonfly_report`, in order.
pub open spec fn dragonfly_report_lines(
    hosts: nat,
    lph: nat,
    bw: nat,
    a: nat,
    g: nat,
    p: nat,
    h: nat,
    k: nat,
    links: nat,
) -> Seq<Seq<char>> {
    Seq::<Seq<char>>::empty()
        .push("=== Dragonfly High-BW Topology ==="@)
        .push("Hosts:              "@ + decimal(hosts))
        .push("  IDs:              ["@ + decimal(0) + ", "@ + decimal((hosts - 1) as nat) + "]"@)
        .push("  Links/host:       "@ + decimal(lph) + " x "@ + decimal(bw) + "G (aggregated: "@ + decimal(lph * bw) + "G)"@)
        .push("Routers:            "@ + decimal(a * g) + "  (a="@ + decimal(a) + ", g="@ + decimal(g) + ")"@)
        .push("  IDs:              ["@ + decimal(hosts) + ", "@ + decimal((hosts + a * g - 1) as nat) + "]"@)
        .push("  Terminal ports:   "@ + decimal(p * lph) + " (p="@ + decimal(p) + ", links_per_host="@ + decimal(lph) + ")"@)
        .push("  Local ports:      "@ + decimal((a - 1) as nat) + " (a-1="@ + decimal((a - 1) as nat) + ")"@)
        .push("  Global ports:     "@ + decimal(h))
        .push("  Ports used:       "@ + decimal(k) + "/"@ + decimal(k))
        .push("Groups:             "@ + decimal(g))
        .push("  Routers/group:    "@ + decimal(a))
        .push("  Hosts/group:      "@ + decimal(a * p))
        .push("  Intra-group links:"@ + decimal(((a * (a - 1)) / 2) as nat) + " per group"@)
        .push("Total links:        "@ + decimal(links))
}

/// `dragonfly_report` is its fifteen lines joined by newlines, and no line holds a
/// newline.
pub proof fn lemma_dragonfly_report_lines(
    hosts: nat,
    lph: nat,
    bw: nat,
    a: nat,
    g: nat,
    p: nat,
    h: nat,
    k: nat,
    links: nat,
)
    ensures
        dragonfly_report(
            hosts, lph, bw, a, g, p, h, k, links,
        ) == join_lines(dragonfly_report_lines(
            hosts, lph, bw, a, g, p, h, k, links,
        )),
        dragonfly_report_lines(
            hosts, lph, bw, a, g, p, h, k, links,
        ).len() == 15,
        forall|i: int|
            0 <= i < 15 ==> is_line(
                #[trigger] dragonfly_report_lines(
                    hosts, lph, bw, a, g, p, h, k, links,
                )[i],
            ),
{
    reveal_strlit("\n  Hosts/group:      ");
    reveal_strlit("\n  IDs:              [");
    reveal_strlit("\n  Intra-group links:");
    reveal_strlit("\n  Ports used:       ");
    reveal_strlit("\n  Routers/group:    ");
    reveal_strlit("\nGroups:             ");
    reveal_strlit("\nTotal links:        ");
    reveal_strlit("  (a=");
    reveal_strlit("  Global ports:     ");
    reveal_strlit("  Hosts/group:      ");
    reveal_strlit("  IDs:              [");
    reveal_strlit("  Intra-group links:");
    reveal_strlit("  Links/host:       ");
    reveal_strlit("  Local ports:      ");
    reveal_strlit("  Ports used:       ");
    reveal_strlit("  Routers/group:    ");
    reveal_strlit("  Terminal ports:   ");
    reveal_strlit(" (a-1=");
    reveal_strlit(" (p=");
    reveal_strlit(" per group");
    reveal_strlit(" x ");
    reveal_strlit(")");
    reveal_strlit(")\n  Global ports:     ");
    reveal_strlit(")\n  IDs:              [");
    reveal_strlit(")\n  Local ports:      ");
    reveal_strlit(", ");
    reveal_strlit(", g=");
    reveal_strlit(", links_per_host=");
    reveal_strlit("/");
    reveal_strlit("=== Dragonfly High-BW Topology ===");
    reveal_strlit("=== Dragonfly High-BW Topology ===\nHosts:              ");
    reveal_strlit("G (aggregated: ");
    reveal_strlit("G)");
    reveal_strlit("G)\nRouters:            ");
    reveal_strlit("Groups:             ");
    reveal_strlit("Hosts:              ");
    reveal_strlit("Routers:            ");
    reveal_strlit("Total links:        ");
    reveal_strlit("]");
    reveal_strlit("]\n  Links/host:       ");
    reveal_strlit("]\n  Terminal ports:   ");
    let l0 = "=== Dragonfly High-BW Topology ==="@;
    let l1 = "Hosts:              "@ + decimal(hosts);
    let l2 = "  IDs:              ["@ + decimal(0) + ", "@ + decimal((hosts - 1) as nat) + "]"@;
    let l3 = "  Links/host:       "@ + decimal(lph) + " x "@ + decimal(bw) + "G (aggregated: "@ + decimal(lph * bw) + "G)"@;
    let l4 = "Routers:            "@ + decimal(a * g) + "  (a="@ + decimal(a) + ", g="@ + decimal(g) + ")"@;
    let l5 = "  IDs:              ["@ + decimal(hosts) + ", "@ + decimal((hosts + a * g - 1) as nat) + "]"@;
    let l6 = "  Terminal ports:   "@ + decimal(p * lph) + " (p="@ + decimal(p) + ", links_per_host="@ + decimal(lph) + ")"@;
    let l7 = "  Local ports:      "@ + decimal((a - 1) as nat) + " (a-1="@ + decimal((a - 1) as nat) + ")"@;
    let l8 = "  Global ports:     "@ + decimal(h);
    let l9 = "  Ports used:       "@ + decimal(k) + "/"@ + decimal(k);
    let l10 = "Groups:             "@ + decimal(g);
    let l11 = "  Routers/group:    "@ + decimal(a);
    let l12 = "  Hosts/group:      "@ + decimal(a * p);
    let l13 = "  Intra-group links:"@ + decimal(((a * (a - 1)) / 2) as nat) + " per group"@;
    let l14 = "Total links:        "@ + decimal(links);
    let p1 = Seq::<Seq<char>>::empty().push(l0);
    let p2 = p1.push(l1);
    let p3 = p2.push(l2);
    let p4 = p3.push(l3);
    let p5 = p4.push(l4);
    let p6 = p5.push(l5);
    let p7 = p6.push(l6);
    let p8 = p7.push(l7);
    let p9 = p8.push(l8);
    let p10 = p9.push(l9);
    let p11 = p10.push(l10);
    let p12 = p11.push(l11);
    let p13 = p12.push(l12);
    let p14 = p13.push(l13);
    let p15 = p14.push(l14);
    assert(p15 == dragonfly_report_lines(hosts, lph, bw, a, g, p, h, k, links));
    assert(join_lines(p1) == l0);
    lemma_join_push(p1, l1);
    lemma_join_push(p2, l2);
    lemma_join_push(p3, l3);
    lemma_join_push(p4, l4);
    lemma_join_push(p5, l5);
    lemma_join_push(p6, l6);
    lemma_join_push(p7, l7);
    lemma_join_push(p8, l8);
    lemma_join_push(p9, l9);
    lemma_join_push(p10, l10);
    lemma_join_push(p11, l11);
    lemma_join_push(p12, l12);
    lemma_join_push(p13, l13);
    lemma_join_push(p14, l14);
    let r0 = "=== Dragonfly High-BW Topology ===\nHosts:              "@;
    assert("=== Dragonfly High-BW Topology ===\nHosts:              "@ =~= "=== Dragonfly High-BW Topology ==="@ + seq!['\n'] + "Hosts:              "@);
    let r1 = r0 + decimal(hosts);
    lemma_report_piece(r0, join_lines(p1), "Hosts:              "@, decimal(hosts));
    let r2 = r1 + "\n  IDs:              ["@;
    assert("\n  IDs:              ["@ =~= seq!['\n'] + "  IDs:              ["@);
    lemma_report_break_bare(r1, join_lines(p1), "Hosts:              "@ + decimal(hosts), "\n  IDs:              ["@, "  IDs:              ["@);
    let r3 = r2 + decimal(0);
    lemma_report_piece(r2, join_lines(p2), "  IDs:              ["@, decimal(0));
    let r4 = r3 + ", "@;
    lemma_report_piece(r3, join_lines(p2), "  IDs:              ["@ + decimal(0), ", "@);
    let r5 = r4 + decimal((hosts - 1) as nat);
    lemma_report_piece(r4, join_lines(p2), "  IDs:              ["@ + decimal(0) + ", "@, decimal((hosts - 1) as nat));
    let r6 = r5 + "]\n  Links/host:       "@;
    assert("]\n  Links/host:       "@ =~= "]"@ + seq!['\n'] + "  Links/host:       "@);
    lemma_report_break(r5, join_lines(p2), "  IDs:              ["@ + decimal(0) + ", "@ + decimal((hosts - 1) as nat), "]\n  Links/host:       "@, "]"@, "  Links/host:       "@);
    let r7 = r6 + decimal(lph);
    lemma_report_piece(r6, join_lines(p3), "  Links/host:       "@, decimal(lph));
    let r8 = r7 + " x "@;
    lemma_report_piece(r7, join_lines(p3), "  Links/host:       "@ + decimal(lph), " x "@);
    let r9 = r8 + decimal(bw);
    lemma_report_piece(r8, join_lines(p3), "  Links/host:       "@ + decimal(lph) + " x "@, decimal(bw));
    let r10 = r9 + "G (aggregated: "@;
    lemma_report_piece(r9, join_lines(p3), "  Links/host:       "@ + decimal(lph) + " x "@ + decimal(bw), "G (aggregated: "@);
    let r11 = r10 + decimal(lph * bw);
    lemma_report_piece(r10, join_lines(p3), "  Links/host:       "@ + decimal(lph) + " x "@ + decimal(bw) + "G (aggregated: "@, decimal(lph * bw));
    let r12 = r11 + "G)\nRouters:            "@;
    assert("G)\nRouters:            "@ =~= "G)"@ + seq!['\n'] + "Routers:            "@);
    lemma_report_break(r11, join_lines(p3), "  Links/host:       "@ + decimal(lph) + " x "@ + decimal(bw) + "G (aggregated: "@ + decimal(lph * bw), "G)\nRouters:            "@, "G)"@, "Routers:            "@);
    let r13 = r12 + decimal(a * g);
    lemma_report_piece(r12, join_lines(p4), "Routers:            "@, decimal(a * g));
    let r14 = r13 + "  (a="@;
    lemma_report_piece(r13, join_lines(p4), "Routers:            "@ + decimal(a * g), "  (a="@);
    let r15 = r14 + decimal(a);
    lemma_report_piece(r14, join_lines(p4), "Routers:            "@ + decimal(a * g) + "  (a="@, decimal(a));
    let r16 = r15 + ", g="@;
    lemma_report_piece(r15, join_lines(p4), "Routers:            "@ + decimal(a * g) + "  (a="@ + decimal(a), ", g="@);
    let r17 = r16 + decimal(g);
    lemma_report_piece(r16, join_lines(p4), "Routers:            "@ + decimal(a * g) + "  (a="@ + decimal(a) + ", g="@, decimal(g));
    let r18 = r17 + ")\n  IDs:              ["@;
    assert(")\n  IDs:              ["@ =~= ")"@ + seq!['\n'] + "  IDs:              ["@);
    lemma_report_break(r17, join_lines(p4), "Routers:            "@ + decimal(a * g) + "  (a="@ + decimal(a) + ", g="@ + decimal(g), ")\n  IDs:              ["@, ")"@, "  IDs:              ["@);
    let r19 = r18 + decimal(hosts);
    lemma_report_piece(r18, join_lines(p5), "  IDs:              ["@, decimal(hosts));
    let r20 = r19 + ", "@;
    lemma_report_piece(r19, join_lines(p5), "  IDs:              ["@ + decimal(hosts), ", "@);
    let r21 = r20 + decimal((hosts + a * g - 1) as nat);
    lemma_report_piece(r20, join_lines(p5), "  IDs:              ["@ + decimal(hosts) + ", "@, decimal((hosts + a * g - 1) as nat));
    let r22 = r21 + "]\n  Terminal ports:   "@;
    assert("]\n  Terminal ports:   "@ =~= "]"@ + seq!['\n'] + "  Terminal ports:   "@);
    lemma_report_break(r21, join_lines(p5), "  IDs:              ["@ + decimal(hosts) + ", "@ + decimal((hosts + a * g - 1) as nat), "]\n  Terminal ports:   "@, "]"@, "  Terminal ports:   "@);
    let r23 = r22 + decimal(p * lph);
    lemma_report_piece(r22, join_lines(p6), "  Terminal ports:   "@, decimal(p * lph));
    let r24 = r23 + " (p="@;
    lemma_report_piece(r23, join_lines(p6), "  Terminal ports:   "@ + decimal(p * lph), " (p="@);
    let r25 = r24 + decimal(p);
    lemma_report_piece(r24, join_lines(p6), "  Terminal ports:   "@ + decimal(p * lph) + " (p="@, decimal(p));
    let r26 = r25 + ", links_per_host="@;
    lemma_report_piece(r25, join_lines(p6), "  Terminal ports:   "@ + decimal(p * lph) + " (p="@ + decimal(p), ", links_per_host="@);
    let r27 = r26 + decimal(lph);
    lemma_report_piece(r26, join_lines(p6), "  Terminal ports:   "@ + decimal(p * lph) + " (p="@ + decimal(p) + ", links_per_host="@, decimal(lph));
    let r28 = r27 + ")\n  Local ports:      "@;
    assert(")\n  Local ports:      "@ =~= ")"@ + seq!['\n'] + "  Local ports:      "@);
    lemma_report_break(r27, join_lines(p6), "  Terminal ports:   "@ + decimal(p * lph) + " (p="@ + decimal(p) + ", links_per_host="@ + decimal(lph), ")\n  Local ports:      "@, ")"@, "  Local ports:      "@);
    let r29 = r28 + decimal((a - 1) as nat);
    lemma_report_piece(r28, join_lines(p7), "  Local ports:      "@, decimal((a - 1) as nat));
    let r30 = r29 + " (a-1="@;
    lemma_report_piece(r29, join_lines(p7), "  Local ports:      "@ + decimal((a - 1) as nat), " (a-1="@);
    let r31 = r30 + decimal((a - 1) as nat);
    lemma_report_piece(r30, join_lines(p7), "  Local ports:      "@ + decimal((a - 1) as nat) + " (a-1="@, decimal((a - 1) as nat));
    let r32 = r31 + ")\n  Global ports:     "@;
    assert(")\n  Global ports:     "@ =~= ")"@ + seq!['\n'] + "  Global ports:     "@);
    lemma_report_break(r31, join_lines(p7), "  Local ports:      "@ + decimal((a - 1) as nat) + " (a-1="@ + decimal((a - 1) as nat), ")\n  Global ports:     "@, ")"@, "  Global ports:     "@);
    let r33 = r32 + decimal(h);
    lemma_report_piece(r32, join_lines(p8), "  Global ports:     "@, decimal(h));
    let r34 = r33 + "\n  Ports used:       "@;
    assert("\n  Ports used:       "@ =~= seq!['\n'] + "  Ports used:       "@);
    lemma_report_break_bare(r33, join_lines(p8), "  Global ports:     "@ + decimal(h), "\n  Ports used:       "@, "  Ports used:       "@);
    let r35 = r34 + decimal(k);
    lemma_report_piece(r34, join_lines(p9), "  Ports used:       "@, decimal(k));
    let r36 = r35 + "/"@;
    lemma_report_piece(r35, join_lines(p9), "  Ports used:       "@ + decimal(k), "/"@);
    let r37 = r36 + decimal(k);
    lemma_report_piece(r36, join_lines(p9), "  Ports used:       "@ + decimal(k) + "/"@, decimal(k));
    let r38 = r37 + "\nGroups:             "@;
    assert("\nGroups:             "@ =~= seq!['\n'] + "Groups:             "@);
    lemma_report_break_bare(r37, join_lines(p9), "  Ports used:       "@ + decimal(k) + "/"@ + decimal(k), "\nGroups:             "@, "Groups:             "@);
    let r39 = r38 + decimal(g);
    lemma_report_piece(r38, join_lines(p10), "Groups:             "@, decimal(g));
    let r40 = r39 + "\n  Routers/group:    "@;
    assert("\n  Routers/group:    "@ =~= seq!['\n'] + "  Routers/group:    "@);
    lemma_report_break_bare(r39, join_lines(p10), "Groups:             "@ + decimal(g), "\n  Routers/group:    "@, "  Routers/group:    "@);
    let r41 = r40 + decimal(a);
    lemma_report_piece(r40, join_lines(p11), "  Routers/group:    "@, decimal(a));
    let r42 = r41 + "\n  Hosts/group:      "@;
    assert("\n  Hosts/group:      "@ =~= seq!['\n'] + "  Hosts/group:      "@);
    lemma_report_break_bare(r41, join_lines(p11), "  Routers/group:    "@ + decimal(a), "\n  Hosts/group:      "@, "  Hosts/group:      "@);
    let r43 = r42 + decimal(a * p);
    lemma_report_piece(r42, join_lines(p12), "  Hosts/group:      "@, decimal(a * p));
    let r44 = r43 + "\n  Intra-group links:"@;
    assert("\n  Intra-group links:"@ =~= seq!['\n'] + "  Intra-group links:"@);
    lemma_report_break_bare(r43, join_lines(p12), "  Hosts/group:      "@ + decimal(a * p), "\n  Intra-group links:"@, "  Intra-group links:"@);
    let r45 = r44 + decimal(((a * (a - 1)) / 2) as nat);
    lemma_report_piece(r44, join_lines(p13), "  Intra-group links:"@, decimal(((a * (a - 1)) / 2) as nat));
    let r46 = r45 + " per group"@;
    lemma_report_piece(r45, join_lines(p13), "  Intra-group links:"@ + decimal(((a * (a - 1)) / 2) as nat), " per group"@);
    let r47 = r46 + "\nTotal links:        "@;
    assert("\nTotal links:        "@ =~= seq!['\n'] + "Total links:        "@);
    lemma_report_break_bare(r46, join_lines(p13), "  Intra-group links:"@ + decimal(((a * (a - 1)) / 2) as nat) + " per group"@, "\nTotal links:        "@, "Total links:        "@);
    let r48 = r47 + decimal(links);
    lemma_report_piece(r47, join_lines(p14), "Total links:        "@, decimal(links));
    assert(dragonfly_report(hosts, lph, bw, a, g, p, h, k, links) == r48);
    assert(is_line("=== Dragonfly High-BW Topology ==="@));
    assert(is_line("Hosts:              "@));
    lemma_decimal_is_line(hosts);
    lemma_concat_is_line("Hosts:              "@, decimal(hosts));
    assert(is_line("  IDs:              ["@));
    lemma_decimal_is_line(0);
    lemma_concat_is_line("  IDs:              ["@, decimal(0));
    assert(is_line(", "@));
    lemma_concat_is_line("  IDs:              ["@ + decimal(0), ", "@);
    lemma_decimal_is_line((hosts - 1) as nat);
    lemma_concat_is_line("  IDs:              ["@ + decimal(0) + ", "@, decimal((hosts - 1) as nat));
    assert(is_line("]"@));
    lemma_concat_is_line("  IDs:              ["@ + decimal(0) + ", "@ + decimal((hosts - 1) as nat), "]"@);
    assert(is_line("  Links/host:       "@));
    lemma_decimal_is_line(lph);
    lemma_concat_is_line("  Links/host:       "@, decimal(lph));
    assert(is_line(" x "@));
    lemma_concat_is_line("  Links/host:       "@ + decimal(lph), " x "@);
    lemma_decimal_is_line(bw);
    lemma_concat_is_line("  Links/host:       "@ + decimal(lph) + " x "@, decimal(bw));
    assert(is_line("G (aggregated: "@));
    lemma_concat_is_line("  Links/host:       "@ + decimal(lph) + " x "@ + decimal(bw), "G (aggregated: "@);
    lemma_decimal_is_line(lph * bw);
    lemma_concat_is_line("  Links/host:       "@ + decimal(lph) + " x "@ + decimal(bw) + "G (aggregated: "@, decimal(lph * bw));
    assert(is_line("G)"@));
    lemma_concat_is_line("  Links/host:       "@ + decimal(lph) + " x "@ + decimal(bw) + "G (aggregated: "@ + decimal(lph * bw), "G)"@);
    assert(is_line("Routers:            "@));
    lemma_decimal_is_line(a * g);
    lemma_concat_is_line("Routers:            "@, decimal(a * g));
    assert(is_line("  (a="@));
    lemma_concat_is_line("Routers:            "@ + decimal(a * g), "  (a="@);
    lemma_decimal_is_line(a);
    lemma_concat_is_line("Routers:            "@ + decimal(a * g) + "  (a="@, decimal(a));
    assert(is_line(", g="@));
    lemma_concat_is_line("Routers:            "@ + decimal(a * g) + "  (a="@ + decimal(a), ", g="@);
    lemma_decimal_is_line(g);
    lemma_concat_is_line("Routers:            "@ + decimal(a * g) + "  (a="@ + decimal(a) + ", g="@, decimal(g));
    assert(is_line(")"@));
    lemma_concat_is_line("Routers:            "@ + decimal(a * g) + "  (a="@ + decimal(a) + ", g="@ + decimal(g), ")"@);
    assert(is_line("  IDs:              ["@));
    lemma_decimal_is_line(hosts);
    lemma_concat_is_line("  IDs:              ["@, decimal(hosts));
    assert(is_line(", "@));
    lemma_concat_is_line("  IDs:              ["@ + decimal(hosts), ", "@);
    lemma_decimal_is_line((hosts + a * g - 1) as nat);
    lemma_concat_is_line("  IDs:              ["@ + decimal(hosts) + ", "@, decimal((hosts + a * g - 1) as nat));
    assert(is_line("]"@));
    lemma_concat_is_line("  IDs:              ["@ + decimal(hosts) + ", "@ + decimal((hosts + a * g - 1) as nat), "]"@);
    assert(is_line("  Terminal ports:   "@));
    lemma_decimal_is_line(p * lph);
    lemma_concat_is_line("  Terminal ports:   "@, decimal(p * lph));
    assert(is_line(" (p="@));
    lemma_concat_is_line("  Terminal ports:   "@ + decimal(p * lph), " (p="@);
    lemma_decimal_is_line(p);
    lemma_concat_is_line("  Terminal ports:   "@ + decimal(p * lph) + " (p="@, decimal(p));
    assert(is_line(", links_per_host="@));
    lemma_concat_is_line("  Terminal ports:   "@ + decimal(p * lph) + " (p="@ + decimal(p), ", links_per_host="@);
    lemma_decimal_is_line(lph);
    lemma_concat_is_line("  Terminal ports:   "@ + decimal(p * lph) + " (p="@ + decimal(p) + ", links_per_host="@, decimal(lph));
    assert(is_line(")"@));
    lemma_concat_is_line("  Terminal ports:   "@ + decimal(p * lph) + " (p="@ + decimal(p) + ", links_per_host="@ + decimal(lph), ")"@);
    assert(is_line("  Local ports:      "@));
    lemma_decimal_is_line((a - 1) as nat);
    lemma_concat_is_line("  Local ports:      "@, decimal((a - 1) as nat));
    assert(is_line(" (a-1="@));
    lemma_concat_is_line("  Local ports:      "@ + decimal((a - 1) as nat), " (a-1="@);
    lemma_decimal_is_line((a - 1) as nat);
    lemma_concat_is_line("  Local ports:      "@ + decimal((a - 1) as nat) + " (a-1="@, decimal((a - 1) as nat));
    assert(is_line(")"@));
    lemma_concat_is_line("  Local ports:      "@ + decimal((a - 1) as nat) + " (a-1="@ + decimal((a - 1) as nat), ")"@);
    assert(is_line("  Global ports:     "@));
    lemma_decimal_is_line(h);
    lemma_concat_is_line("  Global ports:     "@, decimal(h));
    assert(is_line("  Ports used:       "@));
    lemma_decimal_is_line(k);
    lemma_concat_is_line("  Ports used:       "@, decimal(k));
    assert(is_line("/"@));
    lemma_concat_is_line("  Ports used:       "@ + decimal(k), "/"@);
    lemma_decimal_is_line(k);
    lemma_concat_is_line("  Ports used:       "@ + decimal(k) + "/"@, decimal(k));
    assert(is_line("Groups:             "@));
    lemma_decimal_is_line(g);
    lemma_concat_is_line("Groups:             "@, decimal(g));
    assert(is_line("  Routers/group:    "@));
    lemma_decimal_is_line(a);
    lemma_concat_is_line("  Routers/group:    "@, decimal(a));
    assert(is_line("  Hosts/group:      "@));
    lemma_decimal_is_line(a * p);
    lemma_concat_is_line("  Hosts/group:      "@, decimal(a * p));
    assert(is_line("  Intra-group links:"@));
    lemma_decimal_is_line(((a * (a - 1)) / 2) as nat);
    lemma_concat_is_line("  Intra-group links:"@, decimal(((a * (a - 1)) / 2) as nat));
    assert(is_line(" per group"@));
    lemma_concat_is_line("  Intra-group links:"@ + decimal(((a * (a - 1)) / 2) as nat), " per group"@);
    assert(is_line("Total links:        "@));
    lemma_decimal_is_line(links);
    lemma_concat_is_line("Total links:        "@, decimal(links));
    assert(p15[0] == l0);
    assert(p15[1] == l1);
    assert(p15[2] == l2);
    assert(p15[3] == l3);
    assert(p15[4] == l4);
    assert(p15[5] == l5);
    assert(p15[6] == l6);
    assert(p15[7] == l7);
    assert(p15[8] == l8);
    assert(p15[9] == l9);
    assert(p15[10] == l10);
    assert(p15[11] == l11);
    assert(p15[12] == l12);
    assert(p15[13] == l13);
    assert(p15[14] == l14);
}

/// What every generated Dragonfly satisfies: each router uses all of its
/// ports (host links, links to the rest of its group, global links), there
/// is room for every host, the router count is within budget, and the shape
/// has at least two groups of at least two routers, with an even number of
/// global link ends and at most `a * h + 1` groups. Its report (where its
/// numbers fit in a `u32`) is the fifteen lines of `dragonfly_report_lines`:
/// `a * g` routers, `k/k` ports used and `a * (a - 1) / 2` intra-group links
/// per group. (How the links meet each
/// host and router is part of what `generate` ensures: `dragonfly_link_laws`.)
pub proof fn lemma_dragonfly_topology_laws(
    t: DragonflyTopology,
    s: u32,
    n: u32,
    l: u32,
    hosts: u32,
    cap: u32,
)
    requires
        dragonfly_validation_error(s, n, l, hosts) is None,
        dragonfly_generated(t, s, n, l, hosts, cap),
    ensures
        t.hosts_per_router * t.links_per_host + (t.routers_per_group - 1)
            + t.global_links_per_router == t.ports_per_switch,
        t.hosts_per_router >= 1,
        t.hosts_per_router * t.routers_per_group * t.num_groups >= t.num_hosts,
        t.routers_per_group * t.num_groups <= cap,
        t.routers_per_group >= 2,
        2 <= t.num_groups <= t.routers_per_group * t.global_links_per_router + 1,
        (t.routers_per_group * t.num_groups * t.global_links_per_router) % 2 == 0,
        t.links_per_host * l == n,
        t.summary_fits() ==> t.summary_text() == dragonfly_report(
            hosts as nat,
            t.links_per_host as nat,
            l as nat,
            t.routers_per_group as nat,
            t.num_groups as nat,
            t.hosts_per_router as nat,
            t.global_links_per_router as nat,
            t.ports_per_switch as nat,
            t.links@.len(),
        ),        t.summary_fits() ==> t.summary_text() == join_lines(
            dragonfly_report_lines(
                hosts as nat,
                t.links_per_host as nat,
                l as nat,
                t.routers_per_group as nat,
                t.num_groups as nat,
                t.hosts_per_router as nat,
                t.global_links_per_router as nat,
                t.ports_per_switch as nat,
                t.links@.len(),
            ),
        ),
        dragonfly_report_lines(
            hosts as nat,
            t.links_per_host as nat,
            l as nat,
            t.routers_per_group as nat,
            t.num_groups as nat,
            t.hosts_per_router as nat,
            t.global_links_per_router as nat,
            t.ports_per_switch as nat,
            t.links@.len(),
        ).len() == 15,
        forall|i: int|
            0 <= i < 15 ==> is_line(
                #[trigger] dragonfly_report_lines(
                    hosts as nat,
                    t.links_per_host as nat,
                    l as nat,
                    t.routers_per_group as nat,
                    t.num_groups as nat,
                    t.hosts_per_router as nat,
                    t.global_links_per_router as nat,
                    t.ports_per_switch as nat,
                    t.links@.len(),
                )[i],
            ),
{
    let k = (s / l) as u32;
    let lph = (n / l) as u32;
    let c = best_config(k, lph, hosts, cap);
    vstd::arithmetic::div_mod::lemma_fundamental_div_mod(n as int, l as int);
    assert(lph * l == n && lph >= 1) by (nonlinear_arith)
        requires
            n == l * (n / l) + n % l,
            n % l == 0,
            lph == n / l,
            n > 0,
    ;
    let r = remaining_ports(k as int, c.0 as int, c.1 as int);
    vstd::arithmetic::div_mod::lemma_fundamental_div_mod(r, lph as int);
    assert(c.2 * lph == r) by (nonlinear_arith)
        requires
            r == lph * (r / lph as int) + r % lph as int,
            r % lph as int == 0,
            c.2 == r / lph as int,
    ;
    assert(c.2 >= 1) by (nonlinear_arith)
        requires
            c.2 * lph == r,
            r > 0,
    ;
    lemma_dragonfly_report_lines(
        hosts as nat,
        t.links_per_host as nat,
        l as nat,
        t.routers_per_group as nat,
        t.num_groups as nat,
        t.hosts_per_router as nat,
        t.global_links_per_router as nat,
        t.ports_per_switch as nat,
        t.links@.len(),
    );
}

/// How the links of `t` meet its hosts and routers: every link goes from a
/// lower id to a higher one, below the last router id; a link from a host
/// reaches a router and carries the host's whole bandwidth, every other link
/// carries `link_bandwidth`; each host has exactly one link; each router has
/// `a - 1` links to the other routers of its group and `h` links to routers
/// of other groups, so every router id occurs; and the routers of each group
/// are fully meshed.
pub open spec fn dragonfly_link_laws(t: DragonflyTopology) -> bool {
    let nh = t.num_hosts as int;
    let a = t.routers_per_group as int;
    let last = nh + a * t.num_groups;
    let s = t.links@;
    &&& forall|i: int| 0 <= i < s.len() ==> (#[trigger] s[i])[0] < s[i][1] < last
    &&& forall|i: int|
        0 <= i < s.len() && (#[trigger] s[i])[0] < nh ==> nh <= s[i][1] && s[i][2]
            == t.links_per_host * t.link_bandwidth
    &&& forall|i: int| 0 <= i < s.len() && nh <= (#[trigger] s[i])[0] ==> s[i][2] == t.link_bandwidth
    &&& forall|x: int|
        #![trigger link_sum(s, count_from(x))]
        #![trigger link_sum(s, count_into(x))]
        0 <= x < nh ==> link_sum(s, count_from(x)) == 1 && link_sum(s, count_into(x)) == 0
    &&& forall|x: int|
        #![trigger link_sum(s, local_ends(nh, a, x))]
        #![trigger link_sum(s, global_ends(nh, a, x))]
        nh <= x < last ==> link_sum(s, local_ends(nh, a, x)) == a - 1 && link_sum(
            s,
            global_ends(nh, a, x),
        ) == t.global_links_per_router
    &&& forall|x: int| nh <= x < last ==> #[trigger] id_occurs(s, x)
    &&& forall|grp: int, i: int, j: int|
        0 <= grp < t.num_groups && 0 <= i < j < a ==> #[trigger] has_link(
            s,
            nh + grp * a + i,
            nh + grp * a + j,
            t.link_bandwidth as int,
        )
}

/// Some link goes from `x` to `y` with bandwidth `bw`.
pub open spec fn has_link(s: Seq<[u32; 3]>, x: int, y: int, bw: int) -> bool {
    exists|i: int| 0 <= i < s.len() && (#[trigger] s[i])[0] == x && s[i][1] == y && s[i][2] == bw
}

/// Id `x` is an end of some link.
pub open spec fn id_occurs(s: Seq<[u32; 3]>, x: int) -> bool {
    exists|i: int| 0 <= i < s.len() && ((#[trigger] s[i])[0] == x || s[i][1] == x)
}

/// The links that generation puts together satisfy `dragonfly_link_laws`,
/// whatever order they end up in.
proof fn lemma_generated_link_laws(
    t: DragonflyTopology,
    nh: u32,
    lph: u32,
    l: u32,
    c: Config,
    w: Seq<(u32, u32)>,
)
    requires
        c.0 >= 2,
        c.3 >= 1,
        lph * l <= u32::MAX,
        nh + c.0 * c.3 <= u32::MAX + 1,
        host_links_upto(
            nh as int,
            c.0 as int,
            c.3 as int,
            nh as int,
            (lph * l) as u32,
            (c.0 * c.3) as nat,
        ).len() == nh,
        w == global_wiring(c.0, c.3, c.1),
        forall|k: int|
            0 <= k < w.len() ==> (#[trigger] w[k]).0 / c.0 < w[k].1 / c.0 && w[k].1 < c.0 * c.3,
        forall|r: int| 0 <= r < c.0 * c.3 ==> endpoint_count(w, r) == c.1,
        t.num_hosts == nh,
        t.routers_per_group == c.0,
        t.global_links_per_router == c.1,
        t.num_groups == c.3,
        t.links_per_host == lph,
        t.link_bandwidth == l,
        t.links@.to_multiset() == dragonfly_links(nh, lph, l, c).to_multiset(),
    ensures
        dragonfly_link_laws(t),
{
    broadcast use vstd::seq_lib::group_to_multiset_ensures;

    let (a, h, p, g) = c;
    let n = nh as int;
    let ai = a as int;
    let gi = g as int;
    let routers = ai * gi;
    let bw_host = (lph * l) as u32;
    let hl = host_links_upto(n, ai, gi, n, bw_host, (a * g) as nat);
    let il = intra_links_upto(ai, n, l, (g * a * a) as nat);
    let gl = global_links(a, g, h, n, l);
    let d = dragonfly_links(nh, lph, l, c);
    let s = t.links@;
    assert(d =~= hl + il + gl);
    assert(routers >= 1) by (nonlinear_arith)
        requires
            ai >= 2,
            gi >= 1,
            routers == ai * gi,
    ;
    lemma_host_links_shape(n, ai, gi, n, bw_host, (a * g) as nat);
    lemma_intra_shape(ai, gi, n, l, (g * a * a) as nat);
    lemma_global_degrees(ai, gi, w, n, l, n);
    // What every link of `d` looks like.
    assert forall|k: int| 0 <= k < d.len() implies {
        let e = #[trigger] d[k];
        &&& e[0] < e[1] < n + routers
        &&& (e[0] < n ==> n <= e[1] && e[2] == lph * l)
        &&& (n <= e[0] ==> e[2] == l)
    } by {
        if k < hl.len() {
            assert(d[k] == hl[k]);
        } else if k < hl.len() + il.len() {
            assert(d[k] == il[k - hl.len()]);
        } else {
            assert(d[k] == gl[k - hl.len() - il.len()]);
        }
    }
    assert forall|i: int| 0 <= i < s.len() implies {
        let e = #[trigger] s[i];
        &&& e[0] < e[1] < n + routers
        &&& (e[0] < n ==> n <= e[1] && e[2] == lph * l)
        &&& (n <= e[0] ==> e[2] == l)
    } by {
        assert(s.contains(s[i]));
        assert(d.to_multiset().count(s[i]) > 0);
        assert(d.contains(s[i]));
        let k = choose|k: int| 0 <= k < d.len() && d[k] == s[i];
        assert(d[k] == s[i]);
    }
    // Sums over `s` split into the three kinds of links.
    assert forall|x: int| 0 <= x < n implies link_sum(s, count_from(x)) == 1 && link_sum(
        s,
        count_into(x),
    ) == 0 by {
        lemma_link_sum_permutation(s, d, count_from(x));
        lemma_link_sum_permutation(s, d, count_into(x));
        lemma_link_sum_concat(hl + il, gl, count_from(x));
        lemma_link_sum_concat(hl, il, count_from(x));
        lemma_link_sum_concat(hl + il, gl, count_into(x));
        lemma_link_sum_concat(hl, il, count_into(x));
        lemma_count_from_numbered(hl, x);
        assert forall|k: int| 0 <= k < il.len() implies count_from(x)(#[trigger] il[k]) == 0
            && count_into(x)(il[k]) == 0 by {}
        assert forall|k: int| 0 <= k < gl.len() implies count_from(x)(#[trigger] gl[k]) == 0
            && count_into(x)(gl[k]) == 0 by {}
        assert forall|k: int| 0 <= k < hl.len() implies count_into(x)(#[trigger] hl[k]) == 0 by {}
        lemma_link_sum_zero(il, count_from(x));
        lemma_link_sum_zero(gl, count_from(x));
        lemma_link_sum_zero(hl, count_into(x));
        lemma_link_sum_zero(il, count_into(x));
        lemma_link_sum_zero(gl, count_into(x));
    }
    assert forall|x: int| n <= x < n + routers implies link_sum(s, local_ends(n, ai, x)) == ai - 1
        && link_sum(s, global_ends(n, ai, x)) == h by {
        lemma_link_sum_permutation(s, d, local_ends(n, ai, x));
        lemma_link_sum_permutation(s, d, global_ends(n, ai, x));
        lemma_link_sum_concat(hl + il, gl, local_ends(n, ai, x));
        lemma_link_sum_concat(hl, il, local_ends(n, ai, x));
        lemma_link_sum_concat(hl + il, gl, global_ends(n, ai, x));
        lemma_link_sum_concat(hl, il, global_ends(n, ai, x));
        assert forall|k: int| 0 <= k < hl.len() implies local_ends(n, ai, x)(#[trigger] hl[k]) == 0
            && global_ends(n, ai, x)(hl[k]) == 0 by {}
        lemma_link_sum_zero(hl, local_ends(n, ai, x));
        lemma_link_sum_zero(hl, global_ends(n, ai, x));
        lemma_intra_degrees(ai, gi, n, l, x);
        lemma_global_degrees(ai, gi, w, n, l, x);
    }
    assert forall|grp: int, i: int, j: int|
        0 <= grp < gi && 0 <= i < j < ai implies #[trigger] has_link(
            s,
            n + grp * ai + i,
            n + grp * ai + j,
            l as int,
        ) by {
        let e = [(n + grp * ai + i) as u32, (n + grp * ai + j) as u32, l];
        assert(grp * (ai * ai) + i * ai + j < gi * ai * ai) by (nonlinear_arith)
            requires
                0 <= grp < gi,
                0 <= i < j < ai,
        ;
        lemma_intra_has_pair(ai, n, l, grp, i, j, (g * a * a) as nat);
        let k = choose|k: int| 0 <= k < il.len() && il[k] == e;
        assert(d[hl.len() + k] == e);
        assert(d.contains(e));
        assert(s.to_multiset().count(e) > 0);
        let m = choose|m: int| 0 <= m < s.len() && s[m] == e;
        assert(grp * ai + j < routers) by (nonlinear_arith)
            requires
                0 <= grp < gi,
                0 <= j < ai,
                routers == ai * gi,
        {
            assert(grp * ai + ai <= gi * ai) by (nonlinear_arith)
                requires
                    grp + 1 <= gi,
                    ai >= 0,
            ;
        }
        assert(grp * ai + i >= 0) by (nonlinear_arith)
            requires
                0 <= grp,
                0 <= i,
                ai >= 2,
        ;
        assert(s[m][0] == n + grp * ai + i && s[m][1] == n + grp * ai + j && s[m][2] == l);
    }
    assert forall|x: int| n <= x < n + routers implies #[trigger] id_occurs(s, x) by {
        assert forall|i: int| 0 <= i < s.len() implies local_ends(n, ai, x)(#[trigger] s[i]) >= 0 by {}
        lemma_link_sum_witness(s, local_ends(n, ai, x));
        let i = choose|i: int| 0 <= i < s.len() && local_ends(n, ai, x)(#[trigger] s[i]) > 0;
        assert(s[i][0] == x || s[i][1] == x);
    }
}

/// The intra-group links: every pair of routers `i < j` in every group.
fn intra_links(a: u32, g: u32, start: u32, bw: u32, links: &mut Vec<[u32; 3]>)
    requires
        a >= 1,
        g >= 1,
        start + a * g <= u32::MAX + 1,
    ensures
        final(links)@ == old(links)@ + intra_links_upto(a as int, start as int, bw, (g * a * a) as nat),
        2 * (final(links)@.len() - old(links)@.len()) == g * a * (a - 1),
{
    let ghost base = old(links)@;
    let mut grp: u32 = 0;
    while grp < g
        invariant
            a >= 1,
            g >= 1,
            start + a * g <= u32::MAX + 1,
            grp <= g,
            links@ == base + intra_links_upto(a as int, start as int, bw, (grp * a * a) as nat),
            2 * (links@.len() - base.len()) == grp * a * (a - 1),
        decreases g - grp,
    {
        proof {
            assert(grp * a + a <= a * g) by (nonlinear_arith)
                requires
                    grp < g,
                    a >= 1,
            ;
        }
        let mut i: u32 = 0;
        while i < a
            invariant
                a >= 1,
                g >= 1,
                grp < g,
                grp * a + a <= a * g,
                start + a * g <= u32::MAX + 1,
                i <= a,
                links@ == base + intra_links_upto(
                    a as int,
                    start as int,
                    bw,
                    (grp * a * a + i * a) as nat,
                ),
                2 * (links@.len() - base.len()) == grp * a * (a - 1) + i * (2 * a - i - 1),
            decreases a - i,
        {
            let mut j: u32 = 0;
            while j < a
                invariant
                    a >= 1,
                    g >= 1,
                    grp < g,
                    grp * a + a <= a * g,
                    start + a * g <= u32::MAX + 1,
                    i < a,
                    j <= a,
                    links@ == base + intra_links_upto(
                        a as int,
                        start as int,
                        bw,
                        (grp * a * a + i * a + j) as nat,
                    ),
                    2 * (links@.len() - base.len()) == grp * a * (a - 1) + i * (2 * a - i - 1) + 2 * (
                    if j > i {
                        j - i - 1
                    } else {
                        0
                    }),
                decreases a - j,
            {
                let ghost q = grp * a * a + i * a + j;
                proof {
                    assert(q == (grp * a + i) * a + j) by (nonlinear_arith)
                        requires
                            q == grp * a * a + i * a + j,
                    ;
                    vstd::arithmetic::div_mod::lemma_fundamental_div_mod_converse(
                        q,
                        a as int,
                        grp * a + i,
                        j as int,
                    );
                    vstd::arithmetic::div_mod::lemma_fundamental_div_mod_converse(
                        grp * a + i,
                        a as int,
                        grp as int,
                        i as int,
                    );
                    assert(q == grp * (a * a) + (i * a + j)) by (nonlinear_arith)
                        requires
                            q == grp * a * a + i * a + j,
                    ;
                    assert(0 <= i * a + j < a * a) by (nonlinear_arith)
                        requires
                            i < a,
                            j < a,
                    ;
                    vstd::arithmetic::div_mod::lemma_fundamental_div_mod_converse(
                        q,
                        a * a,
                        grp as int,
                        i * a + j,
                    );
                }
                if i < j {
                    let src = start + grp * a + i;
                    let dst = start + grp * a + j;
                    links.push([src, dst, bw]);
                }
                proof {
                    assert(links@ =~= base + intra_links_upto(
                        a as int,
                        start as int,
                        bw,
                        (q + 1) as nat,
                    ));
                }
                j = j + 1;
            }
            proof {
                assert(grp * a * a + i * a + a == grp * a * a + (i + 1) * a) by (nonlinear_arith);
                assert(i * (2 * a - i - 1) + 2 * (a - i - 1) == (i + 1) * (2 * a - (i + 1) - 1))
                    by (nonlinear_arith);
            }
            i = i + 1;
        }
        proof {
            assert(grp * a * a + a * a == (grp + 1) * a * a) by (nonlinear_arith);
            assert(grp * a * (a - 1) + a * (2 * a - a - 1) == (grp + 1) * a * (a - 1))
                by (nonlinear_arith);
        }
        grp = grp + 1;
    }
}

/// Builds a high-bandwidth Dragonfly for the given switch and NIC
/// throughputs, link bandwidth and host count, using the preferred shape with
/// at most `router_cap` routers in all (see `config::find_best_config`).
///
/// Hosts are dealt round-robin over the routers, routers within a group are
/// fully meshed, and the global links are wired as in `wiring`. The links
/// come out in ascending order and satisfy `dragonfly_link_laws`.
pub fn generate(
    switch_throughput: u32,
    nic_throughput: u32,
    link_bandwidth: u32,
    num_hosts: u32,
    router_cap: u32,
) -> (res: Result<DragonflyTopology, String>)
    requires
        dragonfly_ready(switch_throughput, nic_throughput, link_bandwidth, num_hosts, router_cap),
    ensures
        match res {
            Err(e) => dragonfly_validation_error(
                switch_throughput,
                nic_throughput,
                link_bandwidth,
                num_hosts,
            ) == Some(e@),
            Ok(t) => dragonfly_validation_error(
                switch_throughput,
                nic_throughput,
                link_bandwidth,
                num_hosts,
            ) is None && dragonfly_generated(
                t,
                switch_throughput,
                nic_throughput,
                link_bandwidth,
                num_hosts,
                router_cap,
            ) && 2 * t.links@.len() == 2 * num_hosts + t.num_groups * t.routers_per_group * (
            t.routers_per_group - 1) + t.routers_per_group * t.num_groups
                * t.global_links_per_router && dragonfly_link_laws(t),
        },
{
    match validate_inputs(switch_throughput, nic_throughput, link_bandwidth, num_hosts) {
        Err(e) => {
            return Err(e);
        },
        Ok(()) => {},
    }
    let l = link_bandwidth;
    let ports = switch_throughput / l;
    let lph = nic_throughput / l;
    proof {
        vstd::arithmetic::div_mod::lemma_fundamental_div_mod(nic_throughput as int, l as int);
        assert(lph * l == nic_throughput && lph >= 1) by (nonlinear_arith)
            requires
                nic_throughput == l * (nic_throughput / l) + nic_throughput % l,
                nic_throughput % l == 0,
                lph == nic_throughput / l,
                nic_throughput > 0,
        ;
    }
    let (a, h, p, g) = find_best_config(ports, lph, num_hosts, router_cap);
    let ghost c: Config = (a, h, p, g);
    proof {
        lemma_best_config_unique(ports, lph, num_hosts, router_cap, c);
        lemma_config_uses_all_ports(ports, lph, num_hosts, c);
    }
    let agg_host_bw = lph * l;
    let mut links = host_links(num_hosts, a, g, p, num_hosts, agg_host_bw);
    assert(host_links_upto(
        num_hosts as int,
        a as int,
        g as int,
        num_hosts as int,
        (lph * l) as u32,
        (a * g) as nat,
    ).len() == num_hosts);
    intra_links(a, g, num_hosts, l, &mut links);
    let global = wire_global_links(a, g, h);
    let ghost before_global = links@;
    let mut k: usize = 0;
    while k < global.len()
        invariant
            k <= global@.len(),
            num_hosts + a * g <= u32::MAX + 1,
            forall|i: int|
                0 <= i < global@.len() ==> (#[trigger] global@[i]).0 / a < global@[i].1 / a
                    && global@[i].1 < a * g,
            global@ == global_wiring(a, g, h),
            links@ == before_global + global_links(a, g, h, num_hosts as int, l).take(k as int),
            links@.len() == before_global.len() + k,
        decreases global@.len() - k,
    {
        let (src_off, dst_off) = global[k];
        proof {
            assert(src_off < a * g) by (nonlinear_arith)
                requires
                    src_off / a < dst_off / a,
                    dst_off < a * g,
                    a >= 1,
            ;
        }
        links.push([num_hosts + src_off, num_hosts + dst_off, l]);
        proof {
            assert(global_links(a, g, h, num_hosts as int, l).take(k + 1) =~= global_links(
                a,
                g,
                h,
                num_hosts as int,
                l,
            ).take(k as int).push([(num_hosts + src_off) as u32, (num_hosts + dst_off) as u32, l]));
        }
        k = k + 1;
    }
    proof {
        assert(global_links(a, g, h, num_hosts as int, l).take(global@.len() as int) =~= global_links(
            a,
            g,
            h,
            num_hosts as int,
            l,
        ));
    }
    sort_links(&mut links);
    let t = DragonflyTopology {
        num_hosts,
        routers_per_group: a,
        num_groups: g,
        hosts_per_router: p,
        global_links_per_router: h,
        ports_per_switch: ports,
        links_per_host: lph,
        link_bandwidth: l,
        links,
    };
    proof {
        lemma_generated_link_laws(t, num_hosts, lph, l, c, global@);
    }
    Ok(t)
}

} // verus!
