//! Attaching hosts to routers: hosts are dealt round-robin over the routers,
//! taking router 0 of every group, then router 1 of every group, and so on;
//! then each router's hosts get consecutive ids, router by router.

use vstd::prelude::*;
use crate::dragonfly_high_bw::wiring::{range_sum, lemma_range_sum_update, lemma_range_sum_lower, lemma_range_sum_const};

verus! {

/// Where router `ro` (router `ro % a` of group `ro / a`) comes in the
/// round-robin order.
pub open spec fn deal_position(a: int, g: int, ro: int) -> int {
    (ro % a) * g + ro / a
}

/// The number of hosts dealt to router `ro` when `n` hosts are dealt over
/// `a * g` routers.
pub open spec fn host_count(n: int, a: int, g: int, ro: int) -> int {
    n / (a * g) + (if deal_position(a, g, ro) < n % (a * g) {
        1int
    } else {
        0
    })
}

/// The host links of routers `0 .. ro`: each router's hosts in turn, with
/// consecutive host ids.
pub open spec fn host_links_upto(n: int, a: int, g: int, start: int, bw: u32, ro: nat) -> Seq<
    [u32; 3],
>
    decreases ro,
{
    if ro == 0 {
        Seq::empty()
    } else {
        let prev = host_links_upto(n, a, g, start, bw, (ro - 1) as nat);
        prev + Seq::new(
            host_count(n, a, g, ro - 1) as nat,
            |j: int| [(prev.len() + j) as u32, (start + ro - 1) as u32, bw],
        )
    }
}

/// Round-robin dealing is even: any two routers get host counts that
/// differ by at most one.
pub proof fn lemma_hosts_spread_evenly(n: int, a: int, g: int, ro1: int, ro2: int)
    ensures
        host_count(n, a, g, ro1) <= host_count(n, a, g, ro2) + 1,
{
}

/// Counting the hosts dealt so far: dealing host `c` to position `c % t`
/// adds one to exactly that position's count.
pub(crate) proof fn lemma_deal_step(c: int, t: int, pos: int)
    requires
        c >= 0,
        0 <= pos < t,
    ensures
        (c + 1) / t + (if pos < (c + 1) % t {
            1int
        } else {
            0
        }) == c / t + (if pos < c % t {
            1int
        } else {
            0
        }) + (if c % t == pos {
            1int
        } else {
            0
        }),
{
    vstd::arithmetic::div_mod::lemma_fundamental_div_mod(c, t);
    let q = c / t;
    let r = c % t;
    if r + 1 < t {
        assert(c + 1 == q * t + (r + 1)) by (nonlinear_arith)
            requires
                c == t * q + r,
        ;
        vstd::arithmetic::div_mod::lemma_fundamental_div_mod_converse(c + 1, t, q, r + 1);
    } else {
        assert(c + 1 == (q + 1) * t + 0) by (nonlinear_arith)
            requires
                c == t * q + r,
                r + 1 == t,
        ;
        vstd::arithmetic::div_mod::lemma_fundamental_div_mod_converse(c + 1, t, q + 1, 0);
    }
}

/// Router `grp * a + r` (with `r < a`, `grp < g`) is router `r` of group
/// `grp`, dealt at position `r * g + grp`.
proof fn lemma_router_position(a: int, g: int, grp: int, r: int)
    requires
        a >= 1,
        g >= 1,
        0 <= grp < g,
        0 <= r < a,
    ensures
        (grp * a + r) % a == r,
        (grp * a + r) / a == grp,
        deal_position(a, g, grp * a + r) == r * g + grp,
        0 <= grp * a + r < a * g,
        0 <= r * g + grp < a * g,
        (r * g + grp) % g == grp,
        (r * g + grp) / g == r,
{
    vstd::arithmetic::div_mod::lemma_fundamental_div_mod_converse(grp * a + r, a, grp, r);
    vstd::arithmetic::div_mod::lemma_fundamental_div_mod_converse(r * g + grp, g, r, grp);
    assert(0 <= grp * a + r < a * g) by (nonlinear_arith)
        requires
            0 <= grp < g,
            0 <= r < a,
    ;
    assert(0 <= r * g + grp < a * g) by (nonlinear_arith)
        requires
            0 <= grp < g,
            0 <= r < a,
    ;
}

/// Every router is dealt at a distinct position.
proof fn lemma_position_injective(a: int, g: int, ro1: int, ro2: int)
    requires
        a >= 1,
        g >= 1,
        0 <= ro1 < a * g,
        0 <= ro2 < a * g,
        deal_position(a, g, ro1) == deal_position(a, g, ro2),
    ensures
        ro1 == ro2,
{
    vstd::arithmetic::div_mod::lemma_fundamental_div_mod(ro1, a);
    vstd::arithmetic::div_mod::lemma_fundamental_div_mod(ro2, a);
    let g1 = ro1 / a;
    let g2 = ro2 / a;
    assert(0 <= g1 < g && 0 <= g2 < g) by (nonlinear_arith)
        requires
            0 <= ro1 < a * g,
            0 <= ro2 < a * g,
            ro1 == a * g1 + ro1 % a,
            ro2 == a * g2 + ro2 % a,
            0 <= ro1 % a < a,
            0 <= ro2 % a < a,
            a >= 1,
    ;
    lemma_router_position(a, g, g1, ro1 % a);
    lemma_router_position(a, g, g2, ro2 % a);
    assert(ro1 == g1 * a + ro1 % a) by (nonlinear_arith)
        requires
            ro1 == a * g1 + ro1 % a,
    ;
    assert(ro2 == g2 * a + ro2 % a) by (nonlinear_arith)
        requires
            ro2 == a * g2 + ro2 % a,
    ;
}

/// A router never gets more than `p` hosts when `p * a * g >= n`.
proof fn lemma_host_count_bound(n: int, a: int, g: int, p: int, ro: int)
    requires
        n >= 0,
        a >= 1,
        g >= 1,
        p >= 0,
        p * a * g >= n,
        0 <= ro,
    ensures
        0 <= host_count(n, a, g, ro) <= p,
{
    let t = a * g;
    assert(t >= 1) by (nonlinear_arith)
        requires
            a >= 1,
            g >= 1,
            t == a * g,
    ;
    vstd::arithmetic::div_mod::lemma_fundamental_div_mod(n, t);
    assert(n / t <= p) by (nonlinear_arith)
        requires
            n == t * (n / t) + n % t,
            n % t >= 0,
            p * a * g >= n,
            t == a * g,
            t >= 1,
    ;
    if n / t == p {
        assert(n % t == 0) by (nonlinear_arith)
            requires
                n == t * (n / t) + n % t,
                n / t == p,
                p * a * g >= n,
                t == a * g,
                n % t >= 0,
        ;
    }
}

/// Partial sums of non-negative entries grow.
proof fn lemma_range_sum_mono(s: Seq<u32>, m: int, k: int)
    requires
        0 <= m <= k <= s.len(),
    ensures
        range_sum(s, 0, m) <= range_sum(s, 0, k),
    decreases k - m,
{
    if m < k {
        lemma_range_sum_mono(s, m, k - 1);
    }
}

/// The links from the hosts to their routers (router ids start at `start`),
/// dealt as described above; no router gets more than `p` hosts.
pub fn host_links(n: u32, a: u32, g: u32, p: u32, start: u32, bw: u32) -> (links: Vec<[u32; 3]>)
    requires
        a >= 1,
        g >= 1,
        a * g <= u32::MAX,
        p * a * g >= n,
        start + a * g <= u32::MAX + 1,
    ensures
        links@ == host_links_upto(n as int, a as int, g as int, start as int, bw, (a * g) as nat),
        links@.len() == n,
        forall|ro: int| 0 <= ro < a * g ==> host_count(n as int, a as int, g as int, ro) <= p,
{
    let total = a * g;
    let tu = total as usize;
    let au = a as usize;
    let gu = g as usize;
    let mut counts: Vec<u32> = Vec::new();
    let mut k: usize = 0;
    while k < tu
        invariant
            k <= tu,
            counts@ =~= Seq::new(k as nat, |j: int| 0u32),
        decreases tu - k,
    {
        counts.push(0);
        k = k + 1;
    }
    // The round-robin order: router 0 of every group, then router 1, ...
    let mut rr: Vec<u32> = Vec::new();
    let mut r: u32 = 0;
    while r < a
        invariant
            a >= 1,
            g >= 1,
            a * g <= u32::MAX,
            r <= a,
            rr@.len() == r * g,
            forall|idx: int|
                0 <= idx < rr@.len() ==> #[trigger] rr@[idx] == (idx % (g as int)) * a + idx / (
                g as int),
        decreases a - r,
    {
        let mut grp: u32 = 0;
        while grp < g
            invariant
                a >= 1,
                g >= 1,
                a * g <= u32::MAX,
                r < a,
                grp <= g,
                rr@.len() == r * g + grp,
                forall|idx: int|
                    0 <= idx < rr@.len() ==> #[trigger] rr@[idx] == (idx % (g as int)) * a + idx
                        / (g as int),
            decreases g - grp,
        {
            proof {
                lemma_router_position(a as int, g as int, grp as int, r as int);
            }
            rr.push(grp * a + r);
            grp = grp + 1;
        }
        proof {
            assert(r * g + g == (r + 1) * g) by (nonlinear_arith);
        }
        r = r + 1;
    }
    proof {
        lemma_range_sum_const(counts@, 0, total as int, 0);
        assert(total >= 1) by (nonlinear_arith)
            requires
                a >= 1,
                g >= 1,
                total == a * g,
        ;
    }
    let mut i: u32 = 0;
    while i < n
        invariant
            a >= 1,
            g >= 1,
            total == a * g,
            total >= 1,
            tu == total,
            i <= n,
            rr@.len() == total,
            forall|idx: int|
                0 <= idx < rr@.len() ==> #[trigger] rr@[idx] == (idx % (g as int)) * a + idx / (
                g as int),
            counts@.len() == total,
            range_sum(counts@, 0, total as int) == i,
            forall|ro: int|
                0 <= ro < total ==> #[trigger] counts@[ro] == i as int / (total as int) + (if deal_position(
                    a as int,
                    g as int,
                    ro,
                ) < i as int % (total as int) {
                    1int
                } else {
                    0
                }),
        decreases n - i,
    {
        let idx = (i % total) as usize;
        let ro = rr[idx] as usize;
        proof {
            let grp = (idx as int) % (g as int);
            let rr_ = (idx as int) / (g as int);
            vstd::arithmetic::div_mod::lemma_fundamental_div_mod(idx as int, g as int);
            assert(0 <= rr_ < a) by (nonlinear_arith)
                requires
                    idx as int == g * rr_ + grp,
                    0 <= grp < g,
                    0 <= idx < a * g,
            ;
            assert(idx as int == rr_ * g + grp) by (nonlinear_arith)
                requires
                    idx as int == g * rr_ + grp,
            ;
            lemma_router_position(a as int, g as int, grp, rr_);
            assert(deal_position(a as int, g as int, ro as int) == idx);
            assert forall|o: int| 0 <= o < total implies (deal_position(a as int, g as int, o)
                == i as int % (total as int)) == (o == ro) by {
                if deal_position(a as int, g as int, o) == i as int % (total as int) {
                    lemma_position_injective(a as int, g as int, o, ro as int);
                }
            }
            assert forall|o: int| 0 <= o < total implies 0 <= #[trigger] deal_position(a as int, g as int, o) < total by {
                vstd::arithmetic::div_mod::lemma_fundamental_div_mod(o, a as int);
                assert(0 <= o / (a as int) < g) by (nonlinear_arith)
                    requires
                        0 <= o < a * g,
                        o == a * (o / (a as int)) + o % (a as int),
                        0 <= o % (a as int) < a,
                        a >= 1,
                ;
                lemma_router_position(a as int, g as int, o / (a as int), o % (a as int));
                assert(o == (o / (a as int)) * a + o % (a as int)) by (nonlinear_arith)
                    requires
                        o == a * (o / (a as int)) + o % (a as int),
                ;
            }
            assert forall|o: int| 0 <= o < total implies #[trigger] counts@[o] <= i by {
                lemma_range_sum_update(counts@, 0, total as int, o, 0);
                lemma_range_sum_lower(counts@.update(o, 0), 0, total as int, 0);
            }
        }
        let ghost c0 = counts@;
        counts.set(ro, counts[ro] + 1);
        proof {
            lemma_range_sum_update(c0, 0, total as int, ro as int, (c0[ro as int] + 1) as u32);
            assert forall|o: int| 0 <= o < total implies #[trigger] counts@[o] == (i + 1) / (
            total as int) + (if deal_position(a as int, g as int, o) < (i + 1) % (total as int) {
                1int
            } else {
                0
            }) by {
                lemma_deal_step(i as int, total as int, deal_position(a as int, g as int, o));
            }
        }
        i = i + 1;
    }
    let mut links: Vec<[u32; 3]> = Vec::new();
    let mut host_id: u32 = 0;
    let mut ro: usize = 0;
    while ro < tu
        invariant
            a >= 1,
            g >= 1,
            total == a * g,
            tu == total,
            ro <= tu,
            counts@.len() == total,
            range_sum(counts@, 0, total as int) == n,
            forall|o: int| 0 <= o < total ==> #[trigger] counts@[o] == host_count(n as int, a as int, g as int, o),
            start + total <= u32::MAX + 1,
            host_id == range_sum(counts@, 0, ro as int),
            links@ == host_links_upto(n as int, a as int, g as int, start as int, bw, ro as nat),
            links@.len() == host_id,
        decreases tu - ro,
    {
        let cnt = counts[ro];
        let rid = start + ro as u32;
        let ghost base = links@;
        proof {
            lemma_range_sum_mono(counts@, ro as int + 1, total as int);
        }
        let mut j: u32 = 0;
        while j < cnt
            invariant
                j <= cnt,
                ro < tu,
                cnt == counts@[ro as int],
                rid == start + ro,
                host_id == range_sum(counts@, 0, ro as int) + j,
                range_sum(counts@, 0, ro as int) + cnt <= n,
                links@ == base + Seq::new(
                    j as nat,
                    |jj: int| [(base.len() + jj) as u32, (start + ro) as u32, bw],
                ),
                base.len() == range_sum(counts@, 0, ro as int),
            decreases cnt - j,
        {
            links.push([host_id, rid, bw]);
            host_id = host_id + 1;
            j = j + 1;
            proof {
                assert(links@ =~= base + Seq::new(
                    j as nat,
                    |jj: int| [(base.len() + jj) as u32, (start + ro) as u32, bw],
                ));
            }
        }
        ro = ro + 1;
    }
    proof {
        assert forall|o: int| 0 <= o < a * g implies host_count(n as int, a as int, g as int, o) <= p by {
            lemma_host_count_bound(n as int, a as int, g as int, p as int, o);
        }
    }
    links
}

/// Link `i` of the host links leaves host `i` for one of the routers
/// `start .. start + ro`, with bandwidth `bw`.
pub proof fn lemma_host_links_shape(n: int, a: int, g: int, start: int, bw: u32, ro: nat)
    requires
        n >= 0,
        a >= 1,
        g >= 1,
        start >= 0,
        start + ro <= u32::MAX + 1,
        host_links_upto(n, a, g, start, bw, ro).len() <= u32::MAX + 1,
    ensures
        forall|i: int|
            0 <= i < host_links_upto(n, a, g, start, bw, ro).len() ==> {
                let e = #[trigger] host_links_upto(n, a, g, start, bw, ro)[i];
                &&& e[0] == i
                &&& start <= e[1] < start + ro
                &&& e[2] == bw
            },
    decreases ro,
{
    if ro > 0 {
        let prev = host_links_upto(n, a, g, start, bw, (ro - 1) as nat);
        let cnt = host_count(n, a, g, ro - 1);
        assert(a * g >= 1) by (nonlinear_arith)
            requires
                a >= 1,
                g >= 1,
        ;
        assert(n / (a * g) >= 0) by (nonlinear_arith)
            requires
                n >= 0,
                a * g >= 1,
        ;
        assert(cnt >= 0);
        lemma_host_links_shape(n, a, g, start, bw, (ro - 1) as nat);
        let cur = host_links_upto(n, a, g, start, bw, ro);
        assert forall|i: int| 0 <= i < cur.len() implies {
            let e = #[trigger] cur[i];
            &&& e[0] == i
            &&& start <= e[1] < start + ro
            &&& e[2] == bw
        } by {
            if i < prev.len() {
                assert(cur[i] == prev[i]);
            }
        }
    }
}

} // verus!
