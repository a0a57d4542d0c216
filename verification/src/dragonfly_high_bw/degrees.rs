//! How the links of a Dragonfly meet its routers: every router has `a - 1`
//! links inside its group and `h` links to other groups.

use vstd::prelude::*;
use crate::links::link_sum;
use crate::dragonfly_high_bw::{intra_link, intra_links_upto, offset_links};
use crate::dragonfly_high_bw::wiring::endpoint_count;

verus! {

/// The group of router id `y`, when router ids start at `start` and each
/// group has `a` routers.
pub open spec fn group_of(start: int, a: int, y: int) -> int {
    (y - start) / a
}

/// Counts the links between router `x` and another router of its group.
pub open spec fn local_ends(start: int, a: int, x: int) -> spec_fn([u32; 3]) -> int {
    |e: [u32; 3]|
        if start <= e[0] && start <= e[1] && e[0] != e[1] && group_of(start, a, e[0] as int)
            == group_of(start, a, e[1] as int) && (e[0] == x || e[1] == x) {
            1int
        } else {
            0int
        }
}

/// Counts the links between router `x` and a router of another group.
pub open spec fn global_ends(start: int, a: int, x: int) -> spec_fn([u32; 3]) -> int {
    |e: [u32; 3]|
        if start <= e[0] && start <= e[1] && group_of(start, a, e[0] as int) != group_of(
            start,
            a,
            e[1] as int,
        ) && (e[0] == x || e[1] == x) {
            1int
        } else {
            0int
        }
}

/// Entry `q` of the `(group, i, j)` table.
proof fn lemma_table_entry(a: int, q: int)
    requires
        a >= 1,
        q >= 0,
    ensures
        q == (q / (a * a)) * (a * a) + ((q / a) % a) * a + q % a,
        0 <= (q / a) % a < a,
        0 <= q % a < a,
        q / (a * a) >= 0,
{
    vstd::arithmetic::div_mod::lemma_fundamental_div_mod(q, a);
    vstd::arithmetic::div_mod::lemma_fundamental_div_mod(q / a, a);
    vstd::arithmetic::div_mod::lemma_div_denominator(q, a, a);
    let g = q / (a * a);
    let i = (q / a) % a;
    let j = q % a;
    assert(q == g * (a * a) + i * a + j) by (nonlinear_arith)
        requires
            q == a * (q / a) + j,
            q / a == a * g + i,
    ;
    assert(g >= 0) by (nonlinear_arith)
        requires
            q >= 0,
            a >= 1,
            g == q / (a * a),
    ;
}

/// The table entry of `grp * a * a + i * a + j` is `(grp, i, j)`.
proof fn lemma_table_decode(a: int, q: int, grp: int, i: int, j: int)
    requires
        a >= 1,
        grp >= 0,
        0 <= i < a,
        0 <= j < a,
        q == grp * (a * a) + i * a + j,
    ensures
        q / (a * a) == grp,
        (q / a) % a == i,
        q % a == j,
{
    assert(q == (grp * a + i) * a + j) by (nonlinear_arith)
        requires
            q == grp * (a * a) + i * a + j,
    ;
    vstd::arithmetic::div_mod::lemma_fundamental_div_mod_converse(q, a, grp * a + i, j);
    vstd::arithmetic::div_mod::lemma_fundamental_div_mod_converse(grp * a + i, a, grp, i);
    assert(q >= 0) by (nonlinear_arith)
        requires
            q == grp * (a * a) + i * a + j,
            grp >= 0,
            i >= 0,
            j >= 0,
            a >= 1,
    ;
    vstd::arithmetic::div_mod::lemma_div_denominator(q, a, a);
}

/// Router offset `grp * a + i` (with `i < a`) is router `i` of group `grp`.
proof fn lemma_router_offset(a: int, grp: int, i: int)
    requires
        a >= 1,
        0 <= i < a,
    ensures
        (grp * a + i) / a == grp,
        (grp * a + i) % a == i,
{
    vstd::arithmetic::div_mod::lemma_fundamental_div_mod_converse(grp * a + i, a, grp, i);
}

/// Every intra-group link joins two distinct routers of one group, lower
/// id first, with bandwidth `bw`.
pub proof fn lemma_intra_shape(a: int, g: int, start: int, bw: u32, q: nat)
    requires
        a >= 1,
        g >= 1,
        start >= 0,
        start + a * g <= u32::MAX + 1,
        q <= g * a * a,
    ensures
        forall|k: int|
            0 <= k < intra_links_upto(a, start, bw, q).len() ==> {
                let e = #[trigger] intra_links_upto(a, start, bw, q)[k];
                &&& start <= e[0] < e[1] < start + a * g
                &&& group_of(start, a, e[0] as int) == group_of(start, a, e[1] as int)
                &&& e[2] == bw
            },
    decreases q,
{
    if q > 0 {
        let w = q - 1;
        lemma_intra_shape(a, g, start, bw, w as nat);
        let prev = intra_links_upto(a, start, bw, w as nat);
        let cur = intra_links_upto(a, start, bw, q);
        if (w / a) % a < w % a {
            lemma_table_entry(a, w);
            let grp = w / (a * a);
            let i = (w / a) % a;
            let j = w % a;
            assert(grp < g) by (nonlinear_arith)
                requires
                    w == grp * (a * a) + i * a + j,
                    0 <= i,
                    0 <= j,
                    w < g * a * a,
                    a >= 1,
            ;
            assert(grp * a + j < a * g) by (nonlinear_arith)
                requires
                    0 <= grp < g,
                    j < a,
                    a >= 1,
            ;
            assert(grp * a + i >= 0) by (nonlinear_arith)
                requires
                    grp >= 0,
                    i >= 0,
                    a >= 1,
            ;
            lemma_router_offset(a, grp, i);
            lemma_router_offset(a, grp, j);
            assert(cur =~= prev.push(intra_link(a, start, bw, w)));
        } else {
            assert(cur =~= prev);
        }
        assert forall|k: int| 0 <= k < cur.len() implies {
            let e = #[trigger] cur[k];
            &&& start <= e[0] < e[1] < start + a * g
            &&& group_of(start, a, e[0] as int) == group_of(start, a, e[1] as int)
            &&& e[2] == bw
        } by {
            if k < prev.len() {
                assert(cur[k] == prev[k]);
            }
        }
    }
}

/// The number of table entries before `q` that give a link of router `r` of
/// group `gx`: counting row by row, rows before row `r` give one link each,
/// row `r` gives the links to routers `r + 1 .. a`, later rows none.
pub open spec fn intra_local_upto(a: int, gx: int, r: int, q: int) -> int {
    let grp = q / (a * a);
    let i = (q / a) % a;
    let j = q % a;
    if grp < gx {
        0
    } else if grp > gx {
        a - 1
    } else {
        (if i <= r {
            i
        } else {
            a - 1
        }) + (if i < r {
            if r < j {
                1int
            } else {
                0
            }
        } else if i == r {
            if j > r + 1 {
                j - r - 1
            } else {
                0
            }
        } else {
            0
        })
    }
}

/// Counting the intra-group links of router `x` entry by entry.
proof fn lemma_intra_local(a: int, g: int, start: int, bw: u32, x: int, q: nat)
    requires
        a >= 1,
        g >= 1,
        start >= 0,
        start + a * g <= u32::MAX + 1,
        q <= g * a * a,
        start <= x < start + a * g,
    ensures
        link_sum(intra_links_upto(a, start, bw, q), local_ends(start, a, x)) == intra_local_upto(
            a,
            group_of(start, a, x),
            (x - start) % a,
            q as int,
        ),
    decreases q,
{
    let gx = group_of(start, a, x);
    let r = (x - start) % a;
    vstd::arithmetic::div_mod::lemma_fundamental_div_mod(x - start, a);
    if q == 0 {
        lemma_table_decode(a, 0, 0, 0, 0);
        assert(gx >= 0) by (nonlinear_arith)
            requires
                x - start >= 0,
                a >= 1,
                gx == (x - start) / a,
        ;
    } else {
        let w = q - 1;
        lemma_intra_local(a, g, start, bw, x, w as nat);
        lemma_table_entry(a, w);
        let grp = w / (a * a);
        let i = (w / a) % a;
        let j = w % a;
        let prev = intra_links_upto(a, start, bw, w as nat);
        let cur = intra_links_upto(a, start, bw, q);
        if j + 1 < a {
            lemma_table_decode(a, q as int, grp, i, j + 1);
        } else if i + 1 < a {
            assert(q == grp * (a * a) + (i + 1) * a + 0) by (nonlinear_arith)
                requires
                    w == grp * (a * a) + i * a + j,
                    j == a - 1,
                    q == w + 1,
            ;
            lemma_table_decode(a, q as int, grp, i + 1, 0);
        } else {
            assert(q == (grp + 1) * (a * a) + 0 * a + 0) by (nonlinear_arith)
                requires
                    w == grp * (a * a) + i * a + j,
                    i == a - 1,
                    j == a - 1,
                    q == w + 1,
            ;
            lemma_table_decode(a, q as int, grp + 1, 0, 0);
        }
        if i < j {
            assert(grp < g) by (nonlinear_arith)
                requires
                    w == grp * (a * a) + i * a + j,
                    0 <= i,
                    0 <= j,
                    w < g * a * a,
                    a >= 1,
            ;
            assert(grp * a + j < a * g) by (nonlinear_arith)
                requires
                    0 <= grp < g,
                    j < a,
                    a >= 1,
            ;
            assert(grp * a + i >= 0) by (nonlinear_arith)
                requires
                    grp >= 0,
                    i >= 0,
                    a >= 1,
            ;
            lemma_router_offset(a, grp, i);
            lemma_router_offset(a, grp, j);
            let e = intra_link(a, start, bw, w);
            assert(cur =~= prev.push(e));
            assert(cur.drop_last() =~= prev);
            assert(x - start == gx * a + r) by (nonlinear_arith)
                requires
                    x - start == a * ((x - start) / a) + (x - start) % a,
                    gx == (x - start) / a,
                    r == (x - start) % a,
            ;
            lemma_router_offset(a, gx, r);
            assert((e[0] == x) == (grp == gx && i == r)) by {
                if e[0] == x {
                    assert(grp * a + i == gx * a + r);
                }
            }
            assert((e[1] == x) == (grp == gx && j == r)) by {
                if e[1] == x {
                    assert(grp * a + j == gx * a + r);
                }
            }
        } else {
            assert(cur =~= prev);
        }
    }
}

/// Every router has `a - 1` links to the other routers of its group among
/// the intra-group links, and none to other groups.
pub proof fn lemma_intra_degrees(a: int, g: int, start: int, bw: u32, x: int)
    requires
        a >= 1,
        g >= 1,
        start >= 0,
        start + a * g <= u32::MAX + 1,
        start <= x < start + a * g,
    ensures
        link_sum(intra_links_upto(a, start, bw, (g * a * a) as nat), local_ends(start, a, x)) == a
            - 1,
        link_sum(intra_links_upto(a, start, bw, (g * a * a) as nat), global_ends(start, a, x)) == 0,
{
    assert(g * a * a >= 0) by (nonlinear_arith)
        requires
            a >= 1,
            g >= 1,
    ;
    lemma_intra_local(a, g, start, bw, x, (g * a * a) as nat);
    assert(g * a * a == g * (a * a) + 0 * a + 0) by (nonlinear_arith);
    lemma_table_decode(a, g * a * a, g, 0, 0);
    vstd::arithmetic::div_mod::lemma_fundamental_div_mod(x - start, a);
    assert(group_of(start, a, x) < g) by (nonlinear_arith)
        requires
            x - start == a * ((x - start) / a) + (x - start) % a,
            0 <= (x - start) % a,
            x - start < a * g,
            a >= 1,
    ;
    let s = intra_links_upto(a, start, bw, (g * a * a) as nat);
    lemma_intra_shape(a, g, start, bw, (g * a * a) as nat);
    assert forall|k: int| 0 <= k < s.len() implies global_ends(start, a, x)(#[trigger] s[k]) == 0 by {
    }
    crate::links::lemma_link_sum_zero(s, global_ends(start, a, x));
}

/// The global links: each joins two routers of different groups, lower id
/// first, with bandwidth `bw`; each router's count of them is its count of
/// link ends in the wiring, and none stays inside a group.
pub proof fn lemma_global_degrees(a: int, g: int, w: Seq<(u32, u32)>, start: int, bw: u32, x: int)
    requires
        a >= 1,
        start >= 0,
        start + a * g <= u32::MAX + 1,
        forall|k: int| 0 <= k < w.len() ==> (#[trigger] w[k]).0 as int / a < w[k].1 as int / a && w[k].1 < a * g,
    ensures
        forall|k: int|
            0 <= k < w.len() ==> {
                let e = #[trigger] offset_links(w, start, bw)[k];
                &&& start <= e[0] < e[1] < start + a * g
                &&& group_of(start, a, e[0] as int) != group_of(start, a, e[1] as int)
                &&& e[2] == bw
            },
        offset_links(w, start, bw).len() == w.len(),
        link_sum(offset_links(w, start, bw), global_ends(start, a, x)) == endpoint_count(w, x - start),
        link_sum(offset_links(w, start, bw), local_ends(start, a, x)) == 0,
    decreases w.len(),
{
    let s = offset_links(w, start, bw);
    assert forall|k: int| 0 <= k < w.len() implies {
        let e = #[trigger] offset_links(w, start, bw)[k];
        &&& start <= e[0] < e[1] < start + a * g
        &&& group_of(start, a, e[0] as int) != group_of(start, a, e[1] as int)
        &&& e[2] == bw
    } by {
        let u = w[k].0 as int;
        let v = w[k].1 as int;
        if u >= v {
            vstd::arithmetic::div_mod::lemma_div_is_ordered(v, u, a);
        }
    }
    if w.len() > 0 {
        let wp = w.drop_last();
        lemma_global_degrees(a, g, wp, start, bw, x);
        assert(s.drop_last() =~= offset_links(wp, start, bw));
        let u = w.last().0 as int;
        let v = w.last().1 as int;
        if u >= v {
            vstd::arithmetic::div_mod::lemma_div_is_ordered(v, u, a);
        }
        assert(s.last() == s[w.len() - 1]);
    }
}

/// The intra-group links hold the link between routers `i < j` of group
/// `grp`, once its table entry has been passed.
pub proof fn lemma_intra_has_pair(a: int, start: int, bw: u32, grp: int, i: int, j: int, q: nat)
    requires
        a >= 1,
        grp >= 0,
        0 <= i < j < a,
        grp * (a * a) + i * a + j < q,
    ensures
        intra_links_upto(a, start, bw, q).contains(
            [(start + grp * a + i) as u32, (start + grp * a + j) as u32, bw],
        ),
    decreases q,
{
    let qe = grp * (a * a) + i * a + j;
    let e = [(start + grp * a + i) as u32, (start + grp * a + j) as u32, bw];
    let w = q - 1;
    let prev = intra_links_upto(a, start, bw, w as nat);
    let cur = intra_links_upto(a, start, bw, q);
    if w == qe {
        lemma_table_decode(a, qe, grp, i, j);
        assert(intra_link(a, start, bw, w) == e);
        assert(cur =~= prev.push(e));
        assert(cur[cur.len() - 1] == e);
    } else {
        lemma_intra_has_pair(a, start, bw, grp, i, j, w as nat);
        let k = choose|k: int| 0 <= k < prev.len() && prev[k] == e;
        if (w / a) % a < w % a {
            assert(cur =~= prev.push(intra_link(a, start, bw, w)));
            assert(cur[k] == e);
        } else {
            assert(cur =~= prev);
        }
    }
}

} // verus!
