//! Choosing the Dragonfly shape: routers per group `a`, global links per
//! router `h`, hosts per router `p` and number of groups `g`.
//!
//! A router with `k` ports spends `p * links_per_host` ports on hosts,
//! `a - 1` on the other routers of its group and `h` on other groups; every
//! port is used. All shapes that fit the host count are enumerated in the
//! order `(h, a, g)`, and the best one under a router budget is chosen.

use vstd::prelude::*;

verus! {

/// A Dragonfly shape `(a, h, p, g)`.
pub type Config = (u32, u32, u32, u32);

/// The ports left for hosts once `a - 1` local and `h` global ports are
/// taken from `k`.
pub open spec fn remaining_ports(k: int, a: int, h: int) -> int {
    k - (a - 1) - h
}

/// `(h, a)` is a shape the search looks at: `h` global and `a - 1` local
/// ports leave a positive number of ports, a multiple of the links per host.
pub open spec fn search_point(k: int, lph: int, h: int, a: int) -> bool {
    &&& 1 <= h < k
    &&& 2 <= a < k
    &&& remaining_ports(k, a, h) > 0
    &&& remaining_ports(k, a, h) % lph == 0
}

/// The products the search computes at `(h, a)`, for its largest group
/// count `a * h + 1`, fit in a `u32`.
pub open spec fn point_fits(k: int, lph: int, h: int, a: int) -> bool {
    let p = remaining_ports(k, a, h) / lph;
    let gm = a * h + 1;
    &&& gm <= u32::MAX
    &&& a * gm * h <= u32::MAX
    &&& p * a * gm <= u32::MAX
}

/// Every product of the search over `k` ports fits in a `u32`.
pub open spec fn search_fits(k: u32, lph: u32) -> bool {
    forall|h: int, a: int| search_point(k as int, lph as int, h, a) ==> #[trigger] point_fits(
        k as int,
        lph as int,
        h,
        a,
    )
}

/// `c = (a, h, p, g)` is a valid shape for `k` ports and `n` hosts: `p`
/// hosts per router use exactly the remaining ports, `2 <= g <= a * h + 1`
/// groups, an even number `a * g * h` of global link ends, and room for all
/// hosts.
pub open spec fn is_config(k: u32, lph: u32, n: u32, c: Config) -> bool {
    let (a, h, p, g) = c;
    &&& search_point(k as int, lph as int, h as int, a as int)
    &&& p == remaining_ports(k as int, a as int, h as int) / lph as int
    &&& 2 <= g <= a * h + 1
    &&& (a * g * h) % 2 == 0
    &&& p * a * g >= n
}

/// The search order: by `h`, then `a`, then `g`.
pub open spec fn config_before(c1: Config, c2: Config) -> bool {
    ||| c1.1 < c2.1
    ||| c1.1 == c2.1 && c1.0 < c2.0
    ||| c1.1 == c2.1 && c1.0 == c2.0 && c1.3 < c2.3
}

/// `v` lists exactly the valid shapes, in search order.
pub open spec fn is_config_list(k: u32, lph: u32, n: u32, v: Seq<Config>) -> bool {
    &&& forall|i: int| 0 <= i < v.len() ==> is_config(k, lph, n, #[trigger] v[i])
    &&& forall|c: Config| is_config(k, lph, n, c) ==> v.contains(c)
    &&& forall|i: int, j: int| 0 <= i < j < v.len() ==> config_before(v[i], v[j])
}

/// At a search point that fits, every product for a group count up to
/// `a * h + 1` fits too, and there is at least one host per router.
proof fn lemma_point_products(k: int, lph: int, h: int, a: int, g: int)
    requires
        lph >= 1,
        search_point(k, lph, h, a),
        point_fits(k, lph, h, a),
        2 <= g <= a * h + 1,
    ensures
        a * h <= a * h + 1,
        a * g <= a * g * h,
        a * g * h <= u32::MAX,
        (remaining_ports(k, a, h) / lph) * a <= (remaining_ports(k, a, h) / lph) * a * g,
        (remaining_ports(k, a, h) / lph) * a * g <= u32::MAX,
        remaining_ports(k, a, h) / lph >= 1,
{
    let p = remaining_ports(k, a, h) / lph;
    let gm = a * h + 1;
    let r = remaining_ports(k, a, h);
    vstd::arithmetic::div_mod::lemma_fundamental_div_mod(r, lph);
    assert(p >= 1) by (nonlinear_arith)
        requires
            r == lph * (r / lph) + r % lph,
            r % lph == 0,
            r > 0,
            p == r / lph,
            lph >= 1,
    ;
    assert(a * g * h <= a * gm * h) by (nonlinear_arith)
        requires
            g <= gm,
            a >= 2,
            h >= 1,
    ;
    assert(a * g <= a * g * h) by (nonlinear_arith)
        requires
            a >= 2,
            g >= 2,
            h >= 1,
    ;
    assert(p * a * g <= p * a * gm) by (nonlinear_arith)
        requires
            g <= gm,
            a >= 2,
            p >= 1,
    ;
    assert(p * a <= p * a * g) by (nonlinear_arith)
        requires
            a >= 2,
            g >= 2,
            p >= 1,
    ;
}

/// One search point that does not fit makes the whole search not fit.
proof fn lemma_search_fails_at(k: u32, lph: u32, h: int, a: int)
    requires
        search_point(k as int, lph as int, h, a),
        !point_fits(k as int, lph as int, h, a),
    ensures
        !search_fits(k, lph),
{
}

/// Lists every valid shape in search order, or `None` when one of the
/// search's `u32` products would overflow.
pub fn enumerate_configs(k: u32, lph: u32, num_hosts: u32) -> (res: Option<Vec<Config>>)
    requires
        lph >= 1,
    ensures
        res is None <==> !search_fits(k, lph),
        res matches Some(v) ==> is_config_list(k, lph, num_hosts, v@),
{
    let mut configs: Vec<Config> = Vec::new();
    let mut h: u32 = 1;
    while h < k
        invariant
            lph >= 1,
            1 <= h,
            h <= k || k == 0,
            forall|h1: int, a1: int|
                h1 < h && search_point(k as int, lph as int, h1, a1) ==> #[trigger] point_fits(
                    k as int,
                    lph as int,
                    h1,
                    a1,
                ),
            forall|i: int| 0 <= i < configs@.len() ==> is_config(k, lph, num_hosts, #[trigger] configs@[i]),
            forall|c: Config|
                is_config(k, lph, num_hosts, c) && c.1 < h ==> configs@.contains(c),
            forall|i: int| 0 <= i < configs@.len() ==> (#[trigger] configs@[i]).1 < h,
            forall|i: int, j: int|
                0 <= i < j < configs@.len() ==> config_before(configs@[i], configs@[j]),
        decreases k - h,
    {
        let mut a: u32 = 2;
        while a < k
            invariant
                lph >= 1,
                1 <= h < k,
                2 <= a,
                a - 1 + h <= k,
                forall|h1: int, a1: int|
                    (h1 < h || (h1 == h && a1 < a)) && search_point(k as int, lph as int, h1, a1)
                        ==> #[trigger] point_fits(k as int, lph as int, h1, a1),
                forall|i: int|
                    0 <= i < configs@.len() ==> is_config(k, lph, num_hosts, #[trigger] configs@[i]),
                forall|c: Config|
                    is_config(k, lph, num_hosts, c) && (c.1 < h || (c.1 == h && c.0 < a))
                        ==> configs@.contains(c),
                forall|i: int|
                    0 <= i < configs@.len() ==> (#[trigger] configs@[i]).1 < h || (configs@[i].1
                        == h && configs@[i].0 < a),
                forall|i: int, j: int|
                    0 <= i < j < configs@.len() ==> config_before(configs@[i], configs@[j]),
            ensures
                a >= k || remaining_ports(k as int, a as int, h as int) <= 0,
            decreases k - a,
        {
            let remaining = k - (a - 1) - h;
            if remaining == 0 {
                break;
            }
            if remaining % lph == 0 {
                let p = remaining / lph;
                proof {
                    assert(a as u64 * h as u64 <= 0xffff_fffe_0000_0001u64) by (nonlinear_arith)
                        requires
                            a <= 0xffff_ffffu32,
                            h <= 0xffff_ffffu32,
                    ;
                }
                let gm64: u64 = a as u64 * h as u64 + 1;
                if gm64 > u32::MAX as u64 {
                    proof {
                        lemma_search_fails_at(k, lph, h as int, a as int);
                    }
                    return None;
                }
                proof {
                    assert(a as u64 * gm64 <= 0xffff_fffe_0000_0001u64) by (nonlinear_arith)
                        requires
                            a <= 0xffff_ffffu32,
                            gm64 <= 0xffff_ffffu64,
                    ;
                }
                let ag64: u64 = a as u64 * gm64;
                if ag64 > u32::MAX as u64 {
                    proof {
                        assert(ag64 * h as u64 >= ag64) by (nonlinear_arith)
                            requires
                                h >= 1,
                        ;
                        lemma_search_fails_at(k, lph, h as int, a as int);
                    }
                    return None;
                }
                proof {
                    assert(ag64 * h as u64 <= 0xffff_fffe_0000_0001u64) by (nonlinear_arith)
                        requires
                            ag64 <= 0xffff_ffffu64,
                            h <= 0xffff_ffffu32,
                    ;
                }
                if ag64 * h as u64 > u32::MAX as u64 {
                    proof {
                        lemma_search_fails_at(k, lph, h as int, a as int);
                    }
                    return None;
                }
                proof {
                    assert(p as u64 * a as u64 <= 0xffff_fffe_0000_0001u64) by (nonlinear_arith)
                        requires
                            a <= 0xffff_ffffu32,
                            p <= 0xffff_ffffu32,
                    ;
                }
                let pa64: u64 = p as u64 * a as u64;
                if pa64 > u32::MAX as u64 {
                    proof {
                        assert(pa64 * gm64 >= pa64) by (nonlinear_arith)
                            requires
                                gm64 >= 1,
                        ;
                        lemma_search_fails_at(k, lph, h as int, a as int);
                    }
                    return None;
                }
                proof {
                    assert(pa64 * gm64 <= 0xffff_fffe_0000_0001u64) by (nonlinear_arith)
                        requires
                            pa64 <= 0xffff_ffffu64,
                            gm64 <= 0xffff_ffffu64,
                    ;
                }
                if pa64 * gm64 > u32::MAX as u64 {
                    proof {
                        lemma_search_fails_at(k, lph, h as int, a as int);
                    }
                    return None;
                }
                assert(point_fits(k as int, lph as int, h as int, a as int));
                proof {
                    assert(a * h + 1 < u32::MAX) by (nonlinear_arith)
                        requires
                            a * (a * h + 1) * h <= u32::MAX,
                            a >= 2,
                            h >= 1,
                    ;
                }
                let g_max = a * h + 1;
                let mut g: u32 = 2;
                while g <= g_max
                    invariant
                        lph >= 1,
                        1 <= h < k,
                        2 <= a < k,
                        a - 1 + h < k,
                        search_point(k as int, lph as int, h as int, a as int),
                        point_fits(k as int, lph as int, h as int, a as int),
                        p == remaining_ports(k as int, a as int, h as int) / lph as int,
                        g_max == a * h + 1,
                        g_max < u32::MAX,
                        2 <= g <= g_max + 1,
                        forall|i: int|
                            0 <= i < configs@.len() ==> is_config(
                                k,
                                lph,
                                num_hosts,
                                #[trigger] configs@[i],
                            ),
                        forall|c: Config|
                            is_config(k, lph, num_hosts, c) && (c.1 < h || (c.1 == h && c.0 < a)
                                || (c.1 == h && c.0 == a && c.3 < g)) ==> configs@.contains(c),
                        forall|i: int|
                            0 <= i < configs@.len() ==> (#[trigger] configs@[i]).1 < h || (
                            configs@[i].1 == h && configs@[i].0 < a) || (configs@[i].1 == h
                                && configs@[i].0 == a && configs@[i].3 < g),
                        forall|i: int, j: int|
                            0 <= i < j < configs@.len() ==> config_before(configs@[i], configs@[j]),
                    decreases g_max + 1 - g,
                {
                    proof {
                        lemma_point_products(k as int, lph as int, h as int, a as int, g as int);
                    }
                    let ghost before = configs@;
                    if (a * g * h) % 2 == 0 && p * a * g >= num_hosts {
                        configs.push((a, h, p, g));
                        proof {
                            assert forall|c: Config|
                                is_config(k, lph, num_hosts, c) && (c.1 < h || (c.1 == h && c.0
                                    < a) || (c.1 == h && c.0 == a && c.3 < g + 1)) implies configs@.contains(
                                c,
                            ) by {
                                if c.1 == h && c.0 == a && c.3 == g {
                                    assert(configs@[configs@.len() - 1] == c);
                                } else {
                                    assert(before.contains(c));
                                    let i = choose|i: int| 0 <= i < before.len() && before[i] == c;
                                    assert(configs@ == before.push((a, h, p, g)));
                                    assert(configs@[i] == c);
                                }
                            }
                        }
                    } else {
                        proof {
                            assert forall|c: Config|
                                is_config(k, lph, num_hosts, c) && (c.1 < h || (c.1 == h && c.0
                                    < a) || (c.1 == h && c.0 == a && c.3 < g + 1)) implies configs@.contains(
                                c,
                            ) by {
                                if c.1 == h && c.0 == a && c.3 == g {
                                    assert(false);
                                }
                            }
                        }
                    }
                    g = g + 1;
                }
            }
            a = a + 1;
        }
        proof {
            assert forall|h1: int, a1: int|
                h1 < h + 1 && search_point(k as int, lph as int, h1, a1) implies #[trigger] point_fits(
                k as int,
                lph as int,
                h1,
                a1,
            ) by {
                if h1 == h && a1 >= a {
                    assert(remaining_ports(k as int, a1, h1) <= 0);
                }
            }
        }
        h = h + 1;
    }
    proof {
        assert forall|c: Config| is_config(k, lph, num_hosts, c) implies configs@.contains(c) by {
            assert(c.1 < h);
        }
    }
    Some(configs)
}

/// Every listed shape keeps the selection's arithmetic within `u32`.
pub open spec fn configs_sized(v: Seq<Config>, lph: u32, n: u32) -> bool {
    forall|i: int|
        0 <= i < v.len() ==> {
            let (a, h, p, g) = #[trigger] v[i];
            &&& 2 <= a
            &&& 1 <= h
            &&& 2 <= g
            &&& a * g * h <= u32::MAX
            &&& p * a * g <= u32::MAX
            &&& p * a * g >= n
            &&& p * lph <= u32::MAX
        }
}

/// A valid list from a search that fits is well sized.
pub proof fn lemma_config_list_sized(k: u32, lph: u32, n: u32, v: Seq<Config>)
    requires
        lph >= 1,
        search_fits(k, lph),
        is_config_list(k, lph, n, v),
    ensures
        configs_sized(v, lph, n),
{
    assert forall|i: int| 0 <= i < v.len() implies {
        let (a, h, p, g) = #[trigger] v[i];
        &&& 2 <= a
        &&& 1 <= h
        &&& 2 <= g
        &&& a * g * h <= u32::MAX
        &&& p * a * g <= u32::MAX
        &&& p * a * g >= n
        &&& p * lph <= u32::MAX
    } by {
        let (a, h, p, g) = v[i];
        assert(is_config(k, lph, n, v[i]));
        assert(point_fits(k as int, lph as int, h as int, a as int));
        lemma_point_products(k as int, lph as int, h as int, a as int, g as int);
        let r = remaining_ports(k as int, a as int, h as int);
        vstd::arithmetic::div_mod::lemma_fundamental_div_mod(r, lph as int);
        assert(p * lph <= r) by (nonlinear_arith)
            requires
                r == lph * (r / lph as int) + r % lph as int,
                r % lph as int == 0,
                p == r / lph as int,
        ;
    }
}

/// The smallest router count `a * g` among the listed shapes.
pub fn min_routers(configs: &Vec<Config>) -> (m: u32)
    requires
        configs@.len() > 0,
        forall|i: int| 0 <= i < configs@.len() ==> (#[trigger] configs@[i]).0 * configs@[i].3 <= u32::MAX,
    ensures
        exists|i: int| 0 <= i < configs@.len() && m == (#[trigger] configs@[i]).0 * configs@[i].3,
        forall|i: int| 0 <= i < configs@.len() ==> m <= (#[trigger] configs@[i]).0 * configs@[i].3,
{
    let mut m = configs[0].0 * configs[0].3;
    let mut i: usize = 1;
    while i < configs.len()
        invariant
            1 <= i <= configs@.len(),
            forall|j: int| 0 <= j < configs@.len() ==> (#[trigger] configs@[j]).0 * configs@[j].3 <= u32::MAX,
            exists|j: int| 0 <= j < i && m == (#[trigger] configs@[j]).0 * configs@[j].3,
            forall|j: int| 0 <= j < i ==> m <= (#[trigger] configs@[j]).0 * configs@[j].3,
        decreases configs@.len() - i,
    {
        let t = configs[i].0 * configs[i].3;
        if t < m {
            m = t;
        }
        i = i + 1;
    }
    m
}

/// `|x - y|`.
pub open spec fn abs_diff(x: int, y: int) -> int {
    if x >= y {
        x - y
    } else {
        y - x
    }
}

/// A `u32` value read as an `i32` (two's complement).
pub open spec fn wrap_i32(v: int) -> int {
    if v <= i32::MAX {
        v
    } else {
        v - 0x1_0000_0000
    }
}

/// The key term `|a - 2 * v|` for `v = p * links_per_host` terminal ports,
/// computed in `i32` arithmetic (`v` is read as an `i32`, so values above
/// `i32::MAX` wrap); `None` where that arithmetic overflows.
pub open spec fn terminal_key_term(a: int, v: int) -> Option<int> {
    let d = 2 * wrap_i32(v);
    if d < i32::MIN || d > i32::MAX {
        None
    } else if a - d < i32::MIN || a - d > i32::MAX {
        None
    } else {
        Some(abs_diff(a, d))
    }
}

/// How far a shape is from the balanced Dragonfly: `|a - 2h|`, then
/// `|a - 2 * terminal ports|` (see `terminal_key_term`), then the router
/// count, then the unused host slots.
pub open spec fn config_key(c: Config, lph: u32, n: u32) -> (int, int, int, int) {
    let (a, h, p, g) = c;
    (
        abs_diff(a as int, 2 * h),
        match terminal_key_term(a as int, p * lph) {
            Some(t) => t,
            None => 0,
        },
        a * g,
        p * a * g - n,
    )
}

/// Shape `j` is within budget, no shape among the first `m` within budget
/// has a smaller key, and every earlier one within budget has a larger key.
pub open spec fn is_first_best_upto(
    v: Seq<Config>,
    lph: u32,
    n: u32,
    cap: u32,
    j: int,
    m: int,
) -> bool {
    &&& 0 <= j < m
    &&& v[j].0 * v[j].3 <= cap
    &&& forall|i: int|
        0 <= i < m && (#[trigger] v[i]).0 * v[i].3 <= cap ==> !key_lt(
            config_key(v[i], lph, n),
            config_key(v[j], lph, n),
        )
    &&& forall|i: int|
        0 <= i < j && (#[trigger] v[i]).0 * v[i].3 <= cap ==> key_lt(
            config_key(v[j], lph, n),
            config_key(v[i], lph, n),
        )
}

/// Shape `j` is the first shape within budget with the smallest key.
pub open spec fn is_first_best(v: Seq<Config>, lph: u32, n: u32, cap: u32, j: int) -> bool {
    is_first_best_upto(v, lph, n, cap, j, v.len() as int)
}

/// Lexicographic `<` on keys.
pub open spec fn key_lt(x: (int, int, int, int), y: (int, int, int, int)) -> bool {
    ||| x.0 < y.0
    ||| x.0 == y.0 && x.1 < y.1
    ||| x.0 == y.0 && x.1 == y.1 && x.2 < y.2
    ||| x.0 == y.0 && x.1 == y.1 && x.2 == y.2 && x.3 < y.3
}

/// The terminal key term of shape `c` can be computed in `i32`.
pub open spec fn key_term_fits(c: Config, lph: u32) -> bool {
    terminal_key_term(c.0 as int, c.2 * lph) is Some
}

/// The terminal key term, computed as `i32` arithmetic would.
fn terminal_key(a: u32, v: u32) -> (r: Option<u32>)
    requires
        a <= i32::MAX,
    ensures
        match terminal_key_term(a as int, v as int) {
            Some(t) => r == Some(t as u32),
            None => r is None,
        },
{
    let x: i64 = if v <= 0x7fff_ffff {
        v as i64
    } else {
        v as i64 - 0x1_0000_0000
    };
    let d: i64 = 2 * x;
    if d < -0x8000_0000 || d > 0x7fff_ffff {
        return None;
    }
    let e: i64 = a as i64 - d;
    if e < -0x8000_0000 || e > 0x7fff_ffff {
        return None;
    }
    if e >= 0 {
        Some(e as u32)
    } else {
        Some((-e) as u32)
    }
}

/// Lexicographic `<` on computed keys.
fn key_less(x: (u32, u32, u32, u32), y: (u32, u32, u32, u32)) -> (r: bool)
    ensures
        r == key_lt((x.0 as int, x.1 as int, x.2 as int, x.3 as int), (y.0 as int, y.1 as int, y.2 as int, y.3 as int)),
{
    if x.0 != y.0 {
        x.0 < y.0
    } else if x.1 != y.1 {
        x.1 < y.1
    } else if x.2 != y.2 {
        x.2 < y.2
    } else {
        x.3 < y.3
    }
}

/// `|x - y|` for `x, y <= i32::MAX`.
fn abs_diff_u32(x: u32, y: u32) -> (r: u32)
    requires
        x <= i32::MAX,
        y <= i32::MAX,
    ensures
        r == abs_diff(x as int, y as int),
{
    if x >= y {
        x - y
    } else {
        y - x
    }
}

/// Among the listed shapes within the router budget (`a * g <= cap`), the
/// first one with the smallest key; `(0, 0, 0, 0)` when none is within
/// budget, and `None` when the terminal key term of a shape within budget
/// overflows `i32` arithmetic.
pub fn select_config(configs: &Vec<Config>, lph: u32, num_hosts: u32, router_cap: u32) -> (res:
    Option<Config>)
    requires
        configs_sized(configs@, lph, num_hosts),
    ensures
        res is None <==> exists|i: int|
            0 <= i < configs@.len() && (#[trigger] configs@[i]).0 * configs@[i].3 <= router_cap
                && !key_term_fits(configs@[i], lph),
        res matches Some(best) ==> {
            &&& (forall|i: int|
                0 <= i < configs@.len() ==> (#[trigger] configs@[i]).0 * configs@[i].3
                    > router_cap) ==> best == (0u32, 0u32, 0u32, 0u32)
            &&& (exists|i: int|
                0 <= i < configs@.len() && (#[trigger] configs@[i]).0 * configs@[i].3
                    <= router_cap) ==> exists|j: int|
                0 <= j < configs@.len() && best == configs@[j] && is_first_best(
                    configs@,
                    lph,
                    num_hosts,
                    router_cap,
                    j,
                )
        },
{
    let mut best: Config = (0, 0, 0, 0);
    let mut best_key: (u32, u32, u32, u32) = (u32::MAX, u32::MAX, u32::MAX, u32::MAX);
    let mut found: bool = false;
    let ghost mut best_j: int = 0;
    let mut i: usize = 0;
    while i < configs.len()
        invariant
            i <= configs@.len(),
            configs_sized(configs@, lph, num_hosts),
            forall|j: int|
                0 <= j < i ==> (#[trigger] configs@[j]).0 * configs@[j].3 <= router_cap
                    ==> key_term_fits(configs@[j], lph),
            found <==> exists|j: int|
                0 <= j < i && (#[trigger] configs@[j]).0 * configs@[j].3 <= router_cap,
            !found ==> best == (0u32, 0u32, 0u32, 0u32),
            !found ==> best_key == (u32::MAX, u32::MAX, u32::MAX, u32::MAX),
            found ==> 0 <= best_j < i && best == configs@[best_j] && configs@[best_j].0
                * configs@[best_j].3 <= router_cap && (best_key.0 as int, best_key.1 as int, best_key.2 as int, best_key.3 as int)
                == config_key(configs@[best_j], lph, num_hosts) && is_first_best_upto(
                configs@,
                lph,
                num_hosts,
                router_cap,
                best_j,
                i as int,
            ),
        decreases configs@.len() - i,
    {
        let (a, h, p, g) = configs[i];
        proof {
            assert(configs@[i as int] == (a, h, p, g));
            assert(a * g <= a * g * h && p * a <= p * a * g) by (nonlinear_arith)
                requires
                    a >= 2,
                    g >= 2,
                    h >= 1,
            ;
        }
        let total = a * g;
        if total <= router_cap {
            proof {
                assert(a <= i32::MAX && 2 * h <= i32::MAX) by (nonlinear_arith)
                    requires
                        a * g * h <= u32::MAX,
                        a >= 2,
                        g >= 2,
                        h >= 1,
                ;
                assert(p * a * g - num_hosts <= u32::MAX);
            }
            let terminal = match terminal_key(a, p * lph) {
                Some(t) => t,
                None => {
                    return None;
                },
            };
            let key = (abs_diff_u32(a, 2 * h), terminal, total, p * a * g - num_hosts);
            proof {
                assert(abs_diff(a as int, 2 * h) < u32::MAX);
            }
            let ghost old_found = found;
            if key_less(key, best_key) {
                best = (a, h, p, g);
                best_key = key;
                found = true;
                proof {
                    best_j = i as int;
                }
            }
        }
        i = i + 1;
    }
    Some(best)
}

/// Every valid shape within budget has a key term that fits an `i32`.
pub open spec fn key_fits(k: u32, lph: u32, n: u32, cap: u32) -> bool {
    forall|c: Config|
        is_config(k, lph, n, c) && c.0 * c.3 <= cap ==> #[trigger] key_term_fits(c, lph)
}

/// Some valid shape exists.
pub open spec fn has_config(k: u32, lph: u32, n: u32) -> bool {
    exists|c: Config| is_config(k, lph, n, c)
}

/// Some valid shape is within the router budget.
pub open spec fn has_config_within(k: u32, lph: u32, n: u32, cap: u32) -> bool {
    exists|c: Config| is_config(k, lph, n, c) && c.0 * c.3 <= cap
}

/// `r` comes no later than `c` in the preference order: a smaller key
/// first, and among equal keys the earlier shape in search order.
pub open spec fn prefers(r: Config, c: Config, lph: u32, n: u32) -> bool {
    ||| key_lt(config_key(r, lph, n), config_key(c, lph, n))
    ||| config_key(r, lph, n) == config_key(c, lph, n) && (r == c || config_before(r, c))
}

/// `r` is the preferred valid shape within the router budget.
pub open spec fn is_best_config(k: u32, lph: u32, n: u32, cap: u32, r: Config) -> bool {
    &&& is_config(k, lph, n, r)
    &&& r.0 * r.3 <= cap
    &&& forall|c: Config|
        is_config(k, lph, n, c) && c.0 * c.3 <= cap ==> #[trigger] prefers(r, c, lph, n)
}

/// The preferred valid shape within the router budget.
pub open spec fn best_config(k: u32, lph: u32, n: u32, cap: u32) -> Config {
    choose|c: Config| is_best_config(k, lph, n, cap, c)
}

/// There is only one preferred shape.
pub proof fn lemma_best_config_unique(k: u32, lph: u32, n: u32, cap: u32, r: Config)
    requires
        is_best_config(k, lph, n, cap, r),
    ensures
        best_config(k, lph, n, cap) == r,
{
    let w = best_config(k, lph, n, cap);
    assert(is_best_config(k, lph, n, cap, w));
    assert(prefers(r, w, lph, n));
    assert(prefers(w, r, lph, n));
}

/// A valid shape uses every port of a router: `p * links_per_host` for
/// hosts, `a - 1` within the group and `h` to other groups; it has room for
/// all hosts and an even number of global link ends.
pub proof fn lemma_config_uses_all_ports(k: u32, lph: u32, n: u32, c: Config)
    requires
        lph >= 1,
        search_fits(k, lph),
        is_config(k, lph, n, c),
    ensures
        c.2 * lph + (c.0 - 1) + c.1 == k,
        c.0 * c.3 <= c.0 * c.3 * c.1 <= u32::MAX,
        c.0 * c.1 < u32::MAX,
        c.2 * c.0 * c.3 <= u32::MAX,
        c.2 >= 1,
        c.2 * c.0 * c.3 >= n,
        (c.0 * c.3 * c.1) % 2 == 0,
        2 <= c.3 <= c.0 * c.1 + 1,
{
    let (a, h, p, g) = c;
    let r = remaining_ports(k as int, a as int, h as int);
    assert(point_fits(k as int, lph as int, h as int, a as int));
    lemma_point_products(k as int, lph as int, h as int, a as int, g as int);
    vstd::arithmetic::div_mod::lemma_fundamental_div_mod(r, lph as int);
    assert(p * lph == r) by (nonlinear_arith)
        requires
            r == lph * (r / lph as int) + r % lph as int,
            r % lph as int == 0,
            p == r / lph as int,
    ;
    assert(p >= 1) by (nonlinear_arith)
        requires
            p * lph == r,
            r > 0,
            p >= 0,
    ;
}

/// The preferred shape is the best balanced one: among all valid shapes
/// within the router budget, it has the smallest `|a - 2h|`; among those
/// the smallest `|a - 2 * p * links_per_host|` (hosts' ports against twice
/// the group size); then the fewest routers `a * g`; then the fewest unused
/// host slots `p * a * g - n`; and among shapes equal in all four, the first
/// in search order (by `h`, then `a`, then `g`). (Here router port counts
/// are below `2^30`, so the `i32` arithmetic of the second term is exact.)
pub proof fn lemma_preferred_shape_minimises(k: u32, lph: u32, n: u32, cap: u32, c: Config, d: Config)
    requires
        k < 0x4000_0000,
        lph >= 1,
        is_best_config(k, lph, n, cap, c),
        is_config(k, lph, n, d),
        d.0 * d.3 <= cap,
    ensures
        c.0 * c.3 <= cap,
        abs_diff(c.0 as int, 2 * c.1) <= abs_diff(d.0 as int, 2 * d.1),
        abs_diff(c.0 as int, 2 * c.1) == abs_diff(d.0 as int, 2 * d.1) ==> abs_diff(
            c.0 as int,
            2 * (c.2 * lph),
        ) <= abs_diff(d.0 as int, 2 * (d.2 * lph)),
        abs_diff(c.0 as int, 2 * c.1) == abs_diff(d.0 as int, 2 * d.1) && abs_diff(
            c.0 as int,
            2 * (c.2 * lph),
        ) == abs_diff(d.0 as int, 2 * (d.2 * lph)) ==> c.0 * c.3 <= d.0 * d.3,
        abs_diff(c.0 as int, 2 * c.1) == abs_diff(d.0 as int, 2 * d.1) && abs_diff(
            c.0 as int,
            2 * (c.2 * lph),
        ) == abs_diff(d.0 as int, 2 * (d.2 * lph)) && c.0 * c.3 == d.0 * d.3 ==> c.2 * c.0 * c.3
            - n <= d.2 * d.0 * d.3 - n,
        abs_diff(c.0 as int, 2 * c.1) == abs_diff(d.0 as int, 2 * d.1) && abs_diff(
            c.0 as int,
            2 * (c.2 * lph),
        ) == abs_diff(d.0 as int, 2 * (d.2 * lph)) && c.0 * c.3 == d.0 * d.3 && c.2 * c.0 * c.3
            == d.2 * d.0 * d.3 ==> c.1 < d.1 || (c.1 == d.1 && (c.0 < d.0 || (c.0 == d.0 && c.3
            <= d.3))),
{
    lemma_terminal_term_exact(k, lph, n, c);
    lemma_terminal_term_exact(k, lph, n, d);
    assert(prefers(c, d, lph, n));
}

/// For router port counts below `2^30`, the `i32` terminal key term of a
/// valid shape is `|a - 2 * p * links_per_host|` exactly.
proof fn lemma_terminal_term_exact(k: u32, lph: u32, n: u32, c: Config)
    requires
        k < 0x4000_0000,
        lph >= 1,
        is_config(k, lph, n, c),
    ensures
        terminal_key_term(c.0 as int, c.2 * lph) == Some(abs_diff(c.0 as int, 2 * (c.2 * lph))),
{
    let r = remaining_ports(k as int, c.0 as int, c.1 as int);
    vstd::arithmetic::div_mod::lemma_fundamental_div_mod(r, lph as int);
    assert(c.2 * lph <= r) by (nonlinear_arith)
        requires
            r == lph * (r / lph as int) + r % lph as int,
            r % lph as int >= 0,
            c.2 == r / lph as int,
    ;
    assert(c.2 * lph >= 0) by (nonlinear_arith)
        requires
            c.2 >= 0,
            lph >= 1,
    ;
}

/// Picks the Dragonfly shape for `k` ports per router, `lph` links per host
/// and `num_hosts` hosts: the preferred valid shape with at most
/// `router_cap` routers, or `(0, 0, 0, 0)` when no shape fits that budget.
pub fn find_best_config(k: u32, lph: u32, num_hosts: u32, router_cap: u32) -> (best: Config)
    requires
        lph >= 1,
        search_fits(k, lph),
        has_config(k, lph, num_hosts),
        key_fits(k, lph, num_hosts, router_cap),
    ensures
        has_config_within(k, lph, num_hosts, router_cap) ==> is_best_config(
            k,
            lph,
            num_hosts,
            router_cap,
            best,
        ),
        !has_config_within(k, lph, num_hosts, router_cap) ==> best == (0u32, 0u32, 0u32, 0u32),
{
    let configs = match enumerate_configs(k, lph, num_hosts) {
        Some(v) => v,
        None => {
            return (0, 0, 0, 0);
        },
    };
    proof {
        lemma_config_list_sized(k, lph, num_hosts, configs@);
    }
    let chosen = select_config(&configs, lph, num_hosts, router_cap);
    let best = match chosen {
        Some(b) => b,
        None => {
            proof {
                let i = choose|i: int|
                    0 <= i < configs@.len() && (#[trigger] configs@[i]).0 * configs@[i].3
                        <= router_cap && !key_term_fits(configs@[i], lph);
                assert(is_config(k, lph, num_hosts, configs@[i]));
                assert(key_term_fits(configs@[i], lph));
            }
            return (0, 0, 0, 0);
        },
    };
    proof {
        if has_config_within(k, lph, num_hosts, router_cap) {
            let c0 = choose|c: Config| is_config(k, lph, num_hosts, c) && c.0 * c.3 <= router_cap;
            assert(configs@.contains(c0));
            let i0 = choose|i: int| 0 <= i < configs@.len() && configs@[i] == c0;
            assert(configs@[i0].0 * configs@[i0].3 <= router_cap);
            let j = choose|j: int|
                0 <= j < configs@.len() && best == configs@[j] && is_first_best(
                    configs@,
                    lph,
                    num_hosts,
                    router_cap,
                    j,
                );
            assert forall|c: Config|
                is_config(k, lph, num_hosts, c) && c.0 * c.3 <= router_cap implies #[trigger] prefers(
                best,
                c,
                lph,
                num_hosts,
            ) by {
                assert(configs@.contains(c));
                let i = choose|i: int| 0 <= i < configs@.len() && configs@[i] == c;
                if i < j {
                    assert(key_lt(config_key(configs@[j], lph, num_hosts), config_key(configs@[i], lph, num_hosts)));
                } else if i > j {
                    assert(!key_lt(config_key(configs@[i], lph, num_hosts), config_key(configs@[j], lph, num_hosts)));
                    assert(config_before(configs@[j], configs@[i]));
                }
            }
            assert(is_config(k, lph, num_hosts, configs@[j]));
        } else {
            if exists|i: int|
                0 <= i < configs@.len() && (#[trigger] configs@[i]).0 * configs@[i].3
                    <= router_cap {
                let i = choose|i: int|
                    0 <= i < configs@.len() && (#[trigger] configs@[i]).0 * configs@[i].3
                        <= router_cap;
                assert(is_config(k, lph, num_hosts, configs@[i]));
            }
        }
    }
    best
}

} // verus!
