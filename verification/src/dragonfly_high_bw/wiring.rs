//! Wiring the global links of a Dragonfly.
//!
//! First every group is paired with other groups, one link end at a time:
//! the group with the most link ends left (the last such group on ties) is
//! joined to the group it shares the fewest links with (then the one with
//! more ends left, then the lowest index). Then, pair by pair in order, each
//! link is attached in both groups to the router with the fewest global
//! links so far (the lowest index on ties).

use vstd::prelude::*;

verus! {

/// `s[lo] + ... + s[hi - 1]`.
pub open spec fn range_sum(s: Seq<u32>, lo: int, hi: int) -> int
    decreases hi - lo,
{
    if hi <= lo {
        0
    } else {
        range_sum(s, lo, hi - 1) + s[hi - 1]
    }
}

/// Changing one entry changes the sum of a range holding it by the
/// difference, and leaves other ranges alone.
pub(crate) proof fn lemma_range_sum_update(s: Seq<u32>, lo: int, hi: int, i: int, v: u32)
    requires
        0 <= lo,
        hi <= s.len(),
        0 <= i < s.len(),
    ensures
        range_sum(s.update(i, v), lo, hi) == range_sum(s, lo, hi) + (if lo <= i < hi {
            v - s[i]
        } else {
            0
        }),
    decreases hi - lo,
{
    if hi > lo {
        lemma_range_sum_update(s, lo, hi - 1, i, v);
    }
}

/// Entries at least `m` add up to at least `(hi - lo) * m`.
pub(crate) proof fn lemma_range_sum_lower(s: Seq<u32>, lo: int, hi: int, m: int)
    requires
        0 <= lo <= hi <= s.len(),
        forall|j: int| lo <= j < hi ==> s[j] >= m,
    ensures
        range_sum(s, lo, hi) >= (hi - lo) * m,
    decreases hi - lo,
{
    if hi > lo {
        lemma_range_sum_lower(s, lo, hi - 1, m);
        assert((hi - 1 - lo) * m + m == (hi - lo) * m) by (nonlinear_arith);
    } else {
        assert((hi - lo) * m == 0) by (nonlinear_arith)
            requires
                hi == lo,
        ;
    }
}

/// Entries at most `m` add up to at most `(hi - lo) * m`.
proof fn lemma_range_sum_upper(s: Seq<u32>, lo: int, hi: int, m: int)
    requires
        0 <= lo <= hi <= s.len(),
        forall|j: int| lo <= j < hi ==> s[j] <= m,
    ensures
        range_sum(s, lo, hi) <= (hi - lo) * m,
    decreases hi - lo,
{
    if hi > lo {
        lemma_range_sum_upper(s, lo, hi - 1, m);
        assert((hi - 1 - lo) * m + m == (hi - lo) * m) by (nonlinear_arith);
    } else {
        assert((hi - lo) * m == 0) by (nonlinear_arith)
            requires
                hi == lo,
        ;
    }
}

/// Entries bounded by `m` that add up to `(hi - lo) * m` all equal `m`.
proof fn lemma_range_sum_full(s: Seq<u32>, lo: int, hi: int, m: u32)
    requires
        0 <= lo <= hi <= s.len(),
        forall|j: int| lo <= j < hi ==> s[j] <= m,
        range_sum(s, lo, hi) == (hi - lo) * m,
    ensures
        forall|j: int| lo <= j < hi ==> s[j] == m,
{
    assert forall|j: int| lo <= j < hi implies s[j] == m by {
        if s[j] < m {
            let t = s.update(j, m);
            lemma_range_sum_update(s, lo, hi, j, m);
            lemma_range_sum_upper(t, lo, hi, m as int);
        }
    }
}

/// Entries that all equal `m` add up to `(hi - lo) * m`.
pub(crate) proof fn lemma_range_sum_const(s: Seq<u32>, lo: int, hi: int, m: u32)
    requires
        0 <= lo <= hi <= s.len(),
        forall|j: int| lo <= j < hi ==> s[j] == m,
    ensures
        range_sum(s, lo, hi) == (hi - lo) * m,
{
    lemma_range_sum_lower(s, lo, hi, m as int);
    lemma_range_sum_upper(s, lo, hi, m as int);
}

/// The sum is at least the sum of any three distinct entries.
proof fn lemma_range_sum_three(s: Seq<u32>, x: int, y: int, z: int)
    requires
        0 <= x < s.len(),
        0 <= y < s.len(),
        0 <= z < s.len(),
        x != y,
        y != z,
        x != z,
    ensures
        range_sum(s, 0, s.len() as int) >= s[x] + s[y] + s[z],
{
    let n = s.len() as int;
    let s1 = s.update(x, 0);
    let s2 = s1.update(y, 0);
    let s3 = s2.update(z, 0);
    lemma_range_sum_update(s, 0, n, x, 0);
    lemma_range_sum_update(s1, 0, n, y, 0);
    lemma_range_sum_update(s2, 0, n, z, 0);
    lemma_range_sum_lower(s3, 0, n, 0);
}

/// When every other entry is zero, the sum is the one entry left.
proof fn lemma_range_sum_single(s: Seq<u32>, x: int)
    requires
        0 <= x < s.len(),
        forall|j: int| 0 <= j < s.len() && j != x ==> s[j] == 0,
    ensures
        range_sum(s, 0, s.len() as int) == s[x],
{
    let n = s.len() as int;
    let s1 = s.update(x, 0);
    lemma_range_sum_update(s, 0, n, x, 0);
    lemma_range_sum_const(s1, 0, n, 0);
}

/// The number of links between groups `x` and `y` recorded in the upper
/// triangle of `cnt` (zero for `x == y`).
pub open spec fn pair_val(cnt: Seq<Seq<u32>>, x: int, y: int) -> int {
    if x < y {
        cnt[x][y] as int
    } else if y < x {
        cnt[y][x] as int
    } else {
        0
    }
}

/// The links recorded between group `x` and the groups `0 .. n`.
pub open spec fn deg_upto(cnt: Seq<Seq<u32>>, x: int, n: int) -> int
    decreases n,
{
    if n <= 0 {
        0
    } else {
        deg_upto(cnt, x, n - 1) + pair_val(cnt, x, n - 1)
    }
}

/// `cnt` with the entry for the pair `lo < hi` set to `v`.
pub open spec fn matrix_set(cnt: Seq<Seq<u32>>, lo: int, hi: int, v: u32) -> Seq<Seq<u32>> {
    cnt.update(lo, cnt[lo].update(hi, v))
}

/// `cnt` is a `g` by `g` matrix.
pub open spec fn is_square(cnt: Seq<Seq<u32>>, g: int) -> bool {
    &&& cnt.len() == g
    &&& forall|i: int| 0 <= i < g ==> (#[trigger] cnt[i]).len() == g
}

/// Setting the entry of pair `lo < hi` changes the link counts of groups
/// `lo` and `hi` by the difference, and no other group's.
proof fn lemma_deg_set(cnt: Seq<Seq<u32>>, g: int, lo: int, hi: int, v: u32, x: int, n: int)
    requires
        is_square(cnt, g),
        0 <= lo < hi < g,
        0 <= x < g,
        0 <= n <= g,
    ensures
        deg_upto(matrix_set(cnt, lo, hi, v), x, n) == deg_upto(cnt, x, n) + (if (x == lo && hi
            < n) || (x == hi && lo < n) {
            v - cnt[lo][hi]
        } else {
            0
        }),
    decreases n,
{
    if n > 0 {
        lemma_deg_set(cnt, g, lo, hi, v, x, n - 1);
    }
}

/// A group's link count is at least its count with any one group.
proof fn lemma_deg_ge(cnt: Seq<Seq<u32>>, x: int, n: int, y: int)
    requires
        0 <= y < n,
    ensures
        deg_upto(cnt, x, n) >= pair_val(cnt, x, y),
        deg_upto(cnt, x, n) >= 0,
    decreases n,
{
    if y < n - 1 {
        lemma_deg_ge(cnt, x, n - 1, y);
    } else {
        lemma_deg_nonneg(cnt, x, n - 1);
    }
}

/// Link counts are never negative.
proof fn lemma_deg_nonneg(cnt: Seq<Seq<u32>>, x: int, n: int)
    ensures
        deg_upto(cnt, x, n) >= 0,
    decreases n,
{
    if n > 0 {
        lemma_deg_nonneg(cnt, x, n - 1);
    }
}

/// No links with any group means a link count of zero.
proof fn lemma_deg_zero(cnt: Seq<Seq<u32>>, x: int, n: int)
    requires
        forall|y: int| 0 <= y < n ==> pair_val(cnt, x, y) == 0,
    ensures
        deg_upto(cnt, x, n) == 0,
    decreases n,
{
    if n > 0 {
        lemma_deg_zero(cnt, x, n - 1);
    }
}

/// Group `i` has the most link ends left, and every later group fewer.
pub open spec fn is_first_pick(rem: Seq<u32>, i: int) -> bool {
    &&& 0 <= i < rem.len()
    &&& forall|j: int| 0 <= j < rem.len() ==> rem[j] <= rem[i]
    &&& forall|j: int| i < j < rem.len() ==> rem[j] < rem[i]
}

/// Group `z` can take a link from group `g1`: another group with ends left.
pub open spec fn is_candidate(rem: Seq<u32>, g1: int, z: int) -> bool {
    &&& 0 <= z < rem.len()
    &&& z != g1
    &&& rem[z] > 0
}

/// `x` is a better partner for `g1` than `y`: fewer links with `g1`, then
/// more ends left, then a lower index.
pub open spec fn partner_lt(rem: Seq<u32>, cnt: Seq<Seq<u32>>, g1: int, x: int, y: int) -> bool {
    ||| pair_val(cnt, g1, x) < pair_val(cnt, g1, y)
    ||| pair_val(cnt, g1, x) == pair_val(cnt, g1, y) && rem[x] > rem[y]
    ||| pair_val(cnt, g1, x) == pair_val(cnt, g1, y) && rem[x] == rem[y] && x < y
}

/// `z` is the best partner for `g1`.
pub open spec fn is_partner(rem: Seq<u32>, cnt: Seq<Seq<u32>>, g1: int, z: int) -> bool {
    &&& is_candidate(rem, g1, z)
    &&& forall|j: int| is_candidate(rem, g1, j) && j != z ==> partner_lt(rem, cnt, g1, z, j)
}

/// The group that gets the next link.
pub open spec fn first_pick(rem: Seq<u32>) -> int {
    choose|i: int| is_first_pick(rem, i)
}

/// The group at the other end of the next link.
pub open spec fn partner(rem: Seq<u32>, cnt: Seq<Seq<u32>>) -> int {
    choose|z: int| is_partner(rem, cnt, first_pick(rem), z)
}

/// Link ends left per group, and links recorded per pair of groups.
pub type PairingState = (Seq<u32>, Seq<Seq<u32>>);

/// One link between two groups.
pub open spec fn pairing_step(st: PairingState) -> PairingState {
    let rem = st.0;
    let cnt = st.1;
    let x = first_pick(rem);
    let y = partner(rem, cnt);
    let lo = if x < y {
        x
    } else {
        y
    };
    let hi = if x < y {
        y
    } else {
        x
    };
    (
        rem.update(x, (rem[x] - 1) as u32).update(y, (rem[y] - 1) as u32),
        matrix_set(cnt, lo, hi, (cnt[lo][hi] + 1) as u32),
    )
}

/// The state after `t` links.
pub open spec fn pairing_after(st: PairingState, t: nat) -> PairingState
    decreases t,
{
    if t == 0 {
        st
    } else {
        pairing_step(pairing_after(st, (t - 1) as nat))
    }
}

/// Every group starts with `a * h` link ends and no links.
pub open spec fn pairing_start(a: u32, g: u32, h: u32) -> PairingState {
    (
        Seq::new(g as nat, |i: int| (a * h) as u32),
        Seq::new(g as nat, |i: int| Seq::new(g as nat, |j: int| 0u32)),
    )
}

/// The number of links between each pair of groups `x < y`, at `[x][y]`.
pub open spec fn group_pairs(a: u32, g: u32, h: u32) -> Seq<Seq<u32>> {
    pairing_after(pairing_start(a, g, h), ((a * g * h) / 2) as nat).1
}

/// The rows of a matrix as sequences.
pub open spec fn matrix_view(v: Seq<Vec<u32>>) -> Seq<Seq<u32>> {
    Seq::new(v.len(), |i: int| v[i]@)
}

/// Only one group satisfies `is_first_pick`.
proof fn lemma_first_pick_unique(rem: Seq<u32>, i: int)
    requires
        is_first_pick(rem, i),
    ensures
        first_pick(rem) == i,
{
    let j = first_pick(rem);
    assert(is_first_pick(rem, j));
    if j < i {
        assert(rem[i] < rem[j]);
    } else if i < j {
        assert(rem[j] < rem[i]);
    }
}

/// Only one group satisfies `is_partner`.
proof fn lemma_partner_unique(rem: Seq<u32>, cnt: Seq<Seq<u32>>, z: int)
    requires
        is_partner(rem, cnt, first_pick(rem), z),
    ensures
        partner(rem, cnt) == z,
{
    let w = partner(rem, cnt);
    assert(is_partner(rem, cnt, first_pick(rem), w));
    if w != z {
        assert(partner_lt(rem, cnt, first_pick(rem), z, w));
        assert(partner_lt(rem, cnt, first_pick(rem), w, z));
    }
}

/// The link counts between groups are as even as the rule keeps them: every
/// pair of distinct groups shares at least `min(r, q)` links, and while
/// `r < q` at most `r + 1`.
pub open spec fn pairs_even(cnt: Seq<Seq<u32>>, g: int, q: int, r: int) -> bool {
    forall|x: int, y: int|
        0 <= x < g && 0 <= y < g && x != y ==> {
            &&& #[trigger] pair_val(cnt, x, y) >= (if r < q {
                r
            } else {
                q
            })
            &&& (r < q ==> pair_val(cnt, x, y) <= r + 1)
        }
}

/// Links with each other group at most `hi` add up to at most `hi` per
/// other group, with equality only when each is `hi`.
proof fn lemma_deg_upper(cnt: Seq<Seq<u32>>, x: int, n: int, hi: int)
    requires
        0 <= n,
        hi >= 0,
        forall|y: int| 0 <= y < n && y != x ==> pair_val(cnt, x, y) <= hi,
    ensures
        deg_upto(cnt, x, n) <= hi * (n - (if 0 <= x < n {
            1int
        } else {
            0
        })),
        deg_upto(cnt, x, n) == hi * (n - (if 0 <= x < n {
            1int
        } else {
            0
        })) ==> forall|y: int| 0 <= y < n && y != x ==> pair_val(cnt, x, y) == hi,
    decreases n,
{
    if n > 0 {
        lemma_deg_upper(cnt, x, n - 1, hi);
        let m = n - 1 - (if 0 <= x < n - 1 {
            1int
        } else {
            0
        });
        assert(hi * m + hi == hi * (m + 1)) by (nonlinear_arith);
        assert(m >= 0);
        assert(hi * m >= 0) by (nonlinear_arith)
            requires
                hi >= 0,
                m >= 0,
        ;
    }
}

/// Links with each other group at least `lo` add up to at least `lo` per
/// other group, with equality only when each is `lo`.
proof fn lemma_deg_lower(cnt: Seq<Seq<u32>>, x: int, n: int, lo: int)
    requires
        0 <= n,
        forall|y: int| 0 <= y < n && y != x ==> pair_val(cnt, x, y) >= lo,
    ensures
        deg_upto(cnt, x, n) >= lo * (n - (if 0 <= x < n {
            1int
        } else {
            0
        })),
        deg_upto(cnt, x, n) == lo * (n - (if 0 <= x < n {
            1int
        } else {
            0
        })) ==> forall|y: int| 0 <= y < n && y != x ==> pair_val(cnt, x, y) == lo,
    decreases n,
{
    if n > 0 {
        lemma_deg_lower(cnt, x, n - 1, lo);
        let m = n - 1 - (if 0 <= x < n - 1 {
            1int
        } else {
            0
        });
        assert(lo * m + lo == lo * (m + 1)) by (nonlinear_arith);
    }
}

/// One link keeps the counts even: the group with the most ends left still
/// has a group it shares the fewest (`r`) links with and that has ends
/// left, so its partner is such a group.
proof fn lemma_pairing_step_even(
    rem: Seq<u32>,
    cnt: Seq<Seq<u32>>,
    g: int,
    t: int,
    q: int,
    r: int,
    g1: int,
    g2: int,
) -> (r2: int)
    requires
        g >= 2,
        rem.len() == g,
        is_square(cnt, g),
        q >= 0,
        q * (g - 1) <= t,
        t <= u32::MAX,
        r >= 0,
        forall|x: int| 0 <= x < g ==> rem[x] + deg_upto(cnt, x, g) == t,
        is_first_pick(rem, g1),
        is_partner(rem, cnt, g1, g2),
        pairs_even(cnt, g, q, r),
    ensures
        r2 >= 0,
        pairs_even(
            matrix_set(
                cnt,
                if g1 < g2 {
                    g1
                } else {
                    g2
                },
                if g1 < g2 {
                    g2
                } else {
                    g1
                },
                (cnt[if g1 < g2 {
                    g1
                } else {
                    g2
                }][if g1 < g2 {
                    g2
                } else {
                    g1
                }] + 1) as u32,
            ),
            g,
            q,
            r2,
        ),
{
    let lo = if g1 < g2 {
        g1
    } else {
        g2
    };
    let hi = if g1 < g2 {
        g2
    } else {
        g1
    };
    let c2 = matrix_set(cnt, lo, hi, (cnt[lo][hi] + 1) as u32);
    lemma_deg_ge(cnt, lo, g, hi);
    assert(rem[lo] >= 1 && rem[hi] >= 1);
    assert(cnt[lo][hi] < u32::MAX);
    assert forall|x: int, y: int| 0 <= x < g && 0 <= y < g && x != y implies #[trigger] pair_val(
        c2,
        x,
        y,
    ) == pair_val(cnt, x, y) + (if (x == lo && y == hi) || (x == hi && y == lo) {
        1int
    } else {
        0
    }) by {
        let u = if x < y {
            x
        } else {
            y
        };
        assert(c2[u] == if u == lo {
            cnt[lo].update(hi, (cnt[lo][hi] + 1) as u32)
        } else {
            cnt[u]
        });
    }
    if r >= q {
        return r;
    }
    // The smallest count is `r`, or all counts are `r + 1`.
    let r1 = if exists|x: int, y: int|
        0 <= x < g && 0 <= y < g && x != y && #[trigger] pair_val(cnt, x, y) == r {
        r
    } else {
        r + 1
    };
    if r1 >= q {
        assert forall|x: int, y: int| 0 <= x < g && 0 <= y < g && x != y implies #[trigger] pair_val(
            c2,
            x,
            y,
        ) >= q by {
            assert(pair_val(cnt, x, y) >= r);
            assert(pair_val(cnt, x, y) != r);
        }
        return r1;
    }
    assert(pairs_even(cnt, g, q, r1)) by {
        if r1 == r + 1 {
            assert forall|x: int, y: int| 0 <= x < g && 0 <= y < g && x != y implies #[trigger] pair_val(
                cnt,
                x,
                y,
            ) >= r + 1 by {
                assert(pair_val(cnt, x, y) >= r);
                assert(pair_val(cnt, x, y) != r);
            }
        }
    }
    let (x0, y0) = choose|x: int, y: int|
        0 <= x < g && 0 <= y < g && x != y && #[trigger] pair_val(cnt, x, y) == r1;
    // Group `g1` shares only `r1` links with some group.
    if forall|y: int| 0 <= y < g && y != g1 ==> pair_val(cnt, g1, y) != r1 {
        assert forall|y: int| 0 <= y < g && y != g1 implies pair_val(cnt, g1, y) >= r1 + 1 by {
            assert(pair_val(cnt, g1, y) >= r1);
        }
        lemma_deg_lower(cnt, g1, g, r1 + 1);
        assert forall|x: int| 0 <= x < g implies deg_upto(cnt, x, g) == (r1 + 1) * (g - 1) by {
            assert forall|y: int| 0 <= y < g && y != x implies pair_val(cnt, x, y) <= r1 + 1 by {
                assert(pair_val(cnt, x, y) <= r1 + 1);
            }
            lemma_deg_upper(cnt, x, g, r1 + 1);
            assert(rem[x] <= rem[g1]);
        }
        lemma_deg_upper(cnt, x0, g, r1 + 1);
        assert(pair_val(cnt, x0, y0) == r1 + 1);
        assert(false);
    }
    let y1 = choose|y: int| 0 <= y < g && y != g1 && pair_val(cnt, g1, y) == r1;
    // That group has ends left.
    assert(rem[y1] > 0) by {
        assert forall|y: int| 0 <= y < g && y != y1 implies pair_val(cnt, y1, y) <= r1 + 1 by {}
        lemma_deg_upper(cnt, y1, g, r1 + 1);
        if deg_upto(cnt, y1, g) == (r1 + 1) * (g - 1) {
            assert(pair_val(cnt, y1, g1) == r1 + 1);
            assert(false);
        }
        assert((r1 + 1) * (g - 1) <= q * (g - 1)) by (nonlinear_arith)
            requires
                r1 + 1 <= q,
                g >= 2,
        ;
    }
    assert(is_candidate(rem, g1, y1));
    assert(pair_val(cnt, g1, g2) == r1) by {
        if y1 != g2 {
            assert(partner_lt(rem, cnt, g1, g2, y1));
        }
        assert(pair_val(cnt, g1, g2) >= r1);
    }
    assert forall|x: int, y: int| 0 <= x < g && 0 <= y < g && x != y implies {
        &&& #[trigger] pair_val(c2, x, y) >= r1
        &&& pair_val(c2, x, y) <= r1 + 1
    } by {
        assert(pair_val(cnt, x, y) >= r1);
        assert(pair_val(cnt, x, y) <= r1 + 1);
        if (x == lo && y == hi) || (x == hi && y == lo) {
            assert(pair_val(cnt, x, y) == pair_val(cnt, g1, g2));
        }
    }
    r1
}

/// When every group has used all `t` of its link ends and the counts are
/// even, every pair of groups shares at least `q` links.
proof fn lemma_pairs_even_done(cnt: Seq<Seq<u32>>, g: int, t: int, q: int, r: int)
    requires
        g >= 2,
        q * (g - 1) <= t,
        q >= 0,
        r >= 0,
        forall|x: int| 0 <= x < g ==> deg_upto(cnt, x, g) == t,
        pairs_even(cnt, g, q, r),
    ensures
        forall|x: int, y: int| 0 <= x < g && 0 <= y < g && x != y ==> #[trigger] pair_val(cnt, x, y) >= q,
{
    if r < q {
        assert forall|x: int, y: int| 0 <= x < g && 0 <= y < g && x != y implies #[trigger] pair_val(
            cnt,
            x,
            y,
        ) >= q by {
            assert forall|z: int| 0 <= z < g && z != x implies pair_val(cnt, x, z) <= r + 1 by {}
            lemma_deg_upper(cnt, x, g, r + 1);
            assert((r + 1) * (g - 1) <= q * (g - 1)) by (nonlinear_arith)
                requires
                    r + 1 <= q,
                    g >= 2,
            ;
            assert(deg_upto(cnt, x, g) == (r + 1) * (g - 1));
            assert(pair_val(cnt, x, y) == r + 1);
            assert(r + 1 >= q) by (nonlinear_arith)
                requires
                    (r + 1) * (g - 1) >= q * (g - 1),
                    g >= 2,
            ;
        }
    }
}

/// Pairs the groups: entry `[x][y]` (`x < y`) of the result is the number of
/// global links between groups `x` and `y`. Every group ends up with exactly
/// `a * h` links, and every pair of groups with at least `a * h / (g - 1)`
/// (exactly that many when `g - 1` divides `a * h`).
pub fn pair_groups(a: u32, g: u32, h: u32) -> (cnt: Vec<Vec<u32>>)
    requires
        a * h <= u32::MAX,
        a * g * h <= u32::MAX,
        (a * g * h) % 2 == 0,
        g != 1 || a * h == 0,
    ensures
        matrix_view(cnt@) == group_pairs(a, g, h),
        is_square(matrix_view(cnt@), g as int),
        forall|x: int| 0 <= x < g ==> deg_upto(matrix_view(cnt@), x, g as int) == a * h,
        forall|x: int, y: int|
            0 <= y <= x < g ==> #[trigger] matrix_view(cnt@)[x][y] == 0,
        g >= 2 ==> forall|x: int, y: int|
            0 <= x < y < g ==> #[trigger] matrix_view(cnt@)[x][y] >= (a * h) / (g - 1) as int,
        g >= 2 && (a * h) % (g - 1) as int == 0 ==> forall|x: int, y: int|
            0 <= x < y < g ==> #[trigger] matrix_view(cnt@)[x][y] == (a * h) / (g - 1) as int,
{
    let ghost q: int = if g >= 2 {
        (a * h) / (g - 1) as int
    } else {
        0
    };
    let ghost mut r: int = 0;
    proof {
        if g >= 2 {
            vstd::arithmetic::div_mod::lemma_fundamental_div_mod((a * h) as int, (g - 1) as int);
            assert(q * (g - 1) <= a * h) by (nonlinear_arith)
                requires
                    a * h == (g - 1) * q + (a * h) % (g - 1) as int,
                    (a * h) % (g - 1) as int >= 0,
            ;
            assert(q >= 0) by (nonlinear_arith)
                requires
                    q == (a * h) / (g - 1) as int,
                    g >= 2,
            ;
        }
        assert(g * (a * h) == a * g * h) by (nonlinear_arith);
        if g >= 2 {
            assert(2 * (a * h) <= a * g * h) by (nonlinear_arith)
                requires
                    g >= 2,
            ;
        }
    }
    let target = a * h;
    let gu = g as usize;
    let mut rem: Vec<u32> = Vec::new();
    let mut counts: Vec<Vec<u32>> = Vec::new();
    let mut i: usize = 0;
    while i < gu
        invariant
            gu == g,
            i <= gu,
            rem@ =~= Seq::new(i as nat, |k: int| (a * h) as u32),
            target == a * h,
            counts@.len() == i,
            forall|k: int| 0 <= k < i ==> (#[trigger] counts@[k])@ =~= Seq::new(g as nat, |j: int| 0u32),
        decreases gu - i,
    {
        rem.push(target);
        let mut row: Vec<u32> = Vec::new();
        let mut j: usize = 0;
        while j < gu
            invariant
                gu == g,
                j <= gu,
                row@ =~= Seq::new(j as nat, |k: int| 0u32),
            decreases gu - j,
        {
            row.push(0);
            j = j + 1;
        }
        counts.push(row);
        i = i + 1;
    }
    proof {
        assert(matrix_view(counts@) =~= Seq::new(g as nat, |k: int| Seq::new(g as nat, |j: int| 0u32)));
    }
    let mut left: u32 = g * target;
    let ghost start = pairing_start(a, g, h);
    let ghost mut t: nat = 0;
    proof {
        assert(rem@ == start.0);
        assert(matrix_view(counts@) == start.1);
        lemma_range_sum_const(rem@, 0, g as int, target);
        assert forall|x: int| 0 <= x < g implies rem@[x] + deg_upto(matrix_view(counts@), x, g as int)
            == a * h by {
            lemma_deg_zero(matrix_view(counts@), x, g as int);
        }
    }
    while left > 0
        invariant
            gu == g,
            a * g * h <= u32::MAX,
            a * h <= u32::MAX,
            rem@.len() == g,
            is_square(matrix_view(counts@), g as int),
            (rem@, matrix_view(counts@)) == pairing_after(start, t),
            start == pairing_start(a, g, h),
            left == range_sum(rem@, 0, g as int),
            left % 2 == 0,
            forall|k: int| 0 <= k < g ==> 2 * rem@[k] <= left,
            forall|x: int|
                0 <= x < g ==> rem@[x] + deg_upto(matrix_view(counts@), x, g as int) == a * h,
            forall|x: int, y: int|
                0 <= y <= x < g ==> #[trigger] matrix_view(counts@)[x][y] == 0,
            2 * t + left == a * g * h,
            g >= 2 ==> q * (g - 1) <= a * h && q >= 0 && r >= 0 && pairs_even(
                matrix_view(counts@),
                g as int,
                q,
                r,
            ),
            g >= 2 ==> q == (a * h) / (g - 1) as int,
        decreases left,
    {
        let ghost view = matrix_view(counts@);
        let ghost r0 = rem@;
        assert(g > 0);
        // The group with the most link ends left (the last one on ties).
        let mut g1: usize = 0;
        let mut best: u32 = rem[0];
        let mut k: usize = 1;
        while k < gu
            invariant
                gu == g,
                rem@ == r0,
                r0.len() == g,
                1 <= k <= gu,
                g1 < k,
                best == r0[g1 as int],
                forall|j: int| 0 <= j < k ==> r0[j] <= best,
                forall|j: int| g1 < j < k ==> r0[j] < best,
            decreases gu - k,
        {
            if rem[k] >= best {
                best = rem[k];
                g1 = k;
            }
            k = k + 1;
        }
        proof {
            assert(is_first_pick(r0, g1 as int));
            lemma_first_pick_unique(r0, g1 as int);
        }
        // Its partner: fewest shared links, then most ends left, then lowest index.
        let mut g2: usize = 0;
        let mut found: bool = false;
        let mut best_score: u32 = 0;
        let mut best_rem: u32 = 0;
        let mut j: usize = 0;
        while j < gu
            invariant
                gu == g,
                rem@ == r0,
                r0.len() == g,
                matrix_view(counts@) == view,
                is_square(view, g as int),
                0 <= g1 < g,
                j <= gu,
                found <==> exists|z: int| 0 <= z < j && is_candidate(r0, g1 as int, z),
                found ==> {
                    &&& g2 < j
                    &&& is_candidate(r0, g1 as int, g2 as int)
                    &&& best_score == pair_val(view, g1 as int, g2 as int)
                    &&& best_rem == r0[g2 as int]
                    &&& forall|z: int|
                        0 <= z < j && is_candidate(r0, g1 as int, z) && z != g2 ==> partner_lt(
                            r0,
                            view,
                            g1 as int,
                            g2 as int,
                            z,
                        )
                },
            decreases gu - j,
        {
            let ghost found_before = found;
            if j != g1 && rem[j] > 0 {
                proof {
                    assert(is_candidate(r0, g1 as int, j as int));
                }
                let lo = if g1 < j {
                    g1
                } else {
                    j
                };
                let hi = if g1 < j {
                    j
                } else {
                    g1
                };
                proof {
                    assert(view[lo as int] == counts@[lo as int]@);
                    assert(view[lo as int].len() == g);
                }
                let score = counts[lo][hi];
                proof {
                    assert(score == pair_val(view, g1 as int, j as int));
                }
                if !found || score < best_score || (score == best_score && rem[j] > best_rem) {
                    g2 = j;
                    best_score = score;
                    best_rem = rem[j];
                    found = true;
                }
            } else {
                proof {
                    assert(!is_candidate(r0, g1 as int, j as int));
                    if exists|z: int| 0 <= z < j + 1 && is_candidate(r0, g1 as int, z) {
                        let z = choose|z: int| 0 <= z < j + 1 && is_candidate(r0, g1 as int, z);
                        assert(z < j);
                    }
                }
            }
            j = j + 1;
        }
        proof {
            if !found {
                assert forall|z: int| 0 <= z < g && z != g1 implies r0[z] == 0 by {
                    assert(!is_candidate(r0, g1 as int, z));
                }
                lemma_range_sum_single(r0, g1 as int);
                assert(false);
            }
            assert(is_partner(r0, view, g1 as int, g2 as int));
            lemma_partner_unique(r0, view, g2 as int);
            if g >= 2 {
                r = lemma_pairing_step_even(r0, view, g as int, (a * h) as int, q, r, g1 as int, g2 as int);
            }
        }
        let lo = if g1 < g2 {
            g1
        } else {
            g2
        };
        let hi = if g1 < g2 {
            g2
        } else {
            g1
        };
        proof {
            lemma_deg_ge(view, lo as int, g as int, hi as int);
            assert(r0[lo as int] >= 1);
            assert(view[lo as int] == counts@[lo as int]@);
            assert(view[lo as int].len() == g);
        }
        counts[lo][hi] = counts[lo][hi] + 1;
        rem[g1] = rem[g1] - 1;
        rem[g2] = rem[g2] - 1;
        proof {
            let v2 = matrix_view(counts@);
            assert(v2 =~= matrix_set(view, lo as int, hi as int, (view[lo as int][hi as int] + 1) as u32));
            assert forall|x: int| 0 <= x < g implies rem@[x] + deg_upto(matrix_view(counts@), x, g as int)
                == a * h by {
                lemma_deg_set(view, g as int, lo as int, hi as int, (view[lo as int][hi as int] + 1) as u32, x, g as int);
            }
            let r1 = r0.update(g1 as int, (r0[g1 as int] - 1) as u32);
            lemma_range_sum_update(r0, 0, g as int, g1 as int, (r0[g1 as int] - 1) as u32);
            lemma_range_sum_update(r1, 0, g as int, g2 as int, (r1[g2 as int] - 1) as u32);
            assert forall|k: int| 0 <= k < g implies 2 * rem@[k] <= left - 2 by {
                if k != g1 && k != g2 && r0[k] == r0[g1 as int] {
                    lemma_range_sum_three(r0, k, g1 as int, g2 as int);
                }
            }
            t = t + 1;
        }
        left = left - 2;
    }
    proof {
        assert(2 * t == a * g * h);
        assert(t == (a * g * h) / 2);
        assert forall|x: int| 0 <= x < g implies deg_upto(matrix_view(counts@), x, g as int) == a * h by {
            assert(2 * rem@[x] <= left);
        }
        let m = matrix_view(counts@);
        if g >= 2 {
            lemma_pairs_even_done(m, g as int, (a * h) as int, q, r);
            assert forall|x: int, y: int| 0 <= x < y < g implies #[trigger] m[x][y] >= q by {
                assert(pair_val(m, x, y) >= q);
            }
            if (a * h) % (g - 1) as int == 0 {
                assert(q * (g - 1) == a * h) by (nonlinear_arith)
                    requires
                        a * h == (g - 1) * q + (a * h) % (g - 1) as int,
                        (a * h) % (g - 1) as int == 0,
                ;
                assert forall|x: int, y: int| 0 <= x < y < g implies #[trigger] m[x][y] == q by {
                    assert forall|z: int| 0 <= z < g && z != x implies pair_val(m, x, z) >= q by {}
                    lemma_deg_lower(m, x, g as int, q);
                    assert(pair_val(m, x, y) == q);
                }
            }
        }
    }
    counts
}

/// What holds after `t` links of the pairing: ends left and links recorded
/// add up to `a * h` for every group, half the ends left cannot exceed any
/// one group's, links live in the upper triangle, and the counts are even.
pub open spec fn pairing_inv(st: PairingState, a: u32, g: u32, h: u32, t: int, r: int) -> bool {
    let rem = st.0;
    let cnt = st.1;
    &&& rem.len() == g
    &&& is_square(cnt, g as int)
    &&& range_sum(rem, 0, g as int) + 2 * t == a * g * h
    &&& forall|k: int| 0 <= k < g ==> 2 * rem[k] <= range_sum(rem, 0, g as int)
    &&& forall|x: int| 0 <= x < g ==> rem[x] + deg_upto(cnt, x, g as int) == a * h
    &&& forall|x: int, y: int| 0 <= y <= x < g ==> #[trigger] cnt[x][y] == 0
    &&& g >= 2 ==> r >= 0 && pairs_even(cnt, g as int, (a * h) / (g - 1) as int, r)
}

/// The last group holding the most ends among the first `n`.
proof fn lemma_first_pick_upto(rem: Seq<u32>, n: int) -> (i: int)
    requires
        1 <= n <= rem.len(),
    ensures
        0 <= i < n,
        forall|j: int| 0 <= j < n ==> rem[j] <= rem[i],
        forall|j: int| i < j < n ==> rem[j] < rem[i],
    decreases n,
{
    if n == 1 {
        0
    } else {
        let i = lemma_first_pick_upto(rem, n - 1);
        if rem[n - 1] >= rem[i] {
            n - 1
        } else {
            i
        }
    }
}

/// The best partner for `g1` among the first `n` groups, given a candidate
/// there.
proof fn lemma_partner_upto(rem: Seq<u32>, cnt: Seq<Seq<u32>>, g1: int, n: int) -> (z: int)
    requires
        n <= rem.len(),
        exists|j: int| 0 <= j < n && is_candidate(rem, g1, j),
    ensures
        0 <= z < n,
        is_candidate(rem, g1, z),
        forall|j: int| 0 <= j < n && is_candidate(rem, g1, j) && j != z ==> partner_lt(rem, cnt, g1, z, j),
    decreases n,
{
    if exists|j: int| 0 <= j < n - 1 && is_candidate(rem, g1, j) {
        let b = lemma_partner_upto(rem, cnt, g1, n - 1);
        if is_candidate(rem, g1, n - 1) && partner_lt(rem, cnt, g1, n - 1, b) {
            n - 1
        } else {
            b
        }
    } else {
        n - 1
    }
}

/// One link of the pairing keeps `pairing_inv`.
proof fn lemma_pairing_inv_step(a: u32, g: u32, h: u32, st: PairingState, t: int, r: int) -> (r2: int)
    requires
        a * h <= u32::MAX,
        pairing_inv(st, a, g, h, t, r),
        2 * t < a * g * h,
        (a * g * h) % 2 == 0,
    ensures
        pairing_inv(pairing_step(st), a, g, h, t + 1, r2),
{
    let rem = st.0;
    let cnt = st.1;
    let gi = g as int;
    let left = range_sum(rem, 0, gi);
    assert(gi >= 1) by {
        if gi == 0 {
            assert(range_sum(rem, 0, 0) == 0);
        }
    }
    let i = lemma_first_pick_upto(rem, gi);
    assert(is_first_pick(rem, i));
    let g1 = first_pick(rem);
    assert(is_first_pick(rem, g1));
    lemma_first_pick_unique(rem, i);
    if !(exists|j: int| 0 <= j < gi && is_candidate(rem, g1, j)) {
        assert forall|z: int| 0 <= z < gi && z != g1 implies rem[z] == 0 by {
            assert(!is_candidate(rem, g1, z));
        }
        lemma_range_sum_single(rem, g1);
        assert(false);
    }
    let z = lemma_partner_upto(rem, cnt, g1, gi);
    assert(is_partner(rem, cnt, g1, z));
    let g2 = partner(rem, cnt);
    assert(is_partner(rem, cnt, g1, g2));
    lemma_partner_unique(rem, cnt, z);
    let lo = if g1 < g2 {
        g1
    } else {
        g2
    };
    let hi = if g1 < g2 {
        g2
    } else {
        g1
    };
    lemma_deg_ge(cnt, lo, gi, hi);
    assert(rem[g1] >= 1 && rem[g2] >= 1);
    let v = (cnt[lo][hi] + 1) as u32;
    let c2 = matrix_set(cnt, lo, hi, v);
    let r1 = rem.update(g1, (rem[g1] - 1) as u32);
    let rem2 = r1.update(g2, (r1[g2] - 1) as u32);
    assert(pairing_step(st) == (rem2, c2));
    assert forall|x: int| 0 <= x < gi implies rem2[x] + deg_upto(c2, x, gi) == a * h by {
        lemma_deg_set(cnt, gi, lo, hi, v, x, gi);
    }
    lemma_range_sum_update(rem, 0, gi, g1, (rem[g1] - 1) as u32);
    lemma_range_sum_update(r1, 0, gi, g2, (r1[g2] - 1) as u32);
    assert forall|k: int| 0 <= k < gi implies 2 * rem2[k] <= range_sum(rem2, 0, gi) by {
        if k != g1 && k != g2 && rem[k] == rem[g1] {
            lemma_range_sum_three(rem, k, g1, g2);
        }
    }
    assert forall|x: int, y: int| 0 <= y <= x < gi implies #[trigger] c2[x][y] == 0 by {
        assert(c2[x] == if x == lo {
            cnt[lo].update(hi, v)
        } else {
            cnt[x]
        });
    }
    assert(is_square(c2, gi));
    if gi >= 2 {
        vstd::arithmetic::div_mod::lemma_fundamental_div_mod((a * h) as int, gi - 1);
        let q = (a * h) / (g - 1) as int;
        assert(q * (gi - 1) <= a * h && q >= 0) by (nonlinear_arith)
            requires
                a * h == (gi - 1) * q + (a * h) % (gi - 1),
                (a * h) % (gi - 1) >= 0,
                gi >= 2,
                q == (a * h) / (gi - 1),
        ;
        lemma_pairing_step_even(rem, cnt, gi, (a * h) as int, q, r, g1, g2)
    } else {
        r
    }
}

/// `pairing_inv` holds after each of the first `t` links.
proof fn lemma_pairing_inv(a: u32, g: u32, h: u32, t: nat) -> (r: int)
    requires
        a * h <= u32::MAX,
        a * g * h <= u32::MAX,
        (a * g * h) % 2 == 0,
        g != 1 || a * h == 0,
        2 * t <= a * g * h,
    ensures
        pairing_inv(pairing_after(pairing_start(a, g, h), t), a, g, h, t as int, r),
    decreases t,
{
    if t == 0 {
        let st = pairing_start(a, g, h);
        lemma_range_sum_const(st.0, 0, g as int, (a * h) as u32);
        assert(g * (a * h) == a * g * h) by (nonlinear_arith);
        assert forall|k: int| 0 <= k < g implies 2 * st.0[k] <= range_sum(st.0, 0, g as int) by {
            assert(2 * (a * h) <= g * (a * h)) by (nonlinear_arith)
                requires
                    g >= 2 || a * h == 0,
            ;
        }
        assert forall|x: int| 0 <= x < g implies st.0[x] + deg_upto(st.1, x, g as int) == a * h by {
            lemma_deg_zero(st.1, x, g as int);
        }
        if g >= 2 {
            assert(0 <= (a * h) / (g - 1) as int) by (nonlinear_arith)
                requires
                    g >= 2,
            ;
        }
        0
    } else {
        let r0 = lemma_pairing_inv(a, g, h, (t - 1) as nat);
        lemma_pairing_inv_step(a, g, h, pairing_after(pairing_start(a, g, h), (t - 1) as nat), t - 1, r0)
    }
}

/// Global links are spread evenly over the pairs of groups: with `g >= 2`
/// groups of `a` routers and `h` global links per router, every pair of
/// distinct groups gets at least `a * h / (g - 1)` links (so none is left
/// without a link when `g - 1 <= a * h`), and exactly `a * h / (g - 1)`
/// when `g - 1` divides `a * h`.
pub proof fn lemma_group_pairs_even(a: u32, g: u32, h: u32)
    requires
        a * h <= u32::MAX,
        a * g * h <= u32::MAX,
        (a * g * h) % 2 == 0,
        g >= 2,
    ensures
        forall|x: int, y: int|
            0 <= x < y < g ==> #[trigger] group_pairs(a, g, h)[x][y] >= (a * h) / (g - 1) as int,
        (a * h) % (g - 1) as int == 0 ==> forall|x: int, y: int|
            0 <= x < y < g ==> #[trigger] group_pairs(a, g, h)[x][y] == (a * h) / (g - 1) as int,
{
    let total = (a * g * h) / 2;
    let r = lemma_pairing_inv(a, g, h, total as nat);
    let st = pairing_after(pairing_start(a, g, h), total as nat);
    let m = st.1;
    let q = (a * h) / (g - 1) as int;
    let gi = g as int;
    assert(m == group_pairs(a, g, h));
    assert forall|x: int| 0 <= x < gi implies deg_upto(m, x, gi) == a * h by {
        assert(2 * st.0[x] <= range_sum(st.0, 0, gi));
    }
    vstd::arithmetic::div_mod::lemma_fundamental_div_mod((a * h) as int, gi - 1);
    assert(q * (gi - 1) <= a * h && q >= 0) by (nonlinear_arith)
        requires
            a * h == (gi - 1) * q + (a * h) % (gi - 1),
            (a * h) % (gi - 1) >= 0,
            gi >= 2,
            q == (a * h) / (gi - 1),
    ;
    lemma_pairs_even_done(m, gi, (a * h) as int, q, r);
    assert forall|x: int, y: int| 0 <= x < y < g implies #[trigger] m[x][y] >= q by {
        assert(pair_val(m, x, y) >= q);
    }
    if (a * h) % (g - 1) as int == 0 {
        assert(q * (gi - 1) == a * h) by (nonlinear_arith)
            requires
                a * h == (gi - 1) * q + (a * h) % (gi - 1),
                (a * h) % (gi - 1) == 0,
        ;
        assert forall|x: int, y: int| 0 <= x < y < g implies #[trigger] m[x][y] == q by {
            assert forall|z: int| 0 <= z < gi && z != x implies pair_val(m, x, z) >= q by {}
            lemma_deg_lower(m, x, gi, q);
            assert(pair_val(m, x, y) == q);
        }
    }
}

/// Router `r` of the group starting at `base` has the fewest global links
/// in that group, and every lower-numbered router in the group more.
pub open spec fn is_least(ports: Seq<u32>, base: int, a: int, r: int) -> bool {
    &&& 0 <= r < a
    &&& forall|j: int| base <= j < base + a ==> ports[base + r] <= #[trigger] ports[j]
    &&& forall|j: int| base <= j < base + r ==> #[trigger] ports[j] > ports[base + r]
}

/// The router of the group starting at `base` that gets the next link.
pub open spec fn least(ports: Seq<u32>, base: int, a: int) -> int {
    choose|r: int| is_least(ports, base, a, r)
}

/// Global links per router, and the links attached so far (router offsets).
pub type WiringState = (Seq<u32>, Seq<(u32, u32)>);

/// Attaches one link between groups `x` and `y`.
pub open spec fn wire_step(st: WiringState, a: int, x: int, y: int) -> WiringState {
    let ports = st.0;
    let src = x * a + least(ports, x * a, a);
    let dst = y * a + least(ports, y * a, a);
    (
        ports.update(src, (ports[src] + 1) as u32).update(dst, (ports[dst] + 1) as u32),
        st.1.push((src as u32, dst as u32)),
    )
}

/// The number of links for the `q`-th entry of the `g` by `g` matrix, read
/// row by row (only pairs `x < y` count).
pub open spec fn pair_mult(cnt: Seq<Seq<u32>>, g: int, q: int) -> nat {
    let x = q / g;
    let y = q % g;
    if x < y {
        cnt[x][y] as nat
    } else {
        0
    }
}

/// The wiring after all links of the matrix entries before `q` and `m`
/// links of entry `q`.
pub open spec fn wire_from(cnt: Seq<Seq<u32>>, a: int, g: int, q: nat, m: nat) -> WiringState
    decreases q, m,
{
    if m > 0 {
        wire_step(wire_from(cnt, a, g, q, (m - 1) as nat), a, q as int / g, q as int % g)
    } else if q == 0 {
        (Seq::new((a * g) as nat, |i: int| 0u32), Seq::empty())
    } else {
        wire_from(cnt, a, g, (q - 1) as nat, pair_mult(cnt, g, q - 1))
    }
}

/// The global links of a Dragonfly with `g` groups of `a` routers and `h`
/// global links per router, as router offsets `(src, dst)`.
pub open spec fn global_wiring(a: u32, g: u32, h: u32) -> Seq<(u32, u32)> {
    wire_from(group_pairs(a, g, h), a as int, g as int, (g * g) as nat, 0).1
}

/// The pair of groups `(src / a, dst / a)` that a link joins.
pub open spec fn group_pair(e: (u32, u32), a: u32) -> (int, int) {
    ((e.0 / a) as int, (e.1 / a) as int)
}

/// `p <= q` lexicographically.
pub open spec fn pair_le(p: (int, int), q: (int, int)) -> bool {
    p.0 < q.0 || (p.0 == q.0 && p.1 <= q.1)
}

/// The number of link ends at router `r`.
pub open spec fn endpoint_count(links: Seq<(u32, u32)>, r: int) -> int
    decreases links.len(),
{
    if links.len() == 0 {
        0
    } else {
        endpoint_count(links.drop_last(), r) + (if links.last().0 == r {
            1int
        } else {
            0
        }) + (if links.last().1 == r {
            1int
        } else {
            0
        })
    }
}

/// Only one router satisfies `is_least`.
proof fn lemma_least_unique(ports: Seq<u32>, base: int, a: int, r: int)
    requires
        is_least(ports, base, a, r),
    ensures
        least(ports, base, a) == r,
{
    let w = least(ports, base, a);
    assert(is_least(ports, base, a, w));
    if w < r {
        assert(ports[base + w] > ports[base + r]);
        assert(ports[base + r] <= ports[base + w]);
    } else if r < w {
        assert(ports[base + r] > ports[base + w]);
        assert(ports[base + w] <= ports[base + r]);
    }
}

/// Router `r < a` of group `x` lies in group `x`'s id range and in no
/// other group's.
proof fn lemma_group_index(a: int, x: int, r: int, z: int)
    requires
        a >= 1,
        0 <= r < a,
        x >= 0,
        z >= 0,
        z != x,
    ensures
        !(z * a <= x * a + r < z * a + a),
        x * a <= x * a + r < x * a + a,
{
    if z * a <= x * a + r < z * a + a {
        vstd::arithmetic::div_mod::lemma_fundamental_div_mod_converse(x * a + r, a, x, r);
        vstd::arithmetic::div_mod::lemma_fundamental_div_mod_converse(
            x * a + r,
            a,
            z,
            x * a + r - z * a,
        );
    }
}

/// The router of group `x` (of `a` routers) with the fewest global links.
fn least_loaded(ports: &Vec<u32>, base: usize, a: u32) -> (r: usize)
    requires
        a >= 1,
        base + a <= ports.len(),
    ensures
        is_least(ports@, base as int, a as int, r as int),
{
    let au = a as usize;
    let mut r: usize = 0;
    let mut best: u32 = ports[base];
    let mut s: usize = 1;
    while s < au
        invariant
            au == a,
            base + a <= ports.len(),
            1 <= s <= au,
            r < s,
            best == ports@[base + r],
            forall|t: int| base <= t < base + s ==> #[trigger] ports@[t] >= best,
            forall|t: int| base <= t < base + r ==> #[trigger] ports@[t] > best,
        decreases au - s,
    {
        if ports[base + s] < best {
            best = ports[base + s];
            r = s;
        }
        s = s + 1;
    }
    r
}

/// Wires the global links of a Dragonfly with `g` groups of `a` routers and
/// `h` global links per router. Each link joins routers of two different
/// groups (the lower group first), the links come ordered by that pair of
/// groups, and every router gets exactly `h` links.
pub fn wire_global_links(a: u32, g: u32, h: u32) -> (links: Vec<(u32, u32)>)
    requires
        a * h <= u32::MAX,
        a * g <= u32::MAX,
        a * g * h <= u32::MAX,
        (a * g * h) % 2 == 0,
        g != 1 || a * h == 0,
    ensures
        links@ == global_wiring(a, g, h),
        forall|i: int, j: int|
            0 <= i < j < links@.len() ==> pair_le(
                group_pair(links@[i], a),
                group_pair(links@[j], a),
            ),
        links@.len() * 2 == a * g * h,
        forall|i: int|
            0 <= i < links@.len() ==> (#[trigger] links@[i]).0 / a < links@[i].1 / a && links@[i].1 < a * g,
        forall|r: int| 0 <= r < a * g ==> endpoint_count(links@, r) == h,
{
    let counts = pair_groups(a, g, h);
    let ghost cnt = matrix_view(counts@);
    let total_r = a * g;
    let tu = total_r as usize;
    let au = a as usize;
    let gu = g as usize;
    let mut r_ports: Vec<u32> = Vec::new();
    let mut i: usize = 0;
    while i < tu
        invariant
            i <= tu,
            r_ports@ =~= Seq::new(i as nat, |k: int| 0u32),
        decreases tu - i,
    {
        r_ports.push(0);
        i = i + 1;
    }
    let mut links: Vec<(u32, u32)> = Vec::new();
    let ghost mut crem = cnt;
    proof {
        assert forall|x: int| 0 <= x < g implies range_sum(r_ports@, x * a, x * a + a) + deg_upto(
            crem,
            x,
            g as int,
        ) == a * h by {
            assert(0 <= x * a && x * a + a <= a * g) by (nonlinear_arith)
                requires
                    0 <= x < g,
                    a >= 0,
            ;
            lemma_range_sum_const(r_ports@, x * a, x * a + a, 0);
        }
        assert(r_ports@ == wire_from(cnt, a as int, g as int, 0, 0).0);
        assert(links@ == wire_from(cnt, a as int, g as int, 0, 0).1);
        lemma_range_sum_const(r_ports@, 0, a * g, 0);
    }
    let mut x: usize = 0;
    while x < gu
        invariant
            gu == g,
            au == a,
            tu == a * g,
            a * h <= u32::MAX,
            a * g <= u32::MAX,
            x <= gu,
            forall|k: int| 0 <= k < links@.len() ==> (#[trigger] group_pair(links@[k], a)).0 < x,
            forall|i: int, j: int|
                0 <= i < j < links@.len() ==> pair_le(
                    group_pair(links@[i], a),
                    group_pair(links@[j], a),
                ),
            cnt == matrix_view(counts@),
            is_square(cnt, g as int),
            is_square(crem, g as int),
            forall|u: int, v: int| 0 <= v <= u < g ==> #[trigger] cnt[u][v] == 0,
            forall|u: int, v: int| 0 <= u < g && 0 <= v < g ==> #[trigger] crem[u][v] == (if u < x {
                0
            } else {
                cnt[u][v]
            }),
            r_ports@.len() == a * g,
            (r_ports@, links@) == wire_from(cnt, a as int, g as int, (x * g) as nat, 0),
            forall|r: int| 0 <= r < a * g ==> r_ports@[r] <= h,
            forall|z: int|
                0 <= z < g ==> range_sum(r_ports@, z * a, z * a + a) + deg_upto(crem, z, g as int)
                    == a * h,
            forall|r: int| 0 <= r < a * g ==> r_ports@[r] == endpoint_count(links@, r),
            forall|k: int|
                0 <= k < links@.len() ==> (#[trigger] links@[k]).0 / a < links@[k].1 / a && links@[k].1 < a * g,
            range_sum(r_ports@, 0, a * g) == 2 * links@.len(),
        decreases gu - x,
    {
        let mut y: usize = 0;
        while y < gu
            invariant
                gu == g,
                au == a,
                tu == a * g,
                a * h <= u32::MAX,
                a * g <= u32::MAX,
                x < gu,
                y <= gu,
                forall|k: int|
                    0 <= k < links@.len() ==> (#[trigger] group_pair(links@[k], a)).0 < x || (
                    group_pair(links@[k], a).0 == x && group_pair(links@[k], a).1 < y),
                forall|i: int, j: int|
                    0 <= i < j < links@.len() ==> pair_le(
                        group_pair(links@[i], a),
                        group_pair(links@[j], a),
                    ),
                cnt == matrix_view(counts@),
                is_square(cnt, g as int),
                is_square(crem, g as int),
                forall|u: int, v: int| 0 <= v <= u < g ==> #[trigger] cnt[u][v] == 0,
                forall|u: int, v: int|
                    0 <= u < g && 0 <= v < g ==> #[trigger] crem[u][v] == (if u < x || (u == x && v
                        < y) {
                        0
                    } else {
                        cnt[u][v] as int
                    }),
                r_ports@.len() == a * g,
                (r_ports@, links@) == wire_from(cnt, a as int, g as int, (x * g + y) as nat, 0),
                forall|r: int| 0 <= r < a * g ==> r_ports@[r] <= h,
                forall|z: int|
                    0 <= z < g ==> range_sum(r_ports@, z * a, z * a + a) + deg_upto(
                        crem,
                        z,
                        g as int,
                    ) == a * h,
                forall|r: int| 0 <= r < a * g ==> r_ports@[r] == endpoint_count(links@, r),
                forall|k: int|
                    0 <= k < links@.len() ==> (#[trigger] links@[k]).0 / a < links@[k].1
                        / a && links@[k].1 < a * g,
                range_sum(r_ports@, 0, a * g) == 2 * links@.len(),
            decreases gu - y,
        {
            let ghost q = x * g + y;
            proof {
                vstd::arithmetic::div_mod::lemma_fundamental_div_mod_converse(q as int, g as int, x as int, y as int);
            }
            if x < y {
                proof {
                    assert(cnt[x as int] == counts@[x as int]@);
                }
                let mult = counts[x][y];
                let mut m: u32 = 0;
                while m < mult
                    invariant
                        gu == g,
                        au == a,
                        tu == a * g,
                        a * h <= u32::MAX,
                        forall|k: int|
                            0 <= k < links@.len() ==> (#[trigger] group_pair(links@[k], a)).0 < x
                                || (group_pair(links@[k], a).0 == x && group_pair(links@[k], a).1
                                <= y),
                        forall|i: int, j: int|
                            0 <= i < j < links@.len() ==> pair_le(
                                group_pair(links@[i], a),
                                group_pair(links@[j], a),
                            ),
                        a * g <= u32::MAX,
                        x < y < gu,
                        q == x * g + y,
                        q / (g as int) == x,
                        q % (g as int) == y,
                        m <= mult,
                        mult == cnt[x as int][y as int],
                        is_square(cnt, g as int),
                        is_square(crem, g as int),
                        forall|u: int, v: int|
                            0 <= u < g && 0 <= v < g ==> #[trigger] crem[u][v] == (if u < x || (u
                                == x && v < y) {
                                0
                            } else if u == x && v == y {
                                cnt[u][v] - m
                            } else {
                                cnt[u][v] as int
                            }),
                        r_ports@.len() == a * g,
                        (r_ports@, links@) == wire_from(cnt, a as int, g as int, q as nat, m as nat),
                        forall|r: int| 0 <= r < a * g ==> r_ports@[r] <= h,
                        forall|z: int|
                            0 <= z < g ==> range_sum(r_ports@, z * a, z * a + a) + deg_upto(
                                crem,
                                z,
                                g as int,
                            ) == a * h,
                        forall|r: int| 0 <= r < a * g ==> r_ports@[r] == endpoint_count(links@, r),
                        forall|k: int|
                            0 <= k < links@.len() ==> (#[trigger] links@[k]).0 / a
                                < links@[k].1 / a && links@[k].1 < a * g,
                        range_sum(r_ports@, 0, a * g) == 2 * links@.len(),
                    decreases mult - m,
                {
                    proof {
                        assert(x * a + a <= a * g && y * a + a <= a * g) by (nonlinear_arith)
                            requires
                                x < g,
                                y < g,
                                a >= 0,
                        ;
                    }
                    proof {
                        lemma_deg_ge(crem, x as int, g as int, y as int);
                        lemma_range_sum_lower(r_ports@, x * a, x * a + a, 0);
                        assert(a >= 1) by (nonlinear_arith)
                            requires
                                a * h >= 1,
                        ;
                    }
                    let base1 = x * au;
                    let base2 = y * au;
                    let r1 = least_loaded(&r_ports, base1, a);
                    let r2 = least_loaded(&r_ports, base2, a);
                    let src = base1 + r1;
                    let dst = base2 + r2;
                    let ghost p0 = r_ports@;
                    let ghost l0 = links@;
                    let ghost c0 = crem;
                    proof {
                        lemma_least_unique(p0, base1 as int, a as int, r1 as int);
                        lemma_least_unique(p0, base2 as int, a as int, r2 as int);
                        lemma_group_index(a as int, x as int, r1 as int, y as int);
                        lemma_group_index(a as int, y as int, r2 as int, x as int);
                        // Both groups still owe a link, so each has a router below `h`.
                        lemma_deg_ge(c0, x as int, g as int, y as int);
                        lemma_deg_ge(c0, y as int, g as int, x as int);
                        if p0[src as int] >= h {
                            lemma_range_sum_lower(p0, x * a, x * a + a, h as int);
                            assert(a * h == (x * a + a - x * a) * h) by (nonlinear_arith);
                        }
                        if p0[dst as int] >= h {
                            lemma_range_sum_lower(p0, y * a, y * a + a, h as int);
                            assert(a * h == (y * a + a - y * a) * h) by (nonlinear_arith);
                        }
                    }
                    links.push((src as u32, dst as u32));
                    r_ports.set(src, r_ports[src] + 1);
                    r_ports.set(dst, r_ports[dst] + 1);
                    proof {
                        let p1 = p0.update(src as int, (p0[src as int] + 1) as u32);
                        let newc = (cnt[x as int][y as int] - m - 1) as u32;
                        crem = matrix_set(c0, x as int, y as int, newc);
                        assert forall|z: int| 0 <= z < g implies range_sum(r_ports@, z * a, z * a + a)
                            + deg_upto(crem, z, g as int) == a * h by {
                            assert(0 <= z * a && z * a + a <= a * g) by (nonlinear_arith)
                                requires
                                    0 <= z < g,
                                    a >= 0,
                            ;
                            lemma_range_sum_update(p0, z * a, z * a + a, src as int, (p0[src as int] + 1) as u32);
                            lemma_range_sum_update(p1, z * a, z * a + a, dst as int, (p1[dst as int] + 1) as u32);
                            lemma_deg_set(c0, g as int, x as int, y as int, newc, z, g as int);
                            if z != x {
                                lemma_group_index(a as int, x as int, r1 as int, z);
                            }
                            if z != y {
                                lemma_group_index(a as int, y as int, r2 as int, z);
                            }
                        }
                        lemma_range_sum_update(p0, 0, a * g, src as int, (p0[src as int] + 1) as u32);
                        lemma_range_sum_update(p1, 0, a * g, dst as int, (p1[dst as int] + 1) as u32);
                        assert(links@.drop_last() =~= l0);
                        vstd::arithmetic::div_mod::lemma_fundamental_div_mod_converse(src as int, a as int, x as int, r1 as int);
                        vstd::arithmetic::div_mod::lemma_fundamental_div_mod_converse(dst as int, a as int, y as int, r2 as int);
                        assert forall|k: int|
                            0 <= k < links@.len() implies (#[trigger] links@[k]).0 / a
                                < links@[k].1 / a && links@[k].1 < a * g by {
                            if k < l0.len() {
                                assert(links@[k] == l0[k]);
                            }
                        }
                        assert(group_pair(links@[links@.len() - 1], a) == (x as int, y as int));
                        assert forall|k: int|
                            0 <= k < links@.len() implies (#[trigger] group_pair(links@[k], a)).0
                                < x || (group_pair(links@[k], a).0 == x && group_pair(
                                links@[k],
                                a,
                            ).1 <= y) by {
                            if k < l0.len() {
                                assert(links@[k] == l0[k]);
                            }
                        }
                        assert forall|i: int, j: int|
                            0 <= i < j < links@.len() implies pair_le(
                                group_pair(links@[i], a),
                                group_pair(links@[j], a),
                            ) by {
                            assert(links@[i] == l0[i]);
                            if j < l0.len() {
                                assert(links@[j] == l0[j]);
                            }
                        }
                    }
                    m = m + 1;
                }
                proof {
                    assert(pair_mult(cnt, g as int, q) == mult);
                }
            } else {
                proof {
                    assert(pair_mult(cnt, g as int, q) == 0);
                }
            }
            proof {
                assert(wire_from(cnt, a as int, g as int, (q + 1) as nat, 0) == wire_from(
                    cnt,
                    a as int,
                    g as int,
                    q as nat,
                    pair_mult(cnt, g as int, q),
                ));
            }
            y = y + 1;
        }
        proof {
            assert(x * g + g == (x + 1) * g) by (nonlinear_arith);
        }
        x = x + 1;
    }
    proof {
        assert forall|z: int| 0 <= z < g implies deg_upto(crem, z, g as int) == 0 by {
            lemma_deg_zero(crem, z, g as int);
        }
        assert forall|r: int| 0 <= r < a * g implies r_ports@[r] == h by {
            let z = r / (a as int);
            vstd::arithmetic::div_mod::lemma_fundamental_div_mod(r, a as int);
            assert(a >= 1) by (nonlinear_arith)
                requires
                    0 <= r < a * g,
            ;
            assert(0 <= z < g && z * a <= r < z * a + a) by (nonlinear_arith)
                requires
                    0 <= r < a * g,
                    a >= 1,
                    z == r / (a as int),
                    r == a * (r / (a as int)) + r % (a as int),
                    0 <= r % (a as int) < a,
            ;
            assert(0 <= z * a && z * a + a <= a * g) by (nonlinear_arith)
                requires
                    0 <= z < g,
                    a >= 0,
            ;
            assert(a * h == (z * a + a - z * a) * h) by (nonlinear_arith);
            assert(deg_upto(crem, z, g as int) == 0);
            assert(range_sum(r_ports@, z * a, z * a + a) + deg_upto(crem, z, g as int) == a * h);
            lemma_range_sum_full(r_ports@, z * a, z * a + a, h);
        }
        lemma_range_sum_const(r_ports@, 0, a * g, h);
        assert(g * g == (x * g) as nat);
    }
    links
}

} // verus!
