use vstd::prelude::*;

verus! {

use vstd::arithmetic::div_mod::lemma_fundamental_div_mod;
use vstd::arithmetic::div_mod::lemma_fundamental_div_mod_converse;
use vstd::arithmetic::div_mod::lemma_mod_bound;
use vstd::set_lib::lemma_int_range;
use vstd::set_lib::set_int_range;

/// Largest ring degree whose whole ring of identifiers still fits in `u128`:
/// the ring of degree `d` ends just before `4 * (d + 1) * (d + 1)`, which stays
/// within `u128` exactly while `d + 1 <= 2^63`.
pub const MAX_DEGREE: i128 = 0x7fff_ffff_ffff_ffff;

/// Adjusted absolute value used to group coordinates into square rings:
/// a non-negative value stands for itself, a negative value `v` for `-v - 1`,
/// so that the ring of degree `d` spans coordinates in `[-d - 1, d]`.
pub open spec fn adj(v: int) -> int {
    if v >= 0 {
        v
    } else {
        -v - 1
    }
}

/// Ring degree of a coordinate: the largest adjusted absolute value of its axes.
pub open spec fn ring_deg(x: int, y: int) -> int {
    if adj(x) >= adj(y) {
        adj(x)
    } else {
        adj(y)
    }
}

/// First identifier of the ring of degree `d`, i.e. `(2d)^2`.
pub open spec fn ring_base(d: int) -> int {
    4 * d * d
}

/// The identifier assigned to coordinate `(x, y)` by the spiral layout.
/// Within its ring the coordinate lies on one of four edges, walked in the
/// fixed order left, top, right, bottom, each edge `2d + 1` identifiers long.
pub open spec fn encode_at(x: int, y: int) -> int {
    let d = ring_deg(x, y);
    if x == -d - 1 && y < d {
        ring_base(d) + (d - 1) - y
    } else if y == -d - 1 {
        ring_base(d) + (2 * d + 1) + (x + d)
    } else if x == d {
        ring_base(d) + 2 * (2 * d + 1) + (y + d)
    } else {
        ring_base(d) + 3 * (2 * d + 1) + (d - 1) - x
    }
}

/// Integer square root, the largest `s` with `s * s <= n`.
pub open spec fn isqrt(n: int) -> int
    decreases n,
{
    if n <= 0 {
        0
    } else {
        let r = isqrt(n - 1);
        if (r + 1) * (r + 1) <= n {
            r + 1
        } else {
            r
        }
    }
}

/// Ring degree of the ring that identifier `n` falls in.
pub open spec fn id_deg(n: int) -> int {
    isqrt(n) / 2
}

/// The coordinate of identifier `n`, assuming `n` lies in the ring of degree `d`.
pub open spec fn decode_in_ring(n: int, d: int) -> (int, int) {
    let count = n - ring_base(d);
    let edge = count / (2 * d + 1);
    let left = count % (2 * d + 1);
    if edge == 0 {
        (-d - 1, d - 1 - left)
    } else if edge == 1 {
        (-d + left, -d - 1)
    } else if edge == 2 {
        (d, -d + left)
    } else {
        (d - 1 - left, d)
    }
}

/// The coordinate assigned to identifier `n` by the spiral layout.
pub open spec fn decode_id(n: int) -> (int, int) {
    decode_in_ring(n, id_deg(n))
}

pub proof fn lemma_isqrt_bounds(n: int)
    requires
        n >= 0,
    ensures
        isqrt(n) >= 0,
        isqrt(n) * isqrt(n) <= n,
        n < (isqrt(n) + 1) * (isqrt(n) + 1),
    decreases n,
{
    if n == 0 {
    } else {
        lemma_isqrt_bounds(n - 1);
        let r = isqrt(n - 1);
        if (r + 1) * (r + 1) <= n {
            assert(n < (r + 2) * (r + 2)) by (nonlinear_arith)
                requires
                    r >= 0,
                    n - 1 < (r + 1) * (r + 1),
            ;
        }
    }
}

pub proof fn lemma_isqrt_unique(n: int, s: int)
    requires
        n >= 0,
        s >= 0,
        s * s <= n,
        n < (s + 1) * (s + 1),
    ensures
        isqrt(n) == s,
{
    lemma_isqrt_bounds(n);
    let r = isqrt(n);
    assert(r == s) by (nonlinear_arith)
        requires
            r >= 0,
            s >= 0,
            r * r <= n,
            n < (r + 1) * (r + 1),
            s * s <= n,
            n < (s + 1) * (s + 1),
    ;
}

/// Identifier `n` lies between the bases of its ring and the next ring.
pub proof fn lemma_id_deg_bounds(n: int)
    requires
        n >= 0,
    ensures
        id_deg(n) >= 0,
        ring_base(id_deg(n)) <= n,
        n < ring_base(id_deg(n) + 1),
{
    lemma_isqrt_bounds(n);
    let s = isqrt(n);
    let d = s / 2;
    assert(2 * d <= s && s <= 2 * d + 1);
    assert(4 * d * d <= s * s) by (nonlinear_arith)
        requires
            0 <= 2 * d <= s,
    ;
    assert((s + 1) * (s + 1) <= 4 * (d + 1) * (d + 1)) by (nonlinear_arith)
        requires
            0 <= s + 1 <= 2 * d + 2,
    ;
}

/// The ring that holds `n` is unique: the bounds pin the degree down.
pub proof fn lemma_id_deg_unique(n: int, d: int)
    requires
        d >= 0,
        ring_base(d) <= n,
        n < ring_base(d + 1),
    ensures
        id_deg(n) == d,
{
    lemma_isqrt_bounds(n);
    let s = isqrt(n);
    assert(2 * d <= s) by (nonlinear_arith)
        requires
            d >= 0,
            s >= 0,
            4 * d * d <= n,
            n < (s + 1) * (s + 1),
    ;
    assert(s <= 2 * d + 1) by (nonlinear_arith)
        requires
            d >= 0,
            s >= 0,
            s * s <= n,
            n < 4 * (d + 1) * (d + 1),
    ;
    assert(s / 2 == d);
}

/// Expanding the base of the next ring: the ring of degree `d` holds exactly
/// `8d + 4` identifiers.
pub proof fn lemma_ring_width(d: int)
    ensures
        ring_base(d + 1) == ring_base(d) + 4 * (2 * d + 1),
{
    assert(4 * (d + 1) * (d + 1) == 4 * d * d + 4 * (2 * d + 1)) by (nonlinear_arith);
}

/// Bijection round trip: every non-negative identifier decodes to a coordinate
/// of the same ring degree, and encoding that coordinate restores the
/// identifier.
pub proof fn lemma_bijection_round_trip(n: int)
    requires
        n >= 0,
    ensures
        ring_deg(decode_id(n).0, decode_id(n).1) == id_deg(n),
        encode_at(decode_id(n).0, decode_id(n).1) == n,
{
    lemma_id_deg_bounds(n);
    let d = id_deg(n);
    let base = ring_base(d);
    let el = 2 * d + 1;
    let count = n - base;
    lemma_ring_width(d);
    assert(0 <= count < 4 * el);
    let edge = count / el;
    let left = count % el;
    lemma_fundamental_div_mod(count, el);
    assert(0 <= left < el) by {
        lemma_mod_bound(count, el);
    }
    assert(count == el * edge + left);
    assert(0 <= edge <= 3) by (nonlinear_arith)
        requires
            el > 0,
            count == el * edge + left,
            0 <= left < el,
            0 <= count < 4 * el,
    ;
    if edge == 0 {
        let x = -d - 1;
        let y = d - 1 - left;
        assert(count == left) by (nonlinear_arith)
            requires
                count == el * edge + left,
                edge == 0,
        ;
        assert(adj(x) == d);
        assert(adj(y) <= d);
        assert(ring_deg(x, y) == d);
        assert(encode_at(x, y) == base + (d - 1) - y);
        assert(encode_at(x, y) == n);
    } else if edge == 1 {
        let x = -d + left;
        let y = -d - 1;
        assert(count == el + left) by (nonlinear_arith)
            requires
                count == el * edge + left,
                edge == 1,
        ;
        assert(adj(y) == d);
        assert(adj(x) <= d);
        assert(ring_deg(x, y) == d);
        assert(x != -d - 1);
        assert(encode_at(x, y) == base + el + (x + d));
        assert(encode_at(x, y) == n);
    } else if edge == 2 {
        let x = d;
        let y = -d + left;
        assert(count == 2 * el + left) by (nonlinear_arith)
            requires
                count == el * edge + left,
                edge == 2,
        ;
        assert(adj(x) == d);
        assert(adj(y) <= d);
        assert(ring_deg(x, y) == d);
        assert(x != -d - 1 && y != -d - 1);
        assert(encode_at(x, y) == base + 2 * el + (y + d));
        assert(encode_at(x, y) == n);
    } else {
        let x = d - 1 - left;
        let y = d;
        assert(count == 3 * el + left) by (nonlinear_arith)
            requires
                count == el * edge + left,
                edge == 3,
        ;
        assert(adj(y) == d);
        assert(adj(x) <= d);
        assert(ring_deg(x, y) == d);
        assert(!(x == -d - 1 && y < d) && y != -d - 1 && x != d);
        assert(encode_at(x, y) == base + 3 * el + (d - 1) - x);
        assert(encode_at(x, y) == n);
    }
}

/// The identifier of a coordinate lies inside that coordinate's ring.
pub proof fn lemma_encode_in_ring(x: int, y: int)
    ensures
        ring_base(ring_deg(x, y)) <= encode_at(x, y),
        encode_at(x, y) < ring_base(ring_deg(x, y) + 1),
        encode_at(x, y) >= 0,
        id_deg(encode_at(x, y)) == ring_deg(x, y),
{
    let d = ring_deg(x, y);
    let base = ring_base(d);
    let el = 2 * d + 1;
    assert(d >= 0);
    assert(4 * d * d >= 0) by (nonlinear_arith)
        requires
            d >= 0,
    ;
    assert(base >= 0);
    lemma_ring_width(d);
    assert(adj(x) <= d && adj(y) <= d);
    assert(-d - 1 <= x <= d && -d - 1 <= y <= d);
    lemma_id_deg_unique(encode_at(x, y), d);
}

/// Inverse round trip: encoding a coordinate and decoding the identifier
/// restores the coordinate.
pub proof fn lemma_inverse_round_trip(x: int, y: int)
    ensures
        decode_id(encode_at(x, y)) == (x, y),
{
    let d = ring_deg(x, y);
    let base = ring_base(d);
    let el = 2 * d + 1;
    let n = encode_at(x, y);
    lemma_encode_in_ring(x, y);
    assert(adj(x) <= d && adj(y) <= d);
    assert(-d - 1 <= x <= d && -d - 1 <= y <= d);
    assert(adj(x) == d || adj(y) == d);
    if x == -d - 1 && y < d {
        let left = (d - 1) - y;
        assert(0 <= left < el);
        lemma_fundamental_div_mod_converse(n - base, el, 0, left);
        assert(decode_in_ring(n, d) == (x, y));
    } else if y == -d - 1 {
        assert(x != -d - 1);
        let left = x + d;
        assert(0 <= left < el);
        lemma_fundamental_div_mod_converse(n - base, el, 1, left);
        assert(decode_in_ring(n, d) == (x, y));
    } else if x == d {
        let left = y + d;
        assert(0 <= left < el);
        lemma_fundamental_div_mod_converse(n - base, el, 2, left);
        assert(decode_in_ring(n, d) == (x, y));
    } else {
        assert(y == d) by {
            if x == -d - 1 {
                assert(y >= d);
                assert(adj(y) <= d);
            } else {
                assert(-d <= x <= d - 1);
                assert(adj(x) < d);
                assert(adj(y) == d);
                assert(y != -d - 1);
            }
        }
        assert(-d - 1 <= x <= d - 1);
        let left = (d - 1) - x;
        assert(0 <= left < el);
        lemma_fundamental_div_mod_converse(n - base, el, 3, left);
        assert(decode_in_ring(n, d) == (x, y));
    }
}

/// Ring cardinality: exactly `8d + 4` identifiers have ring degree `d`.
pub proof fn lemma_ring_cardinality(d: int)
    requires
        d >= 0,
    ensures
        Set::new(|n: int| n >= 0 && id_deg(n) == d) =~= set_int_range(
            ring_base(d),
            ring_base(d + 1),
        ),
        Set::new(|n: int| n >= 0 && id_deg(n) == d).finite(),
        Set::new(|n: int| n >= 0 && id_deg(n) == d).len() == 8 * d + 4,
{
    let ring = Set::new(|n: int| n >= 0 && id_deg(n) == d);
    let range = set_int_range(ring_base(d), ring_base(d + 1));
    assert(ring_base(d) >= 0) by (nonlinear_arith)
        requires
            d >= 0,
    ;
    lemma_ring_width(d);
    assert forall|n: int| ring.contains(n) implies range.contains(n) by {
        lemma_id_deg_bounds(n);
    }
    assert forall|n: int| range.contains(n) implies ring.contains(n) by {
        lemma_id_deg_unique(n, d);
    }
    assert(ring =~= range);
    lemma_int_range(ring_base(d), ring_base(d + 1));
}

/// A coordinate within the machine ring-degree bound has an identifier that
/// fits in `u128`.
pub proof fn lemma_encode_fits(x: int, y: int)
    requires
        ring_deg(x, y) <= MAX_DEGREE as int,
    ensures
        0 <= encode_at(x, y) <= u128::MAX as int,
{
    lemma_encode_in_ring(x, y);
    let d = ring_deg(x, y);
    assert(4 * (d + 1) * (d + 1) <= u128::MAX as int + 1) by (nonlinear_arith)
        requires
            0 <= d <= 0x7fff_ffff_ffff_ffff,
    ;
}

/// A coordinate beyond the machine ring-degree bound has an identifier beyond
/// the machine identifier range.
pub proof fn lemma_encode_out_of_range(x: int, y: int)
    requires
        ring_deg(x, y) > MAX_DEGREE as int,
    ensures
        encode_at(x, y) > u128::MAX as int,
{
    lemma_encode_in_ring(x, y);
    let d = ring_deg(x, y);
    assert(4 * d * d > u128::MAX as int) by (nonlinear_arith)
        requires
            d >= 0x8000_0000_0000_0000,
    ;
}

/// Ring degree contribution of a single coordinate axis.
pub fn coord_degree(x: i128) -> (deg: i128)
    ensures
        deg == adj(x as int),
{
    if x >= 0 {
        x
    } else {
        -(x + 1)
    }
}

/// Numeric half of `encode`: the identifier of coordinate `(x, y)`.
/// The ring degree must stay below `MAX_DEGREE` so the identifier fits
/// in a `u128`.
pub fn encode_num(x: i128, y: i128) -> (n: u128)
    requires
        ring_deg(x as int, y as int) <= MAX_DEGREE as int,
    ensures
        n as int == encode_at(x as int, y as int),
        id_deg(n as int) == ring_deg(x as int, y as int),
{
    let dx = coord_degree(x);
    let dy = coord_degree(y);
    let d: i128 = if dx >= dy {
        dx
    } else {
        dy
    };
    proof {
        assert(d as int == ring_deg(x as int, y as int));
        assert(-d - 1 <= x <= d && -d - 1 <= y <= d);
        assert(4 * (d as int) * (d as int) + 4 * (2 * (d as int) + 1) <= u128::MAX as int + 1)
            by (nonlinear_arith)
            requires
                0 <= d as int <= 0x7fff_ffff_ffff_ffff,
        ;
        lemma_encode_in_ring(x as int, y as int);
        lemma_ring_width(d as int);
    }
    let du = d as u128;
    let base: u128 = 4 * du * du;
    let edge_len: u128 = 2 * du + 1;
    if x == -d - 1 && y < d {
        base + ((d - 1 - y) as u128)
    } else if y == -d - 1 {
        base + edge_len + ((x + d) as u128)
    } else if x == d {
        base + 2 * edge_len + ((y + d) as u128)
    } else {
        base + 3 * edge_len + ((d - 1 - x) as u128)
    }
}

/// Numeric half of `decode`: the coordinate of identifier `n`.
pub fn decode_num(n: u128) -> (r: (i128, i128))
    ensures
        r.0 as int == decode_id(n as int).0,
        r.1 as int == decode_id(n as int).1,
        ring_deg(r.0 as int, r.1 as int) == id_deg(n as int),
        encode_at(r.0 as int, r.1 as int) == n as int,
        ring_deg(r.0 as int, r.1 as int) <= MAX_DEGREE as int,
{
    let s = isqrt_u128(n);
    let d = s / 2;
    proof {
        lemma_id_deg_bounds(n as int);
        lemma_ring_width(d as int);
        lemma_bijection_round_trip(n as int);
        assert(d <= 0x7fff_ffff_ffff_ffff) by {
            assert(s <= 0xffff_ffff_ffff_ffff) by {
                if s > 0xffff_ffff_ffff_ffff {
                    assert((s as int) * (s as int) > u128::MAX as int) by (nonlinear_arith)
                        requires
                            s as int >= 0x1_0000_0000_0000_0000,
                    ;
                    lemma_isqrt_bounds(n as int);
                }
            }
        }
    }
    let base: u128 = 4 * d * d;
    let edge_len: u128 = 2 * d + 1;
    let count = n - base;
    let edge = count / edge_len;
    let left = count % edge_len;
    let dd = d as i128;
    let li = left as i128;
    if edge == 0 {
        (-dd - 1, dd - 1 - li)
    } else if edge == 1 {
        (-dd + li, -dd - 1)
    } else if edge == 2 {
        (dd, -dd + li)
    } else {
        (dd - 1 - li, dd)
    }
}

/// Integer square root of a `u128`.
pub fn isqrt_u128(n: u128) -> (r: u128)
    ensures
        r == isqrt(n as int),
{
    let mut lo: u128 = 0;
    let mut hi: u128 = 0x1_0000_0000_0000_0000;
    proof {
        assert((n as int) < (hi as int) * (hi as int)) by (nonlinear_arith)
            requires
                n as int <= 0xffff_ffff_ffff_ffff_ffff_ffff_ffff_ffff,
                hi == 0x1_0000_0000_0000_0000,
        ;
    }
    while lo + 1 < hi
        invariant
            lo < hi <= 0x1_0000_0000_0000_0000,
            (lo as int) * (lo as int) <= n as int,
            (n as int) < (hi as int) * (hi as int),
        decreases hi - lo,
    {
        let mid = lo + (hi - lo) / 2;
        proof {
            assert(lo < mid < hi);
            assert((mid as int) * (mid as int) <= u128::MAX as int) by (nonlinear_arith)
                requires
                    0 <= mid as int <= 0xffff_ffff_ffff_ffff,
            ;
        }
        if mid * mid <= n {
            lo = mid;
        } else {
            hi = mid;
        }
    }
    proof {
        lemma_isqrt_unique(n as int, lo as int);
    }
    lo
}

} // verus!
