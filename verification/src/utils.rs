use vstd::prelude::*;

verus! {

use vstd::arithmetic::div_mod::lemma_fundamental_div_mod_converse;
use crate::TileError;
use crate::codec::MAX_DEGREE;
use crate::codec::adj;
use crate::codec::decode_id;
use crate::codec::decode_num;
use crate::codec::encode_at;
use crate::codec::encode_num;
use crate::codec::ring_deg;
use crate::text::dec_str;
use crate::text::dec_val;
use crate::text::is_canon_dec;
use crate::text::parse_token_id;
use crate::text::token_id_string;

/// Identifier text is canonical and its value fits the machine identifier
/// range.
pub open spec fn valid_token_text(s: Seq<char>) -> bool {
    is_canon_dec(s) && dec_val(s) <= u128::MAX as int
}

/// The identifier of the `k`-th tile of a rectangle anchored at `(x0, y0)`
/// with `h` rows per column, columns outer, rows inner.
pub open spec fn cell_id(x0: int, y0: int, h: int, k: int) -> int {
    encode_at(x0 + k / h, y0 + k % h)
}

/// The identifiers of the `w` by `h` rectangle of tiles whose lowest
/// coordinate is `(x0, y0)`, columns outer, rows inner.
pub open spec fn area_ids(x0: int, y0: int, w: int, h: int) -> Seq<int> {
    Seq::new((w * h) as nat, |k: int| cell_id(x0, y0, h, k))
}

/// Every tile of the rectangle stays within the machine ring-degree bound.
pub open spec fn area_fits(x0: int, y0: int, w: int, h: int) -> bool {
    forall|x: int, y: int|
        x0 <= x < x0 + w && y0 <= y < y0 + h ==> #[trigger] ring_deg(x, y) <= MAX_DEGREE as int
}

/// Retrieves the coordinate of an identifier given as decimal text.
/// Malformed text (non-numeric, signed, leading zeros, or a value beyond the
/// machine identifier range) is refused.
pub fn get_coord(token: String) -> (r: Result<(i128, i128), TileError>)
    ensures
        r is Ok <==> valid_token_text(token@),
        r matches Ok(c) ==> c.0 as int == decode_id(dec_val(token@)).0 && c.1 as int == decode_id(
            dec_val(token@),
        ).1,
        r is Err ==> r == Err::<(i128, i128), TileError>(TileError::MalformedIdentifier),
{
    match parse_token_id(token.as_str()) {
        Some(n) => Ok(decode_num(n)),
        None => Err(TileError::MalformedIdentifier),
    }
}

/// The identifier of the tile at coordinate `(x, y)`, as decimal text.
pub fn get_token_id(x: i128, y: i128) -> (token: String)
    requires
        ring_deg(x as int, y as int) <= MAX_DEGREE as int,
    ensures
        token@ == dec_str(encode_at(x as int, y as int)),
        valid_token_text(token@),
        dec_val(token@) == encode_at(x as int, y as int),
{
    token_id_string(encode_num(x, y))
}

/// Unwraps a registry lookup that the caller has shown to succeed.
pub fn expect_token_found<T>(option: Option<T>) -> (t: T)
    requires
        option is Some,
    ensures
        option == Some(t),
{
    option.unwrap()
}

/// On an interval, the adjusted absolute value peaks at an endpoint.
proof fn lemma_adj_interval(a: int, b: int, x: int)
    requires
        a <= x <= b,
    ensures
        adj(x) <= adj(a) || adj(x) <= adj(b),
{
}

/// Decides whether the whole rectangle anchored at `(x0, y0)` stays within
/// the machine ring-degree bound.
pub fn area_in_range(x0: i128, y0: i128, width: u8, height: u8) -> (b: bool)
    requires
        ring_deg(x0 as int, y0 as int) <= MAX_DEGREE as int,
        width > 0,
        height > 0,
    ensures
        b == area_fits(x0 as int, y0 as int, width as int, height as int),
{
    proof {
        assert(adj(x0 as int) <= MAX_DEGREE as int && adj(y0 as int) <= MAX_DEGREE as int);
    }
    let x1 = x0 + (width - 1) as i128;
    let y1 = y0 + (height - 1) as i128;
    let dx0 = crate::codec::coord_degree(x0);
    let dx1 = crate::codec::coord_degree(x1);
    let dy0 = crate::codec::coord_degree(y0);
    let dy1 = crate::codec::coord_degree(y1);
    let fits = dx0 <= MAX_DEGREE && dx1 <= MAX_DEGREE && dy0 <= MAX_DEGREE && dy1 <= MAX_DEGREE;
    proof {
        if fits {
            assert forall|x: int, y: int|
                x0 as int <= x < x0 as int + width as int && y0 as int <= y < y0 as int
                    + height as int implies #[trigger] ring_deg(x, y) <= MAX_DEGREE as int by {
                lemma_adj_interval(x0 as int, x1 as int, x);
                lemma_adj_interval(y0 as int, y1 as int, y);
            }
        } else {
            assert(!area_fits(x0 as int, y0 as int, width as int, height as int)) by {
                if dx1 > MAX_DEGREE || dy1 > MAX_DEGREE {
                    assert(ring_deg(x0 as int + (width - 1), y0 as int + (height - 1))
                        > MAX_DEGREE as int);
                }
            }
        }
    }
    fits
}

/// Enumerates the identifiers of the `width` by `height` rectangle whose
/// lowest-coordinate tile is the anchor, columns outer, rows inner.
/// The rectangle must stay within the machine ring-degree bound; malformed
/// anchor text is refused.
pub fn iterate_token_area(token_id: String, width: u8, height: u8) -> (r: Result<
    Vec<String>,
    TileError,
>)
    requires
        valid_token_text(token_id@) ==> area_fits(
            decode_id(dec_val(token_id@)).0,
            decode_id(dec_val(token_id@)).1,
            width as int,
            height as int,
        ),
    ensures
        r is Ok <==> valid_token_text(token_id@),
        r is Err ==> r == Err::<Vec<String>, TileError>(TileError::MalformedIdentifier),
        r matches Ok(v) ==> ({
            let ids = area_ids(
                decode_id(dec_val(token_id@)).0,
                decode_id(dec_val(token_id@)).1,
                width as int,
                height as int,
            );
            v@.len() == ids.len() && (forall|k: int|
                0 <= k < ids.len() ==> (#[trigger] v@[k])@ == dec_str(ids[k]))
        }),
{
    let n = match parse_token_id(token_id.as_str()) {
        Some(n) => n,
        None => {
            return Err(TileError::MalformedIdentifier);
        },
    };
    let (x0, y0) = decode_num(n);
    let ghost gx = x0 as int;
    let ghost gy = y0 as int;
    let ghost ids = area_ids(gx, gy, width as int, height as int);
    proof {
        assert(adj(gx) <= MAX_DEGREE as int && adj(gy) <= MAX_DEGREE as int);
    }
    let mut out: Vec<String> = Vec::new();
    let mut i: u8 = 0;
    while i < width
        invariant
            i <= width,
            valid_token_text(token_id@),
            gx == decode_id(dec_val(token_id@)).0,
            gy == decode_id(dec_val(token_id@)).1,
            -0x8000_0000_0000_0000 <= gx <= 0x7fff_ffff_ffff_ffff,
            -0x8000_0000_0000_0000 <= gy <= 0x7fff_ffff_ffff_ffff,
            x0 as int == gx,
            y0 as int == gy,
            area_fits(gx, gy, width as int, height as int),
            ids == area_ids(gx, gy, width as int, height as int),
            out@.len() == i as int * height as int,
            forall|k: int| 0 <= k < out@.len() ==> (#[trigger] out@[k])@ == dec_str(ids[k]),
        decreases width - i,
    {
        let mut j: u8 = 0;
        while j < height
            invariant
                i < width,
                j <= height,
                valid_token_text(token_id@),
                gx == decode_id(dec_val(token_id@)).0,
                gy == decode_id(dec_val(token_id@)).1,
                -0x8000_0000_0000_0000 <= gx <= 0x7fff_ffff_ffff_ffff,
                -0x8000_0000_0000_0000 <= gy <= 0x7fff_ffff_ffff_ffff,
                x0 as int == gx,
                y0 as int == gy,
                area_fits(gx, gy, width as int, height as int),
                ids == area_ids(gx, gy, width as int, height as int),
                out@.len() == i as int * height as int + j as int,
                forall|k: int| 0 <= k < out@.len() ==> (#[trigger] out@[k])@ == dec_str(ids[k]),
            decreases height - j,
        {
            let x = x0 + i as i128;
            let y = y0 + j as i128;
            proof {
                assert(ring_deg(x as int, y as int) <= MAX_DEGREE as int);
                assert((i as int) * (height as int) + (j as int) < (width as int) * (
                height as int)) by (nonlinear_arith)
                    requires
                        0 <= (i as int) && (i as int) < (width as int),
                        0 <= (j as int) && (j as int) < (height as int),
                ;
                lemma_fundamental_div_mod_converse(
                    i as int * height as int + j as int,
                    height as int,
                    i as int,
                    j as int,
                );
                assert(ids[i as int * height as int + j as int] == encode_at(x as int, y as int));
            }
            let token = get_token_id(x, y);
            out.push(token);
            j = j + 1;
        }
        i = i + 1;
        proof {
            assert(i as int * height as int == (i - 1) as int * height as int + height as int)
                by (nonlinear_arith);
        }
    }
    proof {
        assert(out@.len() == width as int * height as int) by (nonlinear_arith)
            requires
                out@.len() == i as int * height as int,
                i == width,
        ;
    }
    Ok(out)
}

} // verus!
