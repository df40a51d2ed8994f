use vstd::prelude::*;

verus! {

use vstd::std_specs::vec::vec_index_mut;
use vstd::arithmetic::div_mod::lemma_fundamental_div_mod;
use vstd::arithmetic::div_mod::lemma_fundamental_div_mod_converse;
use vstd::arithmetic::div_mod::lemma_mod_bound;
use crate::TileError;
use crate::codec::MAX_DEGREE;
use crate::codec::adj;
use crate::codec::coord_degree;
use crate::codec::decode_id;
use crate::codec::decode_num;
use crate::codec::encode_num;
use crate::codec::encode_at;
use crate::codec::lemma_encode_fits;
use crate::codec::lemma_encode_out_of_range;
use crate::codec::lemma_inverse_round_trip;
use crate::codec::ring_deg;
use crate::text::dec_str;
use crate::text::dec_val;
use crate::text::token_id_string;
use crate::utils::area_fits;
use crate::utils::expect_token_found;
use crate::utils::cell_id;
use crate::utils::valid_token_text;
use crate::text::parse_token_id;

/// Keys of an association list are pairwise distinct.
pub open spec fn keys_unique<V>(s: Seq<(u128, V)>) -> bool {
    forall|i: int, j: int| 0 <= i < j < s.len() ==> (#[trigger] s[i]).0 != (#[trigger] s[j]).0
}

/// The association list holds the key.
pub open spec fn map_has<V>(s: Seq<(u128, V)>, k: u128) -> bool {
    exists|i: int| 0 <= i < s.len() && (#[trigger] s[i]).0 == k
}

/// The value the association list holds for a key it has.
pub open spec fn map_at<V>(s: Seq<(u128, V)>, k: u128) -> V {
    s[choose|i: int| 0 <= i < s.len() && (#[trigger] s[i]).0 == k].1
}

/// The association list as a map.
pub open spec fn assoc_map<V>(s: Seq<(u128, V)>) -> Map<u128, V> {
    Map::new(|k: u128| map_has(s, k), |k: u128| map_at(s, k))
}

/// With distinct keys, any entry holding a key determines the map's value.
pub proof fn lemma_map_at_entry<V>(s: Seq<(u128, V)>, k: u128, i: int)
    requires
        keys_unique(s),
        0 <= i < s.len(),
        s[i].0 == k,
    ensures
        map_has(s, k),
        map_at(s, k) == s[i].1,
{
    assert(map_has(s, k));
    let j = choose|j: int| 0 <= j < s.len() && (#[trigger] s[j]).0 == k;
    assert(s[j].0 == k);
    if i != j {
        assert(s[i].0 != s[j].0);
    }
}

/// Looks a key up in an association list.
fn assoc_get<'a, V>(s: &'a Vec<(u128, V)>, key: u128) -> (r: Option<&'a V>)
    requires
        keys_unique(s@),
    ensures
        r is Some <==> map_has(s@, key),
        r matches Some(v) ==> *v == map_at(s@, key),
{
    let mut i: usize = 0;
    while i < s.len()
        invariant
            keys_unique(s@),
            0 <= i <= s@.len(),
            forall|j: int| 0 <= j < i ==> (#[trigger] s@[j]).0 != key,
        decreases s@.len() - i,
    {
        if s[i].0 == key {
            proof {
                lemma_map_at_entry(s@, key, i as int);
            }
            return Some(&s[i].1);
        }
        i = i + 1;
    }
    None
}

/// Binds a key to a value in an association list, overwriting an existing
/// binding and keeping every other entry in place.
fn assoc_set<V>(s: &mut Vec<(u128, V)>, key: u128, value: V)
    requires
        keys_unique(old(s)@),
    ensures
        keys_unique(final(s)@),
        assoc_map(final(s)@) == assoc_map(old(s)@).insert(key, value),
{
    let ghost s0 = old(s)@;
    let mut i: usize = 0;
    while i < s.len()
        invariant
            s@ == s0,
            s0 == old(s)@,
            keys_unique(s0),
            0 <= i <= s0.len(),
            forall|j: int| 0 <= j < i ==> (#[trigger] s0[j]).0 != key,
        decreases s0.len() - i,
    {
        if s[i].0 == key {
            let slot = vec_index_mut(s, i);
            *slot = (key, value);
            proof {
                let s1 = s@;
                assert(s1 == s0.update(i as int, (key, value)));
                assert(keys_unique(s1)) by {
                    assert(forall|p: int|
                        0 <= p < s1.len() && p != i ==> (#[trigger] s1[p]) == s0[p]);
                    assert(s1[i as int].0 == s0[i as int].0);
                }
                lemma_map_at_entry(s1, key, i as int);
                assert forall|k: u128| true implies #[trigger] map_has(s1, k) == map_has(s0, k) by {
                    if map_has(s0, k) {
                        let j = choose|j: int| 0 <= j < s0.len() && (#[trigger] s0[j]).0 == k;
                        assert(s1[j].0 == k);
                    }
                    if map_has(s1, k) {
                        let j = choose|j: int| 0 <= j < s1.len() && (#[trigger] s1[j]).0 == k;
                        assert(s0[j].0 == k);
                    }
                }
                assert forall|k: u128| map_has(s1, k) && k != key implies map_at(s1, k) == map_at(
                    s0,
                    k,
                ) by {
                    let j = choose|j: int| 0 <= j < s1.len() && (#[trigger] s1[j]).0 == k;
                    assert(s0[j].0 == k);
                    lemma_map_at_entry(s0, k, j);
                    lemma_map_at_entry(s1, k, j);
                }
                lemma_map_at_entry(s0, key, i as int);
                assert(assoc_map(s1) =~= assoc_map(s0).insert(key, value));
            }
            return ;
        }
        i = i + 1;
    }
    s.push((key, value));
    proof {
        let s1 = s@;
        assert(s1 == s0.push((key, value)));
        assert(!map_has(s0, key));
        assert(keys_unique(s1)) by {
            assert(forall|p: int| 0 <= p < s0.len() ==> (#[trigger] s1[p]) == s0[p]);
            assert(s1[s0.len() as int].0 == key);
        }
        lemma_map_at_entry(s1, key, s0.len() as int);
        assert forall|k: u128| k != key implies #[trigger] map_has(s1, k) == map_has(s0, k) by {
            if map_has(s0, k) {
                let j = choose|j: int| 0 <= j < s0.len() && (#[trigger] s0[j]).0 == k;
                assert(s1[j].0 == k);
            }
            if map_has(s1, k) {
                let j = choose|j: int| 0 <= j < s1.len() && (#[trigger] s1[j]).0 == k;
                assert(j < s0.len());
                assert(s0[j].0 == k);
            }
        }
        assert forall|k: u128| map_has(s1, k) && k != key implies map_at(s1, k) == map_at(
            s0,
            k,
        ) by {
            let j = choose|j: int| 0 <= j < s1.len() && (#[trigger] s1[j]).0 == k;
            assert(j < s0.len());
            assert(s0[j].0 == k);
            lemma_map_at_entry(s0, k, j);
            lemma_map_at_entry(s1, k, j);
        }
        assert(assoc_map(s1) =~= assoc_map(s0).insert(key, value));
    }
}

/// A sequence with one element appended holds exactly the old elements and
/// the new one.
proof fn lemma_contains_push<A>(s: Seq<A>, e: A, x: A)
    ensures
        s.push(e).contains(x) <==> (s.contains(x) || x == e),
{
    if s.push(e).contains(x) {
        let i = choose|i: int| 0 <= i < s.push(e).len() && s.push(e)[i] == x;
        if i < s.len() {
            assert(s[i] == x);
        }
    }
    if s.contains(x) {
        let i = choose|i: int| 0 <= i < s.len() && s[i] == x;
        assert(s.push(e)[i] == x);
    }
    assert(s.push(e)[s.len() as int] == e);
}

/// A tile that no other tile's merge subsumes, with its effective extents.
#[derive(Debug, PartialEq, Eq)]
pub struct UncoveredToken {
    pub token_id: String,
    pub width: u8,
    pub height: u8,
}

/// The tile contract state: the modelled token registry (identifier and
/// owner, in mint order), the merge records, and the coverage links.
pub struct Contract {
    pub owner_by_id: Vec<(u128, String)>,
    pub token_merge: Vec<(u128, (u8, u8))>,
    pub token_merged: Vec<(u128, u128)>,
}

/// The member scan of a merge: walks the cells of the rectangle from cell
/// `k` on, skips the anchor itself, and reports the first member that is
/// missing (`NotFound`) or owned by someone else (`PermissionDenied`).
pub open spec fn merge_check_from(
    tokens: Seq<(u128, String)>,
    owner: Seq<char>,
    x0: int,
    y0: int,
    w: int,
    h: int,
    anchor: u128,
    k: int,
) -> Result<(), TileError>
    decreases w * h - k,
{
    if k < 0 || k >= w * h {
        Result::<(), TileError>::Ok(())
    } else {
        let id = cell_id(x0, y0, h, k);
        if id == anchor as int {
            merge_check_from(tokens, owner, x0, y0, w, h, anchor, k + 1)
        } else if !(0 <= id && id <= u128::MAX as int && map_has(tokens, id as u128)) {
            Result::<(), TileError>::Err(TileError::NotFound)
        } else if map_at(tokens, id as u128)@ != owner {
            Result::<(), TileError>::Err(TileError::PermissionDenied)
        } else {
            merge_check_from(tokens, owner, x0, y0, w, h, anchor, k + 1)
        }
    }
}

/// Some cell among the first `t` of the rectangle has this identifier.
pub open spec fn covers_upto(x0: int, y0: int, h: int, t: int, id: int) -> bool {
    exists|k: int| 0 <= k < t && #[trigger] cell_id(x0, y0, h, k) == id
}

/// Some cell of the `w` by `h` rectangle has this identifier.
pub open spec fn covers(x0: int, y0: int, w: int, h: int, id: int) -> bool {
    covers_upto(x0, y0, h, w * h, id)
}

proof fn lemma_covers_upto_step(x0: int, y0: int, h: int, t: int, id: int)
    requires
        t >= 0,
    ensures
        covers_upto(x0, y0, h, t + 1, id) <==> (covers_upto(x0, y0, h, t, id) || cell_id(
            x0,
            y0,
            h,
            t,
        ) == id),
{
    if covers_upto(x0, y0, h, t + 1, id) {
        let k = choose|k: int| 0 <= k < t + 1 && #[trigger] cell_id(x0, y0, h, k) == id;
        if k < t {
            assert(covers_upto(x0, y0, h, t, id));
        }
    }
    if covers_upto(x0, y0, h, t, id) {
        let k = choose|k: int| 0 <= k < t && #[trigger] cell_id(x0, y0, h, k) == id;
        assert(0 <= k < t + 1 && cell_id(x0, y0, h, k) == id);
    }
    if cell_id(x0, y0, h, t) == id {
        assert(0 <= t < t + 1 && cell_id(x0, y0, h, t) == id);
    }
}

/// The coverage links after a merge: every member of the rectangle other
/// than the anchor now links to the anchor; every other link is unchanged.
pub open spec fn merged_after(
    m: Map<u128, u128>,
    x0: int,
    y0: int,
    w: int,
    h: int,
    anchor: u128,
) -> Map<u128, u128> {
    Map::new(
        |k: u128| m.dom().contains(k) || (covers(x0, y0, w, h, k as int) && k != anchor),
        |k: u128|
            if covers(x0, y0, w, h, k as int) && k != anchor {
                anchor
            } else {
                m[k]
            },
    )
}

/// The coverage links part-way through writing: the first `t` collected
/// members link to the anchor.
spec fn linked_upto(m: Map<u128, u128>, subs: Seq<u128>, t: int, anchor: u128) -> Map<u128, u128> {
    Map::new(
        |k: u128| m.dom().contains(k) || subs.take(t).contains(k),
        |k: u128|
            if subs.take(t).contains(k) {
                anchor
            } else {
                m[k]
            },
    )
}

impl Contract {
    /// Well-formed state: each store binds a key at most once.
    pub open spec fn wf(self) -> bool {
        &&& keys_unique(self.owner_by_id@)
        &&& keys_unique(self.token_merge@)
        &&& keys_unique(self.token_merged@)
    }

    /// The merge records as a map from anchor identifier to extents.
    pub open spec fn merge_map(self) -> Map<u128, (u8, u8)> {
        assoc_map(self.token_merge@)
    }

    /// The coverage links as a map from member identifier to anchor.
    pub open spec fn merged_map(self) -> Map<u128, u128> {
        assoc_map(self.token_merged@)
    }

    /// What a merge request is answered, checked before any write: malformed
    /// anchor text, then the anchor's existence, then the actor's ownership
    /// of the anchor, then every member of the rectangle in cell order.
    pub open spec fn merge_check(
        self,
        anchor_text: Seq<char>,
        w: int,
        h: int,
        actor: Seq<char>,
    ) -> Result<(), TileError> {
        if !valid_token_text(anchor_text) {
            Result::<(), TileError>::Err(TileError::MalformedIdentifier)
        } else {
            let anchor = dec_val(anchor_text) as u128;
            if !map_has(self.owner_by_id@, anchor) {
                Result::<(), TileError>::Err(TileError::NotFound)
            } else if map_at(self.owner_by_id@, anchor)@ != actor {
                Result::<(), TileError>::Err(TileError::PermissionDenied)
            } else {
                merge_check_from(
                    self.owner_by_id@,
                    actor,
                    decode_id(anchor as int).0,
                    decode_id(anchor as int).1,
                    w,
                    h,
                    anchor,
                    0,
                )
            }
        }
    }

    /// An empty contract: no tokens, no merge records, no coverage links.
    pub fn new() -> (c: Contract)
        ensures
            c.wf(),
            c.owner_by_id@ == Seq::<(u128, String)>::empty(),
            c.token_merge@ == Seq::<(u128, (u8, u8))>::empty(),
            c.token_merged@ == Seq::<(u128, u128)>::empty(),
    {
        Contract { owner_by_id: Vec::new(), token_merge: Vec::new(), token_merged: Vec::new() }
    }

    /// Fuses the `width` by `height` rectangle anchored at `token_id` into
    /// one logical unit on behalf of `actor`. All-or-nothing: the anchor and
    /// every member are validated before any write, and a failed call leaves
    /// the state untouched.
    pub fn nft_merge(&mut self, token_id: String, width: u8, height: u8, actor: String) -> (r:
        Result<(), TileError>)
        requires
            old(self).wf(),
        ensures
            final(self).wf(),
            r == old(self).merge_check(token_id@, width as int, height as int, actor@),
            r is Err ==> *final(self) == *old(self),
            r is Ok ==> ({
                let anchor = dec_val(token_id@) as u128;
                let x0 = decode_id(anchor as int).0;
                let y0 = decode_id(anchor as int).1;
                &&& final(self).owner_by_id@ == old(self).owner_by_id@
                &&& final(self).merge_map() == old(self).merge_map().insert(
                    anchor,
                    (width, height),
                )
                &&& final(self).merged_map() == merged_after(
                    old(self).merged_map(),
                    x0,
                    y0,
                    width as int,
                    height as int,
                    anchor,
                )
            }),
    {
        let anchor = match parse_token_id(token_id.as_str()) {
            Some(n) => n,
            None => {
                return Err(TileError::MalformedIdentifier);
            },
        };
        let owner = match assoc_get(&self.owner_by_id, anchor) {
            Some(o) => o.clone(),
            None => {
                return Err(TileError::NotFound);
            },
        };
        if !(owner == actor) {
            return Err(TileError::PermissionDenied);
        }
        let (x0, y0) = decode_num(anchor);
        let ghost gx = x0 as int;
        let ghost gy = y0 as int;
        let ghost toks = self.owner_by_id@;
        proof {
            assert(adj(gx) <= MAX_DEGREE as int && adj(gy) <= MAX_DEGREE as int);
        }
        let mut subs: Vec<u128> = Vec::new();
        let mut i: u8 = 0;
        while i < width
            invariant
                *self == *old(self),
                old(self).wf(),
                toks == self.owner_by_id@,
                valid_token_text(token_id@),
                anchor as int == dec_val(token_id@),
                map_has(toks, anchor),
                owner@ == map_at(toks, anchor)@,
                owner@ == actor@,
                gx == decode_id(anchor as int).0,
                gy == decode_id(anchor as int).1,
                x0 as int == gx,
                y0 as int == gy,
                -0x8000_0000_0000_0000 <= gx <= 0x7fff_ffff_ffff_ffff,
                -0x8000_0000_0000_0000 <= gy <= 0x7fff_ffff_ffff_ffff,
                0 <= i <= width,
                merge_check_from(toks, actor@, gx, gy, width as int, height as int, anchor, 0)
                    == merge_check_from(
                    toks,
                    actor@,
                    gx,
                    gy,
                    width as int,
                    height as int,
                    anchor,
                    (i as int) * (height as int),
                ),
                forall|q: u128|
                    subs@.contains(q) <==> (covers_upto(
                        gx,
                        gy,
                        height as int,
                        (i as int) * (height as int),
                        q as int,
                    ) && q != anchor),
            decreases width - i,
        {
            let mut j: u8 = 0;
            while j < height
                invariant
                    *self == *old(self),
                    old(self).wf(),
                    toks == self.owner_by_id@,
                    valid_token_text(token_id@),
                    anchor as int == dec_val(token_id@),
                    map_has(toks, anchor),
                    owner@ == map_at(toks, anchor)@,
                    owner@ == actor@,
                    gx == decode_id(anchor as int).0,
                    gy == decode_id(anchor as int).1,
                    x0 as int == gx,
                    y0 as int == gy,
                    -0x8000_0000_0000_0000 <= gx <= 0x7fff_ffff_ffff_ffff,
                    -0x8000_0000_0000_0000 <= gy <= 0x7fff_ffff_ffff_ffff,
                    0 <= i < width,
                    0 <= j <= height,
                    merge_check_from(toks, actor@, gx, gy, width as int, height as int, anchor, 0)
                        == merge_check_from(
                        toks,
                        actor@,
                        gx,
                        gy,
                        width as int,
                        height as int,
                        anchor,
                        (i as int) * (height as int) + (j as int),
                    ),
                    forall|q: u128|
                        subs@.contains(q) <==> (covers_upto(
                            gx,
                            gy,
                            height as int,
                            (i as int) * (height as int) + (j as int),
                            q as int,
                        ) && q != anchor),
                decreases height - j,
            {
                let ghost kk = (i as int) * (height as int) + (j as int);
                let x = x0 + i as i128;
                let y = y0 + j as i128;
                proof {
                    assert(kk < (width as int) * (height as int)) by (nonlinear_arith)
                        requires
                            0 <= (i as int) && (i as int) < (width as int),
                            0 <= (j as int) && (j as int) < (height as int),
                            kk == (i as int) * (height as int) + (j as int),
                    ;
                    lemma_fundamental_div_mod_converse(
                        kk,
                        height as int,
                        i as int,
                        j as int,
                    );
                    assert(cell_id(gx, gy, height as int, kk) == encode_at(x as int, y as int));
                }
                let dx = coord_degree(x);
                let dy = coord_degree(y);
                let dc = if dx >= dy {
                    dx
                } else {
                    dy
                };
                if dc > MAX_DEGREE {
                    proof {
                        lemma_encode_out_of_range(x as int, y as int);
                    }
                    return Err(TileError::NotFound);
                }
                let id = encode_num(x, y);
                if id != anchor {
                    let sub_owner = match assoc_get(&self.owner_by_id, id) {
                        Some(o) => o,
                        None => {
                            return Err(TileError::NotFound);
                        },
                    };
                    if !(*sub_owner == owner) {
                        return Err(TileError::PermissionDenied);
                    }
                    let ghost subs0 = subs@;
                    subs.push(id);
                    proof {
                        assert forall|q: u128|
                            subs@.contains(q) <==> (covers_upto(
                                gx,
                                gy,
                                height as int,
                                kk + 1,
                                q as int,
                            ) && q != anchor) by {
                            lemma_contains_push(subs0, id, q);
                            lemma_covers_upto_step(gx, gy, height as int, kk, q as int);
                        }
                    }
                } else {
                    proof {
                        assert forall|q: u128|
                            subs@.contains(q) <==> (covers_upto(
                                gx,
                                gy,
                                height as int,
                                kk + 1,
                                q as int,
                            ) && q != anchor) by {
                            lemma_covers_upto_step(gx, gy, height as int, kk, q as int);
                        }
                    }
                }
                j = j + 1;
            }
            i = i + 1;
            proof {
                assert((i as int) * (height as int) == ((i as int) - 1) * (height as int) + (
                height as int)) by (nonlinear_arith);
            }
        }
        proof {
            assert((i as int) * (height as int) == (width as int) * (height as int));
            assert(merge_check_from(
                toks,
                actor@,
                gx,
                gy,
                width as int,
                height as int,
                anchor,
                (width as int) * (height as int),
            ) is Ok);
        }
        let ghost m0 = assoc_map(old(self).token_merged@);
        assoc_set(&mut self.token_merge, anchor, (width, height));
        let mut t: usize = 0;
        proof {
            assert(subs@.take(0) =~= Seq::<u128>::empty());
            assert(assoc_map(self.token_merged@) =~= linked_upto(m0, subs@, 0, anchor));
        }
        while t < subs.len()
            invariant
                self.owner_by_id@ == old(self).owner_by_id@,
                old(self).wf(),
                keys_unique(self.owner_by_id@),
                keys_unique(self.token_merge@),
                keys_unique(self.token_merged@),
                m0 == assoc_map(old(self).token_merged@),
                assoc_map(self.token_merge@) == assoc_map(old(self).token_merge@).insert(
                    anchor,
                    (width, height),
                ),
                0 <= t <= subs@.len(),
                assoc_map(self.token_merged@) == linked_upto(m0, subs@, t as int, anchor),
            decreases subs@.len() - t,
        {
            let id = subs[t];
            let ghost prev = assoc_map(self.token_merged@);
            assoc_set(&mut self.token_merged, id, anchor);
            proof {
                assert(subs@.take(t as int + 1) =~= subs@.take(t as int).push(id));
                assert forall|q: u128|
                    subs@.take(t as int + 1).contains(q) <==> (subs@.take(t as int).contains(q)
                        || q == id) by {
                    lemma_contains_push(subs@.take(t as int), id, q);
                }
                let cur = prev.insert(id, anchor);
                let nxt = linked_upto(m0, subs@, t as int + 1, anchor);
                assert(subs@.take(t as int + 1).contains(id)) by {
                    lemma_contains_push(subs@.take(t as int), id, id);
                }
                assert forall|q: u128| cur.dom().contains(q) <==> nxt.dom().contains(q) by {
                    lemma_contains_push(subs@.take(t as int), id, q);
                }
                assert forall|q: u128| #[trigger] nxt.dom().contains(q) implies cur[q] == nxt[q] by {
                    lemma_contains_push(subs@.take(t as int), id, q);
                    if q != id {
                        assert(cur[q] == prev[q]);
                    }
                }
                assert(cur =~= nxt);
            }
            t = t + 1;
        }
        proof {
            assert(subs@.take(subs@.len() as int) =~= subs@);
            assert(linked_upto(m0, subs@, subs@.len() as int, anchor) =~= merged_after(
                m0,
                gx,
                gy,
                width as int,
                height as int,
                anchor,
            ));
        }
        Ok(())
    }
}

/// The identifiers of registry entries that no coverage link subsumes, in
/// registry order.
pub open spec fn uncovered_of(tokens: Seq<(u128, String)>, merged: Map<u128, u128>) -> Seq<u128>
    decreases tokens.len(),
{
    if tokens.len() == 0 {
        Seq::<u128>::empty()
    } else {
        let rest = uncovered_of(tokens.drop_last(), merged);
        if !merged.dom().contains(tokens.last().0) {
            rest.push(tokens.last().0)
        } else {
            rest
        }
    }
}

proof fn lemma_uncovered_membership(tokens: Seq<(u128, String)>, merged: Map<u128, u128>, id: u128)
    ensures
        uncovered_of(tokens, merged).contains(id) <==> (map_has(tokens, id)
            && !merged.dom().contains(id)),
    decreases tokens.len(),
{
    if tokens.len() == 0 {
    } else {
        let pre = tokens.drop_last();
        lemma_uncovered_membership(pre, merged, id);
        let rest = uncovered_of(pre, merged);
        if !merged.dom().contains(tokens.last().0) {
            lemma_contains_push(rest, tokens.last().0, id);
        }
        if map_has(tokens, id) {
            let i = choose|i: int| 0 <= i < tokens.len() && (#[trigger] tokens[i]).0 == id;
            if i < tokens.len() - 1 {
                assert(pre[i].0 == id);
                assert(map_has(pre, id));
            }
        }
        if map_has(pre, id) {
            let i = choose|i: int| 0 <= i < pre.len() && (#[trigger] pre[i]).0 == id;
            assert(tokens[i].0 == id);
            assert(map_has(tokens, id));
        }
        if tokens.last().0 == id {
            assert(tokens[tokens.len() - 1].0 == id);
            assert(map_has(tokens, id));
        }
    }
}

/// Two distinct cells of a rectangle name two distinct identifiers.
proof fn lemma_cell_ids_distinct(x0: int, y0: int, h: int, k1: int, k2: int)
    requires
        h > 0,
        k1 >= 0,
        k2 >= 0,
        k1 != k2,
    ensures
        cell_id(x0, y0, h, k1) != cell_id(x0, y0, h, k2),
{
    lemma_fundamental_div_mod(k1, h);
    lemma_fundamental_div_mod(k2, h);
    lemma_mod_bound(k1, h);
    lemma_mod_bound(k2, h);
    let c1 = (x0 + k1 / h, y0 + k1 % h);
    let c2 = (x0 + k2 / h, y0 + k2 % h);
    assert(c1 != c2);
    lemma_inverse_round_trip(c1.0, c1.1);
    lemma_inverse_round_trip(c2.0, c2.1);
}

impl Contract {
    /// The identifiers of tiles with no coverage link, in registry order.
    pub open spec fn uncovered_ids(self) -> Seq<u128> {
        uncovered_of(self.owner_by_id@, self.merged_map())
    }

    /// Effective extents of a tile: its own merge record, or 1 by 1.
    pub open spec fn effective_size(self, id: u128) -> (u8, u8) {
        if self.merge_map().dom().contains(id) {
            self.merge_map()[id]
        } else {
            (1u8, 1u8)
        }
    }

    /// Registers a newly minted tile for its receiver. The identifier must be
    /// canonical decimal text and not yet minted.
    pub fn nft_mint(&mut self, token_id: String, receiver_id: String)
        requires
            old(self).wf(),
            valid_token_text(token_id@),
            !map_has(old(self).owner_by_id@, dec_val(token_id@) as u128),
        ensures
            final(self).wf(),
            final(self).owner_by_id@ == old(self).owner_by_id@.push(
                (dec_val(token_id@) as u128, receiver_id),
            ),
            final(self).token_merge@ == old(self).token_merge@,
            final(self).token_merged@ == old(self).token_merged@,
    {
        let id = expect_token_found(parse_token_id(token_id.as_str()));
        let ghost s0 = self.owner_by_id@;
        self.owner_by_id.push((id, receiver_id));
        proof {
            assert forall|p: int| 0 <= p < s0.len() implies (#[trigger] s0[p]).0 != id by {
                if s0[p].0 == id {
                    assert(map_has(s0, id));
                }
            }
            assert(keys_unique(self.owner_by_id@)) by {
                assert(forall|p: int|
                    0 <= p < s0.len() ==> (#[trigger] self.owner_by_id@[p]) == s0[p]);
                assert(self.owner_by_id@[s0.len() as int].0 == id);
            }
        }
    }

    /// Mints every tile of the rectangle anchored at `token_id` for the
    /// receiver and returns the minted identifiers in enumeration order.
    /// Every member must be unminted and within the machine ring-degree
    /// bound.
    pub fn nft_batch_mint(
        &mut self,
        token_id: String,
        width: u8,
        height: u8,
        receiver_id: String,
    ) -> (tokens: Vec<String>)
        requires
            old(self).wf(),
            valid_token_text(token_id@),
            area_fits(
                decode_id(dec_val(token_id@)).0,
                decode_id(dec_val(token_id@)).1,
                width as int,
                height as int,
            ),
            forall|k: int|
                0 <= k < (width as int) * (height as int) ==> !map_has(
                    old(self).owner_by_id@,
                    (#[trigger] cell_id(
                        decode_id(dec_val(token_id@)).0,
                        decode_id(dec_val(token_id@)).1,
                        height as int,
                        k,
                    )) as u128,
                ),
        ensures
            final(self).wf(),
            final(self).token_merge@ == old(self).token_merge@,
            final(self).token_merged@ == old(self).token_merged@,
            tokens@.len() == (width as int) * (height as int),
            forall|k: int|
                0 <= k < tokens@.len() ==> (#[trigger] tokens@[k])@ == dec_str(
                    cell_id(
                        decode_id(dec_val(token_id@)).0,
                        decode_id(dec_val(token_id@)).1,
                        height as int,
                        k,
                    ),
                ),
            final(self).owner_by_id@ == old(self).owner_by_id@ + Seq::new(
                ((width as int) * (height as int)) as nat,
                |k: int|
                    (
                        cell_id(
                            decode_id(dec_val(token_id@)).0,
                            decode_id(dec_val(token_id@)).1,
                            height as int,
                            k,
                        ) as u128,
                        receiver_id,
                    ),
            ),
    {
        let anchor = expect_token_found(parse_token_id(token_id.as_str()));
        let (x0, y0) = decode_num(anchor);
        let ghost gx = x0 as int;
        let ghost gy = y0 as int;
        let ghost s0 = old(self).owner_by_id@;
        let ghost total = (width as int) * (height as int);
        let ghost minted = Seq::new(
            total as nat,
            |k: int| (cell_id(gx, gy, height as int, k) as u128, receiver_id),
        );
        proof {
            assert(adj(gx) <= MAX_DEGREE as int && adj(gy) <= MAX_DEGREE as int);
            assert(total >= 0) by (nonlinear_arith)
                requires
                    width >= 0 && height >= 0,
                    total == (width as int) * (height as int),
            ;
        }
        let mut tokens: Vec<String> = Vec::new();
        let mut i: u8 = 0;
        while i < width
            invariant
                old(self).wf(),
                s0 == old(self).owner_by_id@,
                self.token_merge@ == old(self).token_merge@,
                self.token_merged@ == old(self).token_merged@,
                keys_unique(self.owner_by_id@),
                valid_token_text(token_id@),
                anchor as int == dec_val(token_id@),
                gx == decode_id(dec_val(token_id@)).0,
                gy == decode_id(dec_val(token_id@)).1,
                x0 as int == gx,
                y0 as int == gy,
                -0x8000_0000_0000_0000 <= gx <= 0x7fff_ffff_ffff_ffff,
                -0x8000_0000_0000_0000 <= gy <= 0x7fff_ffff_ffff_ffff,
                area_fits(gx, gy, width as int, height as int),
                total == (width as int) * (height as int),
                minted == Seq::new(
                    total as nat,
                    |k: int| (cell_id(gx, gy, height as int, k) as u128, receiver_id),
                ),
                forall|k: int|
                    0 <= k < total ==> !map_has(
                        s0,
                        (#[trigger] cell_id(gx, gy, height as int, k)) as u128,
                    ),
                0 <= i <= width,
                tokens@.len() == (i as int) * (height as int),
                tokens@.len() <= total,
                forall|k: int|
                    0 <= k < tokens@.len() ==> (#[trigger] tokens@[k])@ == dec_str(
                        cell_id(gx, gy, height as int, k),
                    ),
                self.owner_by_id@ == s0 + minted.take((i as int) * (height as int)),
            decreases width - i,
        {
            let mut j: u8 = 0;
            while j < height
                invariant
                    old(self).wf(),
                    s0 == old(self).owner_by_id@,
                    self.token_merge@ == old(self).token_merge@,
                    self.token_merged@ == old(self).token_merged@,
                    keys_unique(self.owner_by_id@),
                    valid_token_text(token_id@),
                    anchor as int == dec_val(token_id@),
                    gx == decode_id(dec_val(token_id@)).0,
                    gy == decode_id(dec_val(token_id@)).1,
                    x0 as int == gx,
                    y0 as int == gy,
                    -0x8000_0000_0000_0000 <= gx <= 0x7fff_ffff_ffff_ffff,
                    -0x8000_0000_0000_0000 <= gy <= 0x7fff_ffff_ffff_ffff,
                    area_fits(gx, gy, width as int, height as int),
                    total == (width as int) * (height as int),
                    minted == Seq::new(
                        total as nat,
                        |k: int| (cell_id(gx, gy, height as int, k) as u128, receiver_id),
                    ),
                    forall|k: int|
                        0 <= k < total ==> !map_has(
                            s0,
                            (#[trigger] cell_id(gx, gy, height as int, k)) as u128,
                        ),
                    0 <= i < width,
                    0 <= j <= height,
                    tokens@.len() == (i as int) * (height as int) + (j as int),
                    tokens@.len() <= total,
                    forall|k: int|
                        0 <= k < tokens@.len() ==> (#[trigger] tokens@[k])@ == dec_str(
                            cell_id(gx, gy, height as int, k),
                        ),
                    self.owner_by_id@ == s0 + minted.take(
                        (i as int) * (height as int) + (j as int),
                    ),
                decreases height - j,
            {
                let ghost kk = (i as int) * (height as int) + (j as int);
                let x = x0 + i as i128;
                let y = y0 + j as i128;
                proof {
                    assert(kk < total) by (nonlinear_arith)
                        requires
                            0 <= (i as int) && (i as int) < (width as int),
                            0 <= (j as int) && (j as int) < (height as int),
                            kk == (i as int) * (height as int) + (j as int),
                            total == (width as int) * (height as int),
                    ;
                    lemma_fundamental_div_mod_converse(kk, height as int, i as int, j as int);
                    assert(cell_id(gx, gy, height as int, kk) == encode_at(x as int, y as int));
                    assert(ring_deg(x as int, y as int) <= MAX_DEGREE as int);
                }
                let id = encode_num(x, y);
                let token = token_id_string(id);
                tokens.push(token);
                let ghost s1 = self.owner_by_id@;
                self.owner_by_id.push((id, receiver_id.clone()));
                proof {
                    assert forall|p: int| 0 <= p < s1.len() implies (#[trigger] s1[p]).0 != id by {
                        if p < s0.len() {
                            if s1[p].0 == id {
                                assert(map_has(s0, id));
                            }
                        } else {
                            let k2 = p - s0.len();
                            assert(s1[p] == minted[k2]);
                            lemma_fundamental_div_mod(k2, height as int);
                            lemma_mod_bound(k2, height as int);
                            assert(0 <= k2 / (height as int) && k2 / (height as int) < (
                            width as int)) by (nonlinear_arith)
                                requires
                                    (height as int) > 0,
                                    k2 >= 0,
                                    k2 == (height as int) * (k2 / (height as int)) + k2 % (
                                    height as int),
                                    0 <= k2 % (height as int) && (k2 % (height as int)) < (
                                    height as int),
                                    k2 < (width as int) * (height as int),
                            ;
                            assert(ring_deg(
                                gx + k2 / (height as int),
                                gy + k2 % (height as int),
                            ) <= MAX_DEGREE as int);
                            lemma_encode_fits(gx + k2 / (height as int), gy + k2 % (height as int));
                            lemma_encode_fits(x as int, y as int);
                            lemma_cell_ids_distinct(gx, gy, height as int, k2, kk);
                        }
                    }
                    assert(keys_unique(self.owner_by_id@)) by {
                        assert(forall|p: int|
                            0 <= p < s1.len() ==> (#[trigger] self.owner_by_id@[p]) == s1[p]);
                        assert(self.owner_by_id@[s1.len() as int].0 == id);
                    }
                    assert(self.owner_by_id@ == s0 + minted.take(kk + 1)) by {
                        assert(minted.take(kk + 1) =~= minted.take(kk).push(minted[kk]));
                        assert(minted[kk] == (id, receiver_id));
                        assert(s0 + minted.take(kk).push(minted[kk]) =~= (s0 + minted.take(
                            kk,
                        )).push(minted[kk]));
                    }
                }
                j = j + 1;
            }
            i = i + 1;
            proof {
                assert((i as int) * (height as int) == ((i as int) - 1) * (height as int) + (
                height as int)) by (nonlinear_arith);
            }
        }
        proof {
            assert(minted.take(total) =~= minted);
        }
        tokens
    }

    /// The extents recorded by a merge anchored at this tile, if any.
    pub fn merge_record(&self, token_id: String) -> (r: Option<(u8, u8)>)
        requires
            self.wf(),
        ensures
            r is Some <==> valid_token_text(token_id@) && self.merge_map().dom().contains(
                dec_val(token_id@) as u128,
            ),
            r matches Some(wh) ==> wh == self.merge_map()[dec_val(token_id@) as u128],
    {
        match parse_token_id(token_id.as_str()) {
            Some(id) => match assoc_get(&self.token_merge, id) {
                Some(wh) => Some(*wh),
                None => None,
            },
            None => None,
        }
    }

    /// The anchor whose merge subsumes this tile, if any, as decimal text.
    pub fn merged_into(&self, token_id: String) -> (r: Option<String>)
        requires
            self.wf(),
        ensures
            r is Some <==> valid_token_text(token_id@) && self.merged_map().dom().contains(
                dec_val(token_id@) as u128,
            ),
            r matches Some(a) ==> a@ == dec_str(
                self.merged_map()[dec_val(token_id@) as u128] as int,
            ),
    {
        match parse_token_id(token_id.as_str()) {
            Some(id) => match assoc_get(&self.token_merged, id) {
                Some(anchor) => Some(token_id_string(*anchor)),
                None => None,
            },
            None => None,
        }
    }

    /// Whether some other tile's merge subsumes this tile.
    fn is_covered_token(&self, token_id: u128) -> (b: bool)
        requires
            self.wf(),
        ensures
            b == self.merged_map().dom().contains(token_id),
    {
        match assoc_get(&self.token_merged, token_id) {
            Some(_) => true,
            None => false,
        }
    }

    /// The tile named by `token_id` with its effective extents: the extents
    /// of its own merge record, or 1 by 1 when it has none.
    pub fn get_token_with_size(&self, token_id: String) -> (r: UncoveredToken)
        requires
            self.wf(),
        ensures
            r.token_id@ == token_id@,
            valid_token_text(token_id@) ==> (r.width, r.height) == self.effective_size(
                dec_val(token_id@) as u128,
            ),
            !valid_token_text(token_id@) ==> (r.width, r.height) == (1u8, 1u8),
    {
        let size: (u8, u8) = match parse_token_id(token_id.as_str()) {
            Some(id) => match assoc_get(&self.token_merge, id) {
                Some(wh) => *wh,
                None => (1, 1),
            },
            None => (1, 1),
        };
        UncoveredToken { token_id, width: size.0, height: size.1 }
    }

    /// The tiles not subsumed by any merge, each with its effective extents,
    /// in registry order.
    pub fn get_not_covered_tokens(&self) -> (r: Vec<UncoveredToken>)
        requires
            self.wf(),
        ensures
            r@.len() == self.uncovered_ids().len(),
            forall|p: int|
                0 <= p < r@.len() ==> ((#[trigger] r@[p]).token_id@ == dec_str(
                    self.uncovered_ids()[p] as int,
                ) && (r@[p].width, r@[p].height) == self.effective_size(self.uncovered_ids()[p])),
    {
        let ghost toks = self.owner_by_id@;
        let mut out: Vec<UncoveredToken> = Vec::new();
        let mut i: usize = 0;
        while i < self.owner_by_id.len()
            invariant
                self.wf(),
                toks == self.owner_by_id@,
                0 <= i <= toks.len(),
                out@.len() == uncovered_of(toks.take(i as int), self.merged_map()).len(),
                forall|p: int|
                    0 <= p < out@.len() ==> ((#[trigger] out@[p]).token_id@ == dec_str(
                        uncovered_of(toks.take(i as int), self.merged_map())[p] as int,
                    ) && (out@[p].width, out@[p].height) == self.effective_size(
                        uncovered_of(toks.take(i as int), self.merged_map())[p],
                    )),
            decreases toks.len() - i,
        {
            let ghost pre = uncovered_of(toks.take(i as int), self.merged_map());
            let id = self.owner_by_id[i].0;
            proof {
                assert(toks.take(i as int + 1).drop_last() =~= toks.take(i as int));
                assert(toks.take(i as int + 1).last() == toks[i as int]);
            }
            if !self.is_covered_token(id) {
                let size: (u8, u8) = match assoc_get(&self.token_merge, id) {
                    Some(wh) => *wh,
                    None => (1, 1),
                };
                let token = token_id_string(id);
                out.push(UncoveredToken { token_id: token, width: size.0, height: size.1 });
                proof {
                    assert(uncovered_of(toks.take(i as int + 1), self.merged_map()) == pre.push(
                        id,
                    ));
                }
            } else {
                proof {
                    assert(uncovered_of(toks.take(i as int + 1), self.merged_map()) == pre);
                }
            }
            i = i + 1;
        }
        proof {
            assert(toks.take(toks.len() as int) =~= toks);
        }
        out
    }
}

/// Coverage invariant: a tile with a coverage link never appears among the
/// uncovered tiles, and a known tile without one always does; its extents in
/// the query's answer are pinned by the query's own contract.
pub proof fn lemma_coverage_invariant(c: Contract, id: u128)
    ensures
        c.merged_map().dom().contains(id) ==> !c.uncovered_ids().contains(id),
        map_has(c.owner_by_id@, id) && !c.merged_map().dom().contains(id)
            ==> c.uncovered_ids().contains(id),
{
    lemma_uncovered_membership(c.owner_by_id@, c.merged_map(), id);
}

/// Idempotent re-merge: when a merge succeeds and is repeated with identical
/// arguments on the resulting state, the second call is again answered `Ok`
/// and leaves the merge records and coverage links exactly as the first call
/// did.
pub proof fn lemma_merge_idempotent(
    c0: Contract,
    c1: Contract,
    token: Seq<char>,
    width: u8,
    height: u8,
    actor: Seq<char>,
)
    requires
        c0.merge_check(token, width as int, height as int, actor) is Ok,
        c1.owner_by_id@ == c0.owner_by_id@,
        c1.merge_map() == c0.merge_map().insert(dec_val(token) as u128, (width, height)),
        c1.merged_map() == merged_after(
            c0.merged_map(),
            decode_id(dec_val(token)).0,
            decode_id(dec_val(token)).1,
            width as int,
            height as int,
            dec_val(token) as u128,
        ),
    ensures
        c1.merge_check(token, width as int, height as int, actor) == Result::<(), TileError>::Ok(
            (),
        ),
        c1.merge_map().insert(dec_val(token) as u128, (width, height)) == c1.merge_map(),
        merged_after(
            c1.merged_map(),
            decode_id(dec_val(token)).0,
            decode_id(dec_val(token)).1,
            width as int,
            height as int,
            dec_val(token) as u128,
        ) == c1.merged_map(),
{
    let anchor = dec_val(token) as u128;
    let x0 = decode_id(dec_val(token)).0;
    let y0 = decode_id(dec_val(token)).1;
    let r0 = c0.merge_check(token, width as int, height as int, actor);
    assert(r0 == Result::<(), TileError>::Ok(r0->Ok_0));
    assert(c1.merge_check(token, width as int, height as int, actor) == r0);
    assert(c1.merge_map().insert(anchor, (width, height)) =~= c1.merge_map());
    assert(merged_after(c1.merged_map(), x0, y0, width as int, height as int, anchor)
        =~= c1.merged_map());
}

} // verus!
