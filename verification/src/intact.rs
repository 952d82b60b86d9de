//! Walks over geometry sections that only ask whether they decode, so a
//! caller can tell beforehand whether a polygon test is defined.

use vstd::prelude::*;

use crate::bytes::{fits, lemma_varint_bounds, varint_at};
use crate::common::{GeomEncoding, QuantBits};
use crate::eager::{polys_ok, ring_begin};
use crate::format::{read_fixed, read_u16, read_u32, read_varint, unzigzag, PayloadLayout};
use crate::full_rings::{
    full_cache, full_claim_ok, full_end, full_poly_ok, full_record, full_within,
};
use crate::geometry::{
    arc_claim_ok, arc_points, arc_poly_ok, arc_pos, arc_step, arc_tail, arcs_within, count_at,
    fixed_arcs, poly_refs, refs_at, refs_ok, ring_refs_at, rings_at,
};

verus! {

/// Reads a varint if one is there and fits ten bytes.
fn try_varint(bytes: &[u8], position: usize) -> (r: Option<(u64, usize)>)
    ensures
        match r {
            Some((value, next)) => count_at(bytes@, position as int) == Some(
                (value as nat, next as int),
            ) && position < next <= bytes@.len(),
            None => count_at(bytes@, position as int) is None,
        },
{
    let len: usize = bytes.len();
    let mut at: usize = position;
    let ghost start = position as int;
    proof {
        lemma_varint_bounds(bytes@, start);
    }
    while at < len && bytes[at] >= 128
        invariant
            start == position,
            len == bytes@.len(),
            start <= at <= len || at == start,
            varint_at(bytes@, start) is Some == varint_at(bytes@, at as int) is Some,
            varint_at(bytes@, start) is Some ==> (varint_at(bytes@, start)->0).1 == (varint_at(
                bytes@,
                at as int,
            )->0).1,
        decreases len - at,
    {
        at = at + 1;
    }
    if at >= len {
        return None;
    }
    if at - position >= 10 {
        return None;
    }
    Some(read_varint(bytes, position))
}

/// Whether the varint-coded coordinate fits the width.
fn fits_width(v: i64, quant_bits: QuantBits) -> (ok: bool)
    ensures
        ok == fits(v as int, quant_bits.size()),
{
    match quant_bits {
        QuantBits::Bits16 => -0x8000 <= v && v < 0x8000,
        QuantBits::Bits24 => -0x80_0000 <= v && v < 0x80_0000,
        QuantBits::Bits32 => -0x8000_0000 <= v && v < 0x8000_0000,
    }
}

/// One step of an arc walk, if the bytes hold it.
fn try_step(payload: &[u8], layout: &PayloadLayout, position: usize, x0: i32, y0: i32) -> (r: Option<
    (i32, i32, usize),
>)
    requires
        position <= payload@.len(),
    ensures
        match r {
            Some((x, y, next)) => arc_step(
                payload@,
                fixed_arcs(*layout),
                layout.quant_bits.size(),
                position as int,
                (x0 as int, y0 as int),
            ) == Some(((x as int, y as int), next as int)) && next <= payload@.len(),
            None => arc_step(
                payload@,
                fixed_arcs(*layout),
                layout.quant_bits.size(),
                position as int,
                (x0 as int, y0 as int),
            ) is None,
        },
{
    let len: usize = payload.len();
    let coord_bytes: usize = layout.quant_bits.bytes();
    if layout.geom == GeomEncoding::FixedWidthArcs {
        if len - position < 2 * coord_bytes {
            return None;
        }
        let x1: i32 = read_fixed(payload, position, layout.quant_bits);
        let y1: i32 = read_fixed(payload, position + coord_bytes, layout.quant_bits);
        Some((x1, y1, position + 2 * coord_bytes))
    } else {
        match try_varint(payload, position) {
            None => None,
            Some((dx, middle)) => match try_varint(payload, middle) {
                None => None,
                Some((dy, next)) => {
                    let (mx, my): (i64, i64) = (unzigzag(dx), unzigzag(dy));
                    let (wx, wy): (i128, i128) = (x0 as i128 + mx as i128, y0 as i128 + my as i128);
                    if wx < -0x8000_0000 || wx > 0x7FFF_FFFF || wy < -0x8000_0000 || wy
                        > 0x7FFF_FFFF {
                        return None;
                    }
                    if fits_width(wx as i64, layout.quant_bits) && fits_width(
                        wy as i64,
                        layout.quant_bits,
                    ) {
                        Some((wx as i32, wy as i32, next))
                    } else {
                        None
                    }
                },
            },
        }
    }
}

/// Whether arc `id` decodes.
pub fn arc_intact(payload: &[u8], layout: &PayloadLayout, id: u64) -> (intact: bool)
    requires
        arcs_within(*layout, payload@.len() as int),
    ensures
        intact == (arc_points(payload@, *layout, id as int) is Some),
{
    if id >= layout.n_arcs as u64 {
        return false;
    }
    let len: usize = payload.len();
    let offset: u32 = read_u32(payload, layout.arc_offsets + id as usize * 4);
    let ghost pos = arc_pos(payload@, *layout, id as int);
    if offset as usize >= len || layout.arc_data >= len - offset as usize {
        proof {
            lemma_varint_bounds(payload@, pos);
        }
        return false;
    }
    let size: usize = layout.quant_bits.bytes();
    let (count, first): (u64, usize) = match try_varint(payload, layout.arc_data + offset as usize) {
        None => return false,
        Some(r) => r,
    };
    if len - first < 2 * size {
        return false;
    }
    let mut x0: i32 = read_fixed(payload, first, layout.quant_bits);
    let mut y0: i32 = read_fixed(payload, first + size, layout.quant_bits);
    let mut position: usize = first + 2 * size;
    let mut left: u64 = if count == 0 { 0 } else { count - 1 };
    let ghost whole = arc_tail(
        payload@,
        fixed_arcs(*layout),
        size as int,
        position as int,
        (x0 as int, y0 as int),
        left as nat,
    ) is Some;
    assert(whole == (arc_points(payload@, *layout, id as int) is Some));
    while left > 0
        invariant
            whole == (arc_points(payload@, *layout, id as int) is Some),
            size == layout.quant_bits.size(),
            position <= payload@.len(),
            whole == (arc_tail(
                payload@,
                fixed_arcs(*layout),
                size as int,
                position as int,
                (x0 as int, y0 as int),
                left as nat,
            ) is Some),
        decreases left,
    {
        match try_step(payload, layout, position, x0, y0) {
            None => {
                return false;
            },
            Some((x1, y1, next)) => {
                x0 = x1;
                y0 = y1;
                position = next;
                left = left - 1;
            },
        }
    }
    true
}

/// Whether the ring at `position` decodes, and where it ends if it does.
fn ring_intact(payload: &[u8], layout: &PayloadLayout, position: usize) -> (after: Option<usize>)
    requires
        arcs_within(*layout, payload@.len() as int),
    ensures
        match after {
            Some(end) => ring_refs_at(payload@, position as int) matches Some((refs, next)) && next
                == end && refs_ok(payload@, *layout, refs),
            None => !(ring_refs_at(payload@, position as int) matches Some((refs, _)) && refs_ok(
                payload@,
                *layout,
                refs,
            )),
        },
{
    let (count, first): (u64, usize) = match try_varint(payload, position) {
        None => return None,
        Some(r) => r,
    };
    let mut at: usize = first;
    let mut left: u64 = count;
    let ghost all = refs_at(payload@, first as int, count as nat);
    let ghost mut done: Seq<nat> = Seq::empty();
    proof {
        if all is Some {
            assert(done + (all->0).0 =~= (all->0).0);
        }
    }
    while left > 0
        invariant
            arcs_within(*layout, payload@.len() as int),
            ring_refs_at(payload@, position as int) == all,
            all is Some == refs_at(payload@, at as int, left as nat) is Some,
            all is Some ==> (all->0).0 == done + (refs_at(payload@, at as int, left as nat)->0).0
                && (all->0).1 == (refs_at(payload@, at as int, left as nat)->0).1,
            refs_ok(payload@, *layout, done),
        decreases left,
    {
        let ghost rest = refs_at(payload@, at as int, left as nat);
        match try_varint(payload, at) {
            None => {
                return None;
            },
            Some((r, next)) => {
                let ghost rest2 = refs_at(payload@, next as int, (left - 1) as nat);
                let ghost before = done;
                proof {
                    done = done.push(r as nat);
                    if all is Some {
                        assert((rest->0).0 == seq![r as nat] + (rest2->0).0);
                        assert(before + (rest->0).0 =~= done + (rest2->0).0);
                    }
                }
                if !arc_intact(payload, layout, r / 2) {
                    proof {
                        if all is Some {
                            let refs = (all->0).0;
                            assert(refs[before.len() as int] == r as nat);
                        }
                    }
                    return None;
                }
                at = next;
                left = left - 1;
            },
        }
    }
    proof {
        if all is Some {
            assert(done + Seq::<nat>::empty() =~= done);
        }
    }
    Some(at)
}

/// Whether poly `id` of an arc-store payload decodes.
pub fn arc_poly_intact(payload: &[u8], layout: &PayloadLayout, id: u32) -> (intact: bool)
    requires
        arcs_within(*layout, payload@.len() as int),
    ensures
        intact == arc_poly_ok(payload@, *layout, id as int),
{
    if id >= layout.eager_polys {
        return false;
    }
    let len: usize = payload.len();
    let size: usize = layout.quant_bits.bytes();
    let offset: u32 = read_u32(payload, layout.poly_offsets + id as usize * 4);
    if offset as usize > len || layout.ring_data > len - offset as usize {
        return false;
    }
    let start: usize = layout.ring_data + offset as usize;
    if len - start < 4 * size + 2 {
        return false;
    }
    let count: u16 = read_u16(payload, start + 4 * size);
    let mut at: usize = start + 4 * size + 2;
    let mut left: u16 = count;
    let ghost all = rings_at(payload@, at as int, count as nat);
    let ghost mut done: Seq<Seq<nat>> = Seq::empty();
    proof {
        if all is Some {
            assert(done + (all->0).0 =~= (all->0).0);
        }
    }
    while left > 0
        invariant
            arcs_within(*layout, payload@.len() as int),
            id < layout.eager_polys,
            all is Some == poly_refs(payload@, *layout, id as int) is Some,
            all is Some ==> poly_refs(payload@, *layout, id as int)->0 == (all->0).0,
            all is Some == rings_at(payload@, at as int, left as nat) is Some,
            all is Some ==> (all->0).0 == done + (rings_at(payload@, at as int, left as nat)->0).0,
            forall|i: int| 0 <= i < done.len() ==> refs_ok(payload@, *layout, #[trigger] done[i]),
        decreases left,
    {
        let ghost rest = rings_at(payload@, at as int, left as nat);
        match ring_intact(payload, layout, at) {
            None => {
                proof {
                    if all is Some {
                        let rings = (all->0).0;
                        let refs = (ring_refs_at(payload@, at as int)->0).0;
                        assert((rest->0).0[0] == refs);
                        assert(rings[done.len() as int] == refs);
                    }
                }
                return false;
            },
            Some(next) => {
                let ghost refs = (ring_refs_at(payload@, at as int)->0).0;
                let ghost rest2 = rings_at(payload@, next as int, (left - 1) as nat);
                let ghost before = done;
                proof {
                    done = done.push(refs);
                    if all is Some {
                        assert((rest->0).0 == seq![refs] + (rest2->0).0);
                        assert(before + (rest->0).0 =~= done + (rest2->0).0);
                    }
                }
                at = next;
                left = left - 1;
            },
        }
    }
    proof {
        if all is Some {
            assert(done + Seq::<Seq<nat>>::empty() =~= done);
        }
    }
    true
}

/// Whether poly `id` of an arc-store payload can be tested against a point.
pub fn arc_claim_intact(payload: &[u8], layout: &PayloadLayout, id: u32, px: i32, py: i32) -> (
    intact: bool)
    requires
        arcs_within(*layout, payload@.len() as int),
    ensures
        intact == arc_claim_ok(payload@, *layout, id as int, (px as int, py as int)),
{
    if id >= layout.eager_polys {
        return false;
    }
    let len: usize = payload.len();
    let size: usize = layout.quant_bits.bytes();
    let offset: u32 = read_u32(payload, layout.poly_offsets + id as usize * 4);
    if offset as usize > len || layout.ring_data > len - offset as usize {
        return false;
    }
    let start: usize = layout.ring_data + offset as usize;
    if len - start < 4 * size {
        return false;
    }
    let min_x: i32 = read_fixed(payload, start, layout.quant_bits);
    let min_y: i32 = read_fixed(payload, start + size, layout.quant_bits);
    let max_x: i32 = read_fixed(payload, start + 2 * size, layout.quant_bits);
    let max_y: i32 = read_fixed(payload, start + 3 * size, layout.quant_bits);
    if !(px >= min_x && py >= min_y && px <= max_x && py <= max_y) {
        return true;
    }
    arc_poly_intact(payload, layout, id)
}

/// Whether every poly of an arc-store payload decodes.
pub fn polys_intact(payload: &[u8], layout: &PayloadLayout) -> (intact: bool)
    requires
        arcs_within(*layout, payload@.len() as int),
    ensures
        intact == polys_ok(payload@, *layout),
{
    let mut id: u32 = 0;
    while id < layout.eager_polys
        invariant
            arcs_within(*layout, payload@.len() as int),
            id <= layout.eager_polys,
            forall|i: int| 0 <= i < id ==> #[trigger] arc_poly_ok(payload@, *layout, i),
        decreases layout.eager_polys - id,
    {
        if !arc_poly_intact(payload, layout, id) {
            assert(!arc_poly_ok(payload@, *layout, id as int));
            return false;
        }
        id = id + 1;
    }
    true
}

/// Whether the index entries that poly `id` of a `FullRings` payload follows
/// are in range.
pub fn full_poly_intact(payload: &[u8], layout: &PayloadLayout, id: u32) -> (intact: bool)
    requires
        full_within(*layout, payload@.len() as int),
    ensures
        intact == full_poly_ok(payload@, *layout, id as int),
{
    if id >= layout.eager_polys {
        return false;
    }
    let ghost cache = full_cache(payload@, *layout);
    let len: usize = payload.len();
    let record: usize = layout.full_polys + id as usize * 20;
    assert(cache.polys[id as int] == full_record(payload@, *layout, id as int));
    let ring_end: u32 = read_u32(payload, record + 16);
    let ring_start: u32 = if id == 0 {
        0
    } else {
        assert(cache.polys[id - 1] == full_record(payload@, *layout, id - 1));
        read_u32(payload, record - 4)
    };
    if ring_start > ring_end || ring_end > layout.eager_rings {
        return false;
    }
    let mut prior: u32 = if ring_start == 0 || ring_start == ring_end {
        0
    } else {
        assert(cache.ring_ends[ring_start - 1] == full_end(payload@, *layout, ring_start - 1));
        read_u32(payload, layout.full_ring_ends + (ring_start as usize - 1) * 4)
    };
    let mut r: u32 = ring_start;
    while r < ring_end
        invariant
            full_within(*layout, payload@.len() as int),
            len == payload@.len(),
            cache == full_cache(payload@, *layout),
            ring_start <= r <= ring_end <= layout.eager_rings,
            id < layout.eager_polys,
            cache.polys[id as int].1 == ring_end,
            crate::eager::poly_begin(cache, id as int) == ring_start,
            r < ring_end ==> prior == ring_begin(cache.ring_ends, r as int),
            forall|q: int|
                ring_start <= q < r ==> ring_begin(cache.ring_ends, q)
                    <= #[trigger] cache.ring_ends[q] <= layout.eager_coords,
        decreases ring_end - r,
    {
        assert(cache.ring_ends[r as int] == full_end(payload@, *layout, r as int));
        let end: u32 = read_u32(payload, layout.full_ring_ends + r as usize * 4);
        if prior > end || end > layout.eager_coords {
            return false;
        }
        prior = end;
        r = r + 1;
    }
    true
}

/// Whether poly `id` of a `FullRings` payload can be tested against a point.
pub fn full_claim_intact(payload: &[u8], layout: &PayloadLayout, id: u32, px: i32, py: i32) -> (
    intact: bool)
    requires
        full_within(*layout, payload@.len() as int),
    ensures
        intact == full_claim_ok(payload@, *layout, id as int, (px as int, py as int)),
{
    if id >= layout.eager_polys {
        return false;
    }
    let len: usize = payload.len();
    let record: usize = layout.full_polys + id as usize * 20;
    assert(full_cache(payload@, *layout).polys[id as int] == full_record(
        payload@,
        *layout,
        id as int,
    ));
    let min_x: i32 = read_fixed(payload, record, QuantBits::Bits32);
    let min_y: i32 = read_fixed(payload, record + 4, QuantBits::Bits32);
    let max_x: i32 = read_fixed(payload, record + 8, QuantBits::Bits32);
    let max_y: i32 = read_fixed(payload, record + 12, QuantBits::Bits32);
    if !(px >= min_x && py >= min_y && px <= max_x && py <= max_y) {
        return true;
    }
    if layout.quant_bits == QuantBits::Bits16 && (px < -0x8000 || px > 0x7FFF || py < -0x8000 || py
        > 0x7FFF) {
        return true;
    }
    full_poly_intact(payload, layout, id)
}

} // verus!
