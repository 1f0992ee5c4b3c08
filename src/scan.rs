//! The rules of a dimension scan: which region files and which chunks a
//! radius admits, where a dimension's files lie, and the scan options.
use vstd::prelude::*;

verus! {

/// `|2v + 1|`: twice the distance from the grid's centre line to the middle
/// of cell `v`, an odd number.
pub open spec fn span_from_centre(v: int) -> int {
    let d = 2 * v + 1;
    if d < 0 {
        -d
    } else {
        d
    }
}

/// `|v|`.
pub open spec fn abs(v: int) -> int {
    if v < 0 {
        -v
    } else {
        v
    }
}

/// The chunk lies within `radius` chunks of the origin chunk along both axes.
pub open spec fn chunk_included(x: int, z: int, radius: int) -> bool {
    -radius <= x <= radius && -radius <= z <= radius
}

/// The Chebyshev distance of a chunk from the origin chunk.
pub open spec fn chunk_distance(x: int, z: int) -> int {
    if abs(x) > abs(z) {
        abs(x)
    } else {
        abs(z)
    }
}

/// A radius admits exactly the chunks up to that Chebyshev distance: a chunk
/// at distance `radius` is scanned, one at distance `radius + 1` is not.
pub proof fn lemma_radius_boundary(x: int, z: int, radius: int)
    ensures
        chunk_included(x, z, radius) <==> chunk_distance(x, z) <= radius,
        chunk_distance(x, z) == radius ==> chunk_included(x, z, radius),
        chunk_distance(x, z) == radius + 1 ==> !chunk_included(x, z, radius),
{
}

/// Largest region coordinate whose chunks may fall within `radius`.
pub open spec fn region_high(radius: int) -> int {
    radius / 32
}

/// Smallest region coordinate whose chunks may fall within `radius`.
pub open spec fn region_low(radius: int) -> int {
    -((radius + 31) / 32)
}

/// The region file at `(x, z)` holds chunks within `radius`: its chunks
/// `32x .. 32x + 31` (and likewise along z) meet `-radius ..= radius`.
pub open spec fn region_included(x: int, z: int, radius: int) -> bool {
    region_low(radius) <= x <= region_high(radius) && region_low(radius) <= z <= region_high(
        radius,
    )
}

/// Skipping region files by radius loses no chunk: every slot within the
/// radius lies in a region file that the radius admits.
pub proof fn lemma_region_filter_keeps_chunks(region_x: int, region_z: int, index: int, radius: int)
    requires
        0 <= index < 1024,
        0 <= radius,
        chunk_included(
            slot_chunk(region_x, region_z, index).0,
            slot_chunk(region_x, region_z, index).1,
            radius,
        ),
    ensures
        region_included(region_x, region_z, radius),
{
    let a = index % 32;
    let b = index / 32;
    assert(0 <= a < 32 && 0 <= b < 32);
    let h = radius / 32;
    assert(32 * h <= radius < 32 * h + 32);
    let l = (radius + 31) / 32;
    assert(32 * l <= radius + 31 < 32 * l + 32);
}

/// Every region file that the radius admits holds a chunk within it.
pub proof fn lemma_region_filter_is_tight(region_x: int, region_z: int, radius: int)
    requires
        0 <= radius,
        region_included(region_x, region_z, radius),
    ensures
        exists|index: int|
            0 <= index < 1024 && chunk_included(
                #[trigger] slot_chunk(region_x, region_z, index).0,
                slot_chunk(region_x, region_z, index).1,
                radius,
            ),
{
    let h = radius / 32;
    assert(32 * h <= radius < 32 * h + 32);
    let l = (radius + 31) / 32;
    assert(32 * l <= radius + 31 < 32 * l + 32);
    let a: int = if region_x >= 0 { 0 } else { 31 };
    let b: int = if region_z >= 0 { 0 } else { 31 };
    let index = b * 32 + a;
    assert(index % 32 == a && index / 32 == b);
    assert(chunk_included(
        slot_chunk(region_x, region_z, index).0,
        slot_chunk(region_x, region_z, index).1,
        radius,
    ));
}

/// Tells whether the chunk at `(x, z)` lies within `radius`.
pub fn chunk_in_radius(x: i64, z: i64, radius: u32) -> (r: bool)
    ensures
        r == chunk_included(x as int, z as int, radius as int),
{
    let rad = radius as i64;
    -rad <= x && x <= rad && -rad <= z && z <= rad
}

/// Tells whether the region file at `(x, z)` holds chunks within `radius`.
pub fn region_in_radius(x: i32, z: i32, radius: u32) -> (r: bool)
    ensures
        r == region_included(x as int, z as int, radius as int),
{
    let high = (radius / 32) as i64;
    let low = -((radius as i64 + 31) / 32);
    low <= x as i64 && x as i64 <= high && low <= z as i64 && z as i64 <= high
}

/// Chunk coordinates of slot `index` of the region at `(region_x, region_z)`:
/// slots run along x first, 32 to a row.
pub open spec fn slot_chunk(region_x: int, region_z: int, index: int) -> (int, int) {
    (region_x * 32 + index % 32, region_z * 32 + index / 32)
}

/// The chunk coordinates of a slot.
pub fn chunk_coords(region_x: i32, region_z: i32, index: usize) -> (r: (i64, i64))
    requires
        index < 1024,
    ensures
        (r.0 as int, r.1 as int) == slot_chunk(region_x as int, region_z as int, index as int),
{
    (region_x as i64 * 32 + (index % 32) as i64, region_z as i64 * 32 + (index / 32) as i64)
}

/// Tells whether slot `index` of the region at `(region_x, region_z)` is
/// scanned under an optional radius.
pub fn slot_in_radius(region_x: i32, region_z: i32, index: usize, radius: Option<u32>) -> (r: bool)
    requires
        index < 1024,
    ensures
        r == match radius {
            None => true,
            Some(rad) => {
                let c = slot_chunk(region_x as int, region_z as int, index as int);
                chunk_included(c.0, c.1, rad as int)
            },
        },
{
    match radius {
        None => true,
        Some(rad) => {
            let (x, z) = chunk_coords(region_x, region_z, index);
            chunk_in_radius(x, z, rad)
        },
    }
}

/// The larger of `span_from_centre` over both coordinates: regions in the
/// same ring around the origin share it.
pub open spec fn ring_span(x: int, z: int) -> int {
    let dx = span_from_centre(x);
    let dz = span_from_centre(z);
    if dx > dz {
        dx
    } else {
        dz
    }
}

/// Region `a` of `c` is visited before region `b`: inner rings first, then
/// by x, then by z, then by position in `c`.
pub open spec fn visit_before(c: Seq<(i32, i32)>, a: int, b: int) -> bool {
    let ra = ring_span(c[a].0 as int, c[a].1 as int);
    let rb = ring_span(c[b].0 as int, c[b].1 as int);
    ||| ra < rb
    ||| ra == rb && c[a].0 < c[b].0
    ||| ra == rb && c[a].0 == c[b].0 && c[a].1 < c[b].1
    ||| ra == rb && c[a].0 == c[b].0 && c[a].1 == c[b].1 && a < b
}

/// `o` lists every position of `c` once, in visiting order.
pub open spec fn visit_order_ok(c: Seq<(i32, i32)>, o: Seq<usize>) -> bool {
    &&& forall|k: int| 0 <= k < o.len() ==> o[k] < c.len()
    &&& forall|k1: int, k2: int|
        0 <= k1 < k2 < o.len() ==> visit_before(c, o[k1] as int, o[k2] as int)
    &&& forall|i: int| 0 <= i < c.len() ==> #[trigger] o.contains(i as usize)
}

fn ring_span_of(x: i32, z: i32) -> (r: i64)
    ensures
        r as int == ring_span(x as int, z as int),
{
    let dx = if 2 * (x as i64) + 1 < 0 {
        -(2 * (x as i64) + 1)
    } else {
        2 * (x as i64) + 1
    };
    let dz = if 2 * (z as i64) + 1 < 0 {
        -(2 * (z as i64) + 1)
    } else {
        2 * (z as i64) + 1
    };
    if dx > dz {
        dx
    } else {
        dz
    }
}

fn visits_before(c: &Vec<(i32, i32)>, a: usize, b: usize) -> (r: bool)
    requires
        a < c@.len(),
        b < c@.len(),
    ensures
        r == visit_before(c@, a as int, b as int),
{
    let ra = ring_span_of(c[a].0, c[a].1);
    let rb = ring_span_of(c[b].0, c[b].1);
    ra < rb || (ra == rb && c[a].0 < c[b].0) || (ra == rb && c[a].0 == c[b].0 && c[a].1 < c[b].1)
        || (ra == rb && c[a].0 == c[b].0 && c[a].1 == c[b].1 && a < b)
}

/// The order in which region files at the given coordinates are visited:
/// nearest the origin first, by Chebyshev ring, then by x, then by z.
pub fn region_visit_order(coords: &Vec<(i32, i32)>) -> (o: Vec<usize>)
    ensures
        visit_order_ok(coords@, o@),
{
    let c = coords;
    let mut o: Vec<usize> = Vec::new();
    let mut i: usize = 0;
    while i < c.len()
        invariant
            i <= c@.len(),
            forall|k: int| 0 <= k < o@.len() ==> o@[k] < i,
            forall|k1: int, k2: int|
                0 <= k1 < k2 < o@.len() ==> visit_before(c@, o@[k1] as int, o@[k2] as int),
            forall|j: int| 0 <= j < i ==> #[trigger] o@.contains(j as usize),
        decreases c@.len() - i,
    {
        let mut p: usize = 0;
        while p < o.len() && !visits_before(c, i, o[p])
            invariant
                i < c@.len(),
                p <= o@.len(),
                forall|k: int| 0 <= k < o@.len() ==> o@[k] < i,
                forall|k: int| 0 <= k < p ==> !visit_before(c@, i as int, o@[k] as int),
            decreases o@.len() - p,
        {
            p = p + 1;
        }
        let ghost before = o@;
        o.insert(p, i);
        proof {
            assert forall|k1: int, k2: int|
                0 <= k1 < k2 < o@.len() implies visit_before(c@, o@[k1] as int, o@[k2] as int) by {
                if k1 < p && k2 == p {
                    assert(!visit_before(c@, i as int, before[k1] as int));
                    assert(before[k1] < i);
                } else if k1 == p && k2 > p {
                    assert(visit_before(c@, i as int, before[p as int] as int));
                    if k2 - 1 > p {
                        assert(visit_before(c@, before[p as int] as int, before[k2 - 1] as int));
                    }
                }
            }
            assert forall|j: int| 0 <= j < i + 1 implies #[trigger] o@.contains(j as usize) by {
                if j < i {
                    assert(before.contains(j as usize));
                    let k = choose|k: int| 0 <= k < before.len() && before[k] == j as usize;
                    if k < p {
                        assert(o@[k] == j as usize);
                    } else {
                        assert(o@[k + 1] == j as usize);
                    }
                } else {
                    assert(o@[p as int] == i);
                }
            }
        }
        i = i + 1;
    }
    o
}

} // verus!
