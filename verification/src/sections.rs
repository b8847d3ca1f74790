use vstd::prelude::*;
use std::collections::VecDeque;
use crate::bitmap::{bit_of, BitMap};
use crate::froggy::{choose_str, froggy_gen, gen_pos, gen_str, pos_key_hash, str_key_hash, subrand, subrand_key_hash, unit_below};
use crate::game::CoordPos;
use crate::icy::BlockMap;
use crate::icy_graph::{graph_map_ok, lemma_verdict_of, verdict_of, verify_ice_graph, VerifyResult};
use crate::map::{IcyDescr, LavaDescr, PathDescr, Row, RowId, RowType};
use crate::rng::{spec_choice_index, spec_split_mix_64, split_mix_64};

verus! {

/// The fast generator value for an integer key: SplitMix64 at the seed plus the key.
pub open spec fn spec_gen_perf(seed: u64, key: i32) -> u64 {
    spec_split_mix_64(seed.wrapping_add(key as u64))
}

fn gen_perf(seed: u64, key: i32) -> (r: u64)
    ensures
        r == spec_gen_perf(seed, key),
{
    let index = seed.wrapping_add(key as u64);
    split_mix_64(index)
}

/// Tile `(x, y)` of a fresh icy map is blocked: it lies between the walls and its generator
/// value falls under 0.6.
pub open spec fn ice_start_blocked(seed: u64, full_width: int, wall_width: int, x: int, y: int) -> bool {
    &&& 0 <= x < full_width
    &&& !(x < wall_width || x > full_width - wall_width)
    &&& unit_below(froggy_gen(seed, pos_key_hash(x as i32, y as i32)), 600_000)
}

/// `row` with bit `x` set for each `x < n` where `f(x)` holds.
pub open spec fn or_bits(row: u64, f: spec_fn(int) -> bool, n: int) -> u64
    decreases n,
{
    if n <= 0 {
        row
    } else {
        let r = or_bits(row, f, n - 1);
        if f(n - 1) {
            r | (1u64 << ((n - 1) as u64))
        } else {
            r
        }
    }
}

/// `row` with bit `x` cleared for each `x < n` where `f(x)` holds.
pub open spec fn clear_bits(row: u64, f: spec_fn(int) -> bool, n: int) -> u64
    decreases n,
{
    if n <= 0 {
        row
    } else {
        let r = clear_bits(row, f, n - 1);
        if f(n - 1) {
            r & (r ^ (1u64 << ((n - 1) as u64)))
        } else {
            r
        }
    }
}

/// The tiles of row `y` of a fresh map that are blocked.
pub open spec fn start_pred(seed: u64, full_width: int, wall_width: int, y: int) -> spec_fn(int) -> bool {
    |x: int| ice_start_blocked(seed, full_width, wall_width, x, y)
}

/// The rows of a fresh icy map.
pub open spec fn fresh_rows(seed: u64, full_width: int, wall_width: int, height: int) -> Seq<BitMap> {
    Seq::new(height as nat, |y: int| BitMap { inner: or_bits(0, start_pred(seed, full_width, wall_width, y), full_width) })
}

/// A fresh icy map of `height` rows.
fn generate_ice_single(seed: u64, full_width: i32, wall_width: i32, height: i32) -> (m: BlockMap)
    requires
        0 <= wall_width <= full_width <= 64,
        0 <= height <= 64,
    ensures
        m.full_width == full_width,
        m.wall_width == wall_width,
        m.inner@.len() == height,
        m.inner@ == fresh_rows(seed, full_width as int, wall_width as int, height as int),
        forall|y: int, x: int| 0 <= y < height && 0 <= x < 64 ==> #[trigger] m.inner@[y].spec_get(x) == ice_start_blocked(
            seed,
            full_width as int,
            wall_width as int,
            x,
            y,
        ),
{
    let mut inner: Vec<BitMap> = Vec::new();
    let mut y: i32 = 0;
    while y < height
        invariant
            0 <= y <= height <= 64,
            0 <= wall_width <= full_width <= 64,
            inner@.len() == y,
            forall|yy: int| 0 <= yy < y ==> #[trigger] inner@[yy] == fresh_rows(seed, full_width as int, wall_width as int, height as int)[yy],
            forall|yy: int, x: int| 0 <= yy < y && 0 <= x < 64 ==> #[trigger] inner@[yy].spec_get(x) == ice_start_blocked(
                seed,
                full_width as int,
                wall_width as int,
                x,
                yy,
            ),
        decreases height - y,
    {
        let mut row_map = BitMap::default();
        let mut x: i32 = 0;
        while x < full_width
            invariant
                0 <= x <= full_width <= 64,
                0 <= wall_width <= full_width,
                0 <= y < height,
                row_map.inner == or_bits(0, start_pred(seed, full_width as int, wall_width as int, y as int), x as int),
                forall|xx: int| 0 <= xx < 64 ==> #[trigger] row_map.spec_get(xx) == (xx < x && ice_start_blocked(
                    seed,
                    full_width as int,
                    wall_width as int,
                    xx,
                    y as int,
                )),
            decreases full_width - x,
        {
            if x < wall_width || x > full_width - wall_width {
                x += 1;
                continue;
            }
            let pos = CoordPos::new(x, y);
            let g = gen_pos(seed, pos);
            if g % 1_000_000 < 600_000 {
                row_map.set_bit(x);
            }
            x += 1;
        }
        inner.push(row_map);
        y += 1;
    }
    proof {
        assert(inner@ =~= fresh_rows(seed, full_width as int, wall_width as int, height as int));
    }
    BlockMap { full_width, wall_width, inner }
}

/// The fast generator at `key` falls under 0.15.
pub open spec fn perf_below(seed: u64, key: int) -> bool {
    unit_below(spec_gen_perf(seed, key as i32), 150_000)
}

/// The key of tile `(x, y)` in removal pass `j`; the adding pass uses the next key.
pub open spec fn pass_key(j: int, x: int, y: int) -> int {
    j * 1024 + x + y * 128
}

/// The tiles of row `y` that removal pass `j` clears.
pub open spec fn thin_pred(seed: u64, j: int, y: int) -> spec_fn(int) -> bool {
    |x: int| perf_below(seed, pass_key(j, x, y))
}

/// The tiles of row `y` that adding pass `j` blocks.
pub open spec fn fill_pred(seed: u64, j: int, y: int) -> spec_fn(int) -> bool {
    |x: int| perf_below(seed, 1 + pass_key(j, x, y))
}

/// The rows after removal pass `j` over the first `full_width` columns.
pub open spec fn thinned(rows: Seq<BitMap>, seed: u64, j: int, full_width: int) -> Seq<BitMap> {
    Seq::new(rows.len(), |y: int| BitMap { inner: clear_bits(rows[y].inner, thin_pred(seed, j, y), full_width) })
}

/// The rows after adding pass `j` over the first `full_width` columns.
pub open spec fn filled(rows: Seq<BitMap>, seed: u64, j: int, full_width: int) -> Seq<BitMap> {
    Seq::new(rows.len(), |y: int| BitMap { inner: or_bits(rows[y].inner, fill_pred(seed, j, y), full_width) })
}

/// Opens up the map: every tile of the first `width` columns whose pass value falls under
/// 0.15 is cleared.
fn thin_out(map: &mut BlockMap, seed: u64, j: i32, height: i32)
    requires
        0 <= j < 8,
        0 <= old(map).full_width <= 20,
        0 <= height <= 64,
        height == old(map).inner@.len(),
    ensures
        final(map).full_width == old(map).full_width,
        final(map).wall_width == old(map).wall_width,
        final(map).inner@.len() == old(map).inner@.len(),
        final(map).inner@ == thinned(old(map).inner@, seed, j as int, old(map).full_width as int),
        forall|y: int, x: int| 0 <= y < height && 0 <= x < 64 ==> #[trigger] final(map).inner@[y].spec_get(x) == (old(map).inner@[y].spec_get(x)
            && !(x < old(map).full_width && perf_below(seed, pass_key(j as int, x, y)))),
{
    let mut y: i32 = 0;
    while y < height
        invariant
            0 <= j < 8,
            0 <= y <= height <= 64,
            height == map.inner@.len(),
            height == old(map).inner@.len(),
            map.full_width == old(map).full_width,
            map.wall_width == old(map).wall_width,
            0 <= map.full_width <= 20,
            forall|yy: int| 0 <= yy < height ==> #[trigger] map.inner@[yy] == if yy < y {
                thinned(old(map).inner@, seed, j as int, old(map).full_width as int)[yy]
            } else {
                old(map).inner@[yy]
            },
            forall|yy: int, x: int| 0 <= yy < height && 0 <= x < 64 ==> #[trigger] map.inner@[yy].spec_get(x) == if yy < y {
                old(map).inner@[yy].spec_get(x) && !(x < old(map).full_width && perf_below(seed, pass_key(j as int, x, yy)))
            } else {
                old(map).inner@[yy].spec_get(x)
            },
        decreases height - y,
    {
        let mut row = map.inner[y as usize];
        let ghost row0 = row;
        let mut x: i32 = 0;
        while x < map.full_width
            invariant
                0 <= j < 8,
                0 <= y < height <= 64,
                0 <= x <= map.full_width <= 20,
                map.full_width == old(map).full_width,
                row0 == old(map).inner@[y as int],
                row.inner == clear_bits(row0.inner, thin_pred(seed, j as int, y as int), x as int),
                forall|xx: int| 0 <= xx < 64 ==> #[trigger] row.spec_get(xx) == (row0.spec_get(xx) && !(xx < x && perf_below(seed, pass_key(j as int, xx, y as int)))),
            decreases map.full_width - x,
        {
            let key = j * 1024 + x + y * 128;
            let g = gen_perf(seed, key);
            let ghost r = row.inner;
            proof {
                assert(pass_key(j as int, x as int, y as int) == key);
                assert(thin_pred(seed, j as int, y as int)(x as int) == (g % 1_000_000 < 150_000));
                assert(clear_bits(row0.inner, thin_pred(seed, j as int, y as int), x + 1) == if g % 1_000_000 < 150_000 {
                    r & (r ^ (1u64 << (x as u64)))
                } else {
                    r
                });
            }
            if g % 1_000_000 < 150_000 {
                row.unset_bit(x);
            }
            x += 1;
        }
        proof {
            assert(row == BitMap { inner: row.inner });
            assert(thinned(old(map).inner@, seed, j as int, old(map).full_width as int)[y as int] == row);
        }
        map.inner.set(y as usize, row);
        y += 1;
    }
    proof {
        assert(map.inner@ =~= thinned(old(map).inner@, seed, j as int, old(map).full_width as int));
    }
}

/// Closes up the map: every tile of the first `width` columns whose pass value falls under
/// 0.15 is blocked.
fn fill_in(map: &mut BlockMap, seed: u64, j: i32, height: i32)
    requires
        0 <= j < 8,
        0 <= old(map).full_width <= 20,
        0 <= height <= 64,
        height == old(map).inner@.len(),
    ensures
        final(map).full_width == old(map).full_width,
        final(map).wall_width == old(map).wall_width,
        final(map).inner@.len() == old(map).inner@.len(),
        final(map).inner@ == filled(old(map).inner@, seed, j as int, old(map).full_width as int),
        forall|y: int, x: int| 0 <= y < height && 0 <= x < 64 ==> #[trigger] final(map).inner@[y].spec_get(x) == (old(map).inner@[y].spec_get(x)
            || (x < old(map).full_width && perf_below(seed, 1 + pass_key(j as int, x, y)))),
{
    let mut y: i32 = 0;
    while y < height
        invariant
            0 <= j < 8,
            0 <= y <= height <= 64,
            height == map.inner@.len(),
            height == old(map).inner@.len(),
            map.full_width == old(map).full_width,
            map.wall_width == old(map).wall_width,
            0 <= map.full_width <= 20,
            forall|yy: int| 0 <= yy < height ==> #[trigger] map.inner@[yy] == if yy < y {
                filled(old(map).inner@, seed, j as int, old(map).full_width as int)[yy]
            } else {
                old(map).inner@[yy]
            },
            forall|yy: int, x: int| 0 <= yy < height && 0 <= x < 64 ==> #[trigger] map.inner@[yy].spec_get(x) == if yy < y {
                old(map).inner@[yy].spec_get(x) || (x < old(map).full_width && perf_below(seed, 1 + pass_key(j as int, x, yy)))
            } else {
                old(map).inner@[yy].spec_get(x)
            },
        decreases height - y,
    {
        let mut row = map.inner[y as usize];
        let ghost row0 = row;
        let mut x: i32 = 0;
        while x < map.full_width
            invariant
                0 <= j < 8,
                0 <= y < height <= 64,
                0 <= x <= map.full_width <= 20,
                map.full_width == old(map).full_width,
                row0 == old(map).inner@[y as int],
                row.inner == or_bits(row0.inner, fill_pred(seed, j as int, y as int), x as int),
                forall|xx: int| 0 <= xx < 64 ==> #[trigger] row.spec_get(xx) == (row0.spec_get(xx) || (xx < x && perf_below(seed, 1 + pass_key(j as int, xx, y as int)))),
            decreases map.full_width - x,
        {
            let key = 1 + j * 1024 + x + y * 128;
            let g = gen_perf(seed, key);
            let ghost r = row.inner;
            proof {
                assert(1 + pass_key(j as int, x as int, y as int) == key);
                assert(fill_pred(seed, j as int, y as int)(x as int) == (g % 1_000_000 < 150_000));
                assert(or_bits(row0.inner, fill_pred(seed, j as int, y as int), x + 1) == if g % 1_000_000 < 150_000 {
                    r | (1u64 << (x as u64))
                } else {
                    r
                });
            }
            if g % 1_000_000 < 150_000 {
                row.set_bit(x);
            }
            x += 1;
        }
        proof {
            assert(row == BitMap { inner: row.inner });
            assert(filled(old(map).inner@, seed, j as int, old(map).full_width as int)[y as int] == row);
        }
        map.inner.set(y as usize, row);
        y += 1;
    }
    proof {
        assert(map.inner@ =~= filled(old(map).inner@, seed, j as int, old(map).full_width as int));
    }
}


/// The height of the icy section that `seed` chooses.
pub open spec fn icy_height(seed: u64) -> i32 {
    seq![5i32, 7i32, 7i32, 9i32, 9i32, 13i32][spec_choice_index(froggy_gen(seed, str_key_hash("ice_len"@)), 6)]
}

/// The rows of an icy section with blocks `blocks`, from row `row0` up, newest first.
pub open spec fn icy_rows(blocks: Seq<BitMap>, row0: u32, icy_seed: u32, h: int) -> Seq<Row> {
    Seq::new(
        h as nat,
        |t: int|
            Row {
                row_id: RowId((row0 + (h - 1 - t)) as u32),
                row_type: RowType::IcyRow(
                    IcyDescr {
                        path_descr: PathDescr { wall_width: 4 },
                        seed: icy_seed,
                        y: RowId((row0 + (h - 1 - t)) as u32).spec_to_y(),
                        blocks: blocks[h - 1 - t],
                    },
                ),
            },
    )
}

/// The seed of the rows of an icy section found on attempt `i`.
pub open spec fn icy_seed_of(seed: u64, i: i32) -> u32 {
    froggy_gen(subrand_key_hash(i, seed), str_key_hash("icy_seed"@)) as u32
}

/// Refining a twenty-wide map with walls of four from pass `j` on: the rows where the check
/// passes, nothing where a reachable tile cannot lead back or after the eighth pass; a map
/// that no path crosses is opened up, one that a slide crosses straight is closed up.
pub open spec fn icy_attempt(rows: Seq<BitMap>, sub: u64, j: int) -> Option<Seq<BitMap>>
    decreases 8 - j,
{
    if j < 0 || j >= 8 {
        None
    } else {
        match verdict_of(20, 4, rows) {
            VerifyResult::Success => Some(rows),
            VerifyResult::Bad_Zork => None,
            VerifyResult::Bad_DoesntReachEnd => icy_attempt(thinned(rows, sub, j, 20), sub, j + 1),
            VerifyResult::Bad_Trivial => icy_attempt(filled(rows, sub, j, 20), sub, j + 1),
        }
    }
}

/// The first of the attempts from `i` up to 256 whose fresh map refines to a passing one, and
/// its rows.
pub open spec fn icy_search(seed: u64, height: int, i: int) -> Option<(i32, Seq<BitMap>)>
    decreases 256 - i,
{
    if i < 0 || i >= 256 {
        None
    } else {
        let sub = subrand_key_hash(i as i32, seed);
        match icy_attempt(fresh_rows(sub, 20, 4, height), sub, 0) {
            Some(rows) => Some((i as i32, rows)),
            None => icy_search(seed, height, i + 1),
        }
    }
}

/// Searches for an icy section from row `row_id_0` up: each of up to 256 attempts starts from a
/// fresh map of the chosen height and, up to eight times, opens it up where no path reaches the
/// top, closes it up where a slide goes straight through, and gives up where some reachable
/// tile cannot lead back. The first map that passes is put on `rows`.
pub fn try_gen_icy_section(seed: u64, row_id_0: RowId, rows: &mut VecDeque<Row>) -> (r: bool)
    requires
        row_id_0.0 + 13 <= i32::MAX,
    ensures
        match icy_search(seed, icy_height(seed) as int, 0) {
            Some((i, blocks)) => r && final(rows)@ == icy_rows(blocks, row_id_0.0, icy_seed_of(seed, i), icy_height(seed) as int)
                + old(rows)@,
            None => !r && final(rows)@ == old(rows)@,
        },
{
    let height = choose_str(seed, "ice_len", &[5i32, 7, 7, 9, 9, 13]);
    proof {
        let k = spec_choice_index(froggy_gen(seed, str_key_hash("ice_len"@)), 6);
        assert(0 <= k < 6);
        assert(height == icy_height(seed));
        assert(5 <= height <= 13);
    }
    let ghost target = icy_search(seed, height as int, 0);
    let mut i: i32 = 0;
    while i < 256
        invariant
            0 <= i <= 256,
            height == icy_height(seed),
            5 <= height <= 13,
            row_id_0.0 + 13 <= i32::MAX,
            rows@ == old(rows)@,
            target == icy_search(seed, height as int, 0),
            icy_search(seed, height as int, i as int) == target,
        decreases 256 - i,
    {
        let sub = subrand(seed, i);
        let mut map = generate_ice_single(sub, 20, 4, height);
        let ghost first = map.inner@;
        let mut j: i32 = 0;
        let mut abandoned = false;
        while j < 8 && !abandoned
            invariant
                0 <= j <= 8,
                0 <= i < 256,
                height == icy_height(seed),
                5 <= height <= 13,
                row_id_0.0 + 13 <= i32::MAX,
                rows@ == old(rows)@,
                target == icy_search(seed, height as int, 0),
                icy_search(seed, height as int, i as int) == target,
                sub == subrand_key_hash(i, seed),
                first == fresh_rows(sub, 20, 4, height as int),
                map.full_width == 20,
                map.wall_width == 4,
                map.inner@.len() == height,
                abandoned ==> icy_attempt(first, sub, 0) is None,
                !abandoned ==> icy_attempt(first, sub, 0) == icy_attempt(map.inner@, sub, j as int),
            decreases 8 - j,
        {
            proof {
                assert(graph_map_ok(&map));
                lemma_verdict_of(&map);
            }
            match verify_ice_graph(&map) {
                VerifyResult::Bad_Zork => {
                    abandoned = true;
                },
                VerifyResult::Bad_DoesntReachEnd => {
                    thin_out(&mut map, sub, j, height);
                },
                VerifyResult::Bad_Trivial => {
                    fill_in(&mut map, sub, j, height);
                },
                VerifyResult::Success => {
                    let icy_seed = gen_str(sub, "icy_seed") as u32;
                    let ghost before = rows@;
                    let mut row: i32 = 0;
                    while row < height
                        invariant
                            0 <= row <= height <= 13,
                            row_id_0.0 + 13 <= i32::MAX,
                            map.inner@.len() == height,
                            rows@ == icy_rows(map.inner@, row_id_0.0, icy_seed, height as int).subrange(height - row, height as int) + before,
                        decreases height - row,
                    {
                        let rid = RowId(row_id_0.0 + row as u32);
                        let y = rid.to_y();
                        let blocks = map.inner[row as usize];
                        rows.push_front(Row {
                            row_id: rid,
                            row_type: RowType::IcyRow(IcyDescr { path_descr: PathDescr { wall_width: 4 }, seed: icy_seed, y, blocks }),
                        });
                        proof {
                            let all = icy_rows(map.inner@, row_id_0.0, icy_seed, height as int);
                            assert(all[height - row - 1].row_id == rid);
                            assert(all.subrange(height - (row + 1), height as int) =~= seq![all[height - row - 1]] + all.subrange(
                                height - row,
                                height as int,
                            ));
                        }
                        row += 1;
                    }
                    proof {
                        let all = icy_rows(map.inner@, row_id_0.0, icy_seed, height as int);
                        assert(all.subrange(0, height as int) =~= all);
                        assert(icy_attempt(map.inner@, sub, j as int) == Some(map.inner@));
                        assert(icy_search(seed, height as int, i as int) == Some((i, map.inner@)));
                        assert(icy_seed == icy_seed_of(seed, i));
                    }
                    return true;
                },
            }
            j += 1;
        }
        proof {
            assert(icy_attempt(first, sub, 0) is None);
            assert(icy_search(seed, height as int, i as int) == icy_search(seed, height as int, i + 1));
        }
        i += 1;
    }
    false
}

/// Every tile blocked in `a` is blocked in `b`.
pub open spec fn rows_within(a: Seq<BitMap>, b: Seq<BitMap>) -> bool {
    &&& a.len() == b.len()
    &&& forall|y: int, x: int| 0 <= y < a.len() && 0 <= x < 64 && (#[trigger] a[y].spec_get(x)) ==> b[y].spec_get(x)
}

proof fn lemma_clear_bits_within(row: u64, f: spec_fn(int) -> bool, n: int, x: u64)
    requires
        x < 64,
        n <= 64,
    ensures
        bit_of(clear_bits(row, f, n), x) ==> bit_of(row, x),
    decreases n,
{
    if n > 0 {
        lemma_clear_bits_within(row, f, n - 1, x);
        let r = clear_bits(row, f, n - 1);
        let k = (n - 1) as u64;
        assert(bit_of(r & (r ^ (1u64 << k)), x) ==> bit_of(r, x)) by (bit_vector)
            requires
                x < 64,
                k < 64,
        ;
    }
}

proof fn lemma_or_bits_within(row: u64, f: spec_fn(int) -> bool, n: int, x: u64)
    requires
        x < 64,
        n <= 64,
    ensures
        bit_of(row, x) ==> bit_of(or_bits(row, f, n), x),
    decreases n,
{
    if n > 0 {
        lemma_or_bits_within(row, f, n - 1, x);
        let r = or_bits(row, f, n - 1);
        let k = (n - 1) as u64;
        assert(bit_of(r, x) ==> bit_of(r | (1u64 << k), x)) by (bit_vector)
            requires
                x < 64,
                k < 64,
        ;
    }
}

/// Refining a map goes the way its verdict asks: a map that no path crosses is only opened up
/// (the next map's blocks are among its own), and a map that a slide crosses straight is only
/// closed up (its blocks are among the next map's), before the next pass.
pub proof fn law_refinement_direction(rows: Seq<BitMap>, sub: u64, j: int)
    requires
        0 <= j < 8,
    ensures
        verdict_of(20, 4, rows) == VerifyResult::Bad_DoesntReachEnd ==> {
            &&& icy_attempt(rows, sub, j) == icy_attempt(thinned(rows, sub, j, 20), sub, j + 1)
            &&& rows_within(thinned(rows, sub, j, 20), rows)
        },
        verdict_of(20, 4, rows) == VerifyResult::Bad_Trivial ==> {
            &&& icy_attempt(rows, sub, j) == icy_attempt(filled(rows, sub, j, 20), sub, j + 1)
            &&& rows_within(rows, filled(rows, sub, j, 20))
        },
        verdict_of(20, 4, rows) == VerifyResult::Success ==> icy_attempt(rows, sub, j) == Some(rows),
        verdict_of(20, 4, rows) == VerifyResult::Bad_Zork ==> icy_attempt(rows, sub, j) is None,
{
    let t = thinned(rows, sub, j, 20);
    let f = filled(rows, sub, j, 20);
    assert forall|y: int, x: int| 0 <= y < t.len() && 0 <= x < 64 && (#[trigger] t[y].spec_get(x)) implies rows[y].spec_get(x) by {
        lemma_clear_bits_within(rows[y].inner, thin_pred(sub, j, y), 20, x as u64);
    }
    assert forall|y: int, x: int| 0 <= y < rows.len() && 0 <= x < 64 && (#[trigger] rows[y].spec_get(x)) implies f[y].spec_get(x) by {
        lemma_or_bits_within(rows[y].inner, fill_pred(sub, j, y), 20, x as u64);
    }
}

proof fn lemma_attempt_passes(rows: Seq<BitMap>, sub: u64, j: int)
    ensures
        icy_attempt(rows, sub, j) matches Some(b) ==> verdict_of(20, 4, b) == VerifyResult::Success && b.len() == rows.len(),
    decreases 8 - j,
{
    if 0 <= j < 8 {
        lemma_attempt_passes(thinned(rows, sub, j, 20), sub, j + 1);
        lemma_attempt_passes(filled(rows, sub, j, 20), sub, j + 1);
    }
}

/// An icy section that the search finds passes the slide check and has the height asked for,
/// and comes from one of the 256 attempts.
pub proof fn law_found_section_passes(seed: u64, height: int, i: int)
    requires
        0 <= height,
    ensures
        icy_search(seed, height, i) matches Some((k, blocks)) ==> {
            &&& verdict_of(20, 4, blocks) == VerifyResult::Success
            &&& blocks.len() == height
            &&& i <= k < 256
        },
    decreases 256 - i,
{
    if 0 <= i < 256 {
        let sub = subrand_key_hash(i as i32, seed);
        lemma_attempt_passes(fresh_rows(sub, 20, 4, height), sub, 0);
        law_found_section_passes(seed, height, i + 1);
    }
}

/// The height of the lava section that `seed` chooses.
pub open spec fn lava_height(seed: u64) -> i32 {
    seq![3i32, 5i32, 5i32, 7i32, 7i32, 9i32][spec_choice_index(froggy_gen(seed, str_key_hash("lava_len"@)), 6)]
}

/// Puts a lava section of the chosen height on `rows`, from row `row_id_0` up, with no lava and
/// no blocks yet.
pub fn try_gen_lava_section(seed: u64, row_id_0: RowId, rows: &mut VecDeque<Row>) -> (r: bool)
    requires
        row_id_0.0 + 9 <= i32::MAX,
    ensures
        r,
        final(rows)@ == Seq::new(
            lava_height(seed) as nat,
            |t: int|
                {
                    let rid = RowId((row_id_0.0 + (lava_height(seed) - 1 - t)) as u32);
                    Row {
                        row_id: rid,
                        row_type: RowType::LavaRow(
                            LavaDescr {
                                path_descr: PathDescr { wall_width: 4 },
                                seed,
                                y: rid.spec_to_y(),
                                lava: BitMap { inner: 0 },
                                blocks: BitMap { inner: 0 },
                            },
                        ),
                    }
                },
        ) + old(rows)@,
{
    let height = choose_str(seed, "lava_len", &[3i32, 5, 5, 7, 7, 9]);
    let ghost h = lava_height(seed);
    let ghost all = Seq::new(
        h as nat,
        |t: int|
            {
                let rid = RowId((row_id_0.0 + (h - 1 - t)) as u32);
                Row {
                    row_id: rid,
                    row_type: RowType::LavaRow(
                        LavaDescr {
                            path_descr: PathDescr { wall_width: 4 },
                            seed,
                            y: rid.spec_to_y(),
                            lava: BitMap { inner: 0 },
                            blocks: BitMap { inner: 0 },
                        },
                    ),
                }
            },
    );
    proof {
        let k = spec_choice_index(froggy_gen(seed, str_key_hash("lava_len"@)), 6);
        assert(0 <= k < 6);
        assert(height == h);
    }
    let ghost before = rows@;
    let mut i: i32 = 0;
    while i < height
        invariant
            0 <= i <= height <= 9,
            height == h,
            row_id_0.0 + 9 <= i32::MAX,
            all.len() == h,
            forall|t: int| 0 <= t < h ==> #[trigger] all[t] == ({
                let rid = RowId((row_id_0.0 + (h - 1 - t)) as u32);
                Row {
                    row_id: rid,
                    row_type: RowType::LavaRow(
                        LavaDescr {
                            path_descr: PathDescr { wall_width: 4 },
                            seed,
                            y: rid.spec_to_y(),
                            lava: BitMap { inner: 0 },
                            blocks: BitMap { inner: 0 },
                        },
                    ),
                }
            }),
            rows@ == all.subrange(height - i, height as int) + before,
        decreases height - i,
    {
        let rid = RowId(row_id_0.0 + i as u32);
        let y = rid.to_y();
        rows.push_front(Row {
            row_id: rid,
            row_type: RowType::LavaRow(
                LavaDescr { path_descr: PathDescr { wall_width: 4 }, seed, y, lava: BitMap::default(), blocks: BitMap::default() },
            ),
        });
        proof {
            assert(all[height - i - 1].row_id == rid);
            assert(all.subrange(height - (i + 1), height as int) =~= seq![all[height - i - 1]] + all.subrange(height - i, height as int));
        }
        i += 1;
    }
    proof {
        assert(all.subrange(0, height as int) =~= all);
    }
    true
}

} // verus!
