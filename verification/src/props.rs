//! Decorative props (barrels, chests, coins, rocks, columns) scattered over
//! the dungeon floor: which kinds there are, which tiles may hold one, and
//! which prop lands on which tile.

use rand::rngs::SmallRng;

use vstd::prelude::*;
use vstd::seq_lib::group_to_multiset_ensures;

use crate::dungeon::{tile_at, DungeonMap};
use crate::grid::{cell, row_major_lt};
use crate::level::map::{LevelMap, Tile};
use crate::rng::{seeded_rng, shuffle_tiles};
use crate::seed::RunSeed;

verus! {

/// Don't place props within this tile radius of the player's spawn.
pub const SPAWN_CLEARANCE: usize = 2;

/// A prop model and exactly how many of it to scatter across the dungeon.
#[derive(Clone, Copy, Debug)]
pub struct PropKind {
    pub asset: &'static str,
    pub count: usize,
    /// Coins float and spin; everything else sits on the floor.
    pub coin: bool,
}

/// How many props of kind `k` the table asks for.
pub open spec fn prop_count(k: int) -> nat {
    if k == 0 {
        30
    } else if k == 1 {
        16
    } else if k == 2 {
        16
    } else if k == 3 {
        12
    } else if k == 4 {
        6
    } else if k == 5 {
        4
    } else {
        0
    }
}

/// Number of kinds in the prop table.
pub const PROP_KINDS: usize = 6;

/// How many props the kinds before `k` ask for together.
pub open spec fn props_before(k: int) -> nat
    decreases k,
{
    if k <= 0 {
        0
    } else {
        props_before(k - 1) + prop_count(k - 1)
    }
}

/// The prop table, in placement order: coins first, then barrels, rocks,
/// stones, chests and columns.
pub fn prop_kinds() -> (kinds: Vec<PropKind>)
    ensures
        kinds@.len() == PROP_KINDS,
        forall|k: int| 0 <= k < PROP_KINDS ==> (#[trigger] kinds@[k]).count == prop_count(k),
        forall|k: int| 0 <= k < PROP_KINDS ==> ((#[trigger] kinds@[k]).coin <==> k == 0),
        kinds@[0].asset@ == "coin.glb"@,
        kinds@[1].asset@ == "barrel.glb"@,
        kinds@[2].asset@ == "rocks.glb"@,
        kinds@[3].asset@ == "stones.glb"@,
        kinds@[4].asset@ == "chest.glb"@,
        kinds@[5].asset@ == "column.glb"@,
{
    vec![
        PropKind { asset: "coin.glb", count: 30, coin: true },
        PropKind { asset: "barrel.glb", count: 16, coin: false },
        PropKind { asset: "rocks.glb", count: 16, coin: false },
        PropKind { asset: "stones.glb", count: 12, coin: false },
        PropKind { asset: "chest.glb", count: 6, coin: false },
        PropKind { asset: "column.glb", count: 4, coin: false },
    ]
}

/// One prop to spawn: the index of its kind in [`prop_kinds`] and its tile.
#[derive(Clone, Copy, Debug)]
pub struct PropPlacement {
    pub kind: usize,
    pub tile: (usize, usize),
}

/// `a` and `b` differ by at most `r`.
pub open spec fn near(a: int, b: int, r: int) -> bool {
    -r <= a - b <= r
}

/// `t` may hold a prop: an in-bounds floor tile outside the clearance square
/// around the spawn.
pub open spec fn prop_site(map: &LevelMap, spawn: (usize, usize), t: (int, int)) -> bool {
    &&& map.in_bounds(t)
    &&& map.tile(t.0, t.1) == Tile::Floor
    &&& !(near(t.0, spawn.0 as int, SPAWN_CLEARANCE as int) && near(
        t.1,
        spawn.1 as int,
        SPAWN_CLEARANCE as int,
    ))
}

/// `a` and `b` differ by at most the spawn clearance.
fn within_clearance(a: usize, b: usize) -> (r: bool)
    ensures
        r == near(a as int, b as int, SPAWN_CLEARANCE as int),
{
    if a >= b {
        a - b <= SPAWN_CLEARANCE
    } else {
        b - a <= SPAWN_CLEARANCE
    }
}

/// Every tile that may hold a prop, in row-major order.
pub fn prop_sites(map: &DungeonMap, spawn: (usize, usize)) -> (tiles: Vec<(usize, usize)>)
    requires
        map.inv(),
    ensures
        forall|k: int| 0 <= k < tiles@.len() ==> prop_site(map, spawn, cell(#[trigger] tiles@[k])),
        forall|k1: int, k2: int|
            0 <= k1 < k2 < tiles@.len() ==> row_major_lt(cell(#[trigger] tiles@[k1]), cell(#[trigger] tiles@[k2])),
        forall|t: (int, int)| #[trigger] prop_site(map, spawn, t) ==> tiles@.contains(tile_at(t)),
{
    let mut tiles: Vec<(usize, usize)> = Vec::new();
    let mut y: usize = 0;
    while y < map.height
        invariant
            map.inv(),
            y <= map.height,
            forall|k: int| 0 <= k < tiles@.len() ==> prop_site(map, spawn, cell(#[trigger] tiles@[k])),
            forall|k1: int, k2: int|
                0 <= k1 < k2 < tiles@.len() ==> row_major_lt(cell(#[trigger] tiles@[k1]), cell(#[trigger] tiles@[k2])),
            forall|k: int| 0 <= k < tiles@.len() ==> (#[trigger] tiles@[k]).1 < y,
            forall|t: (int, int)| #[trigger] prop_site(map, spawn, t) && t.1 < y ==> tiles@.contains(tile_at(t)),
        decreases map.height - y,
    {
        let mut x: usize = 0;
        while x < map.width
            invariant
                map.inv(),
                y < map.height,
                x <= map.width,
                forall|k: int| 0 <= k < tiles@.len() ==> prop_site(map, spawn, cell(#[trigger] tiles@[k])),
                forall|k1: int, k2: int|
                    0 <= k1 < k2 < tiles@.len() ==> row_major_lt(
                        cell(#[trigger] tiles@[k1]),
                        cell(#[trigger] tiles@[k2]),
                    ),
                forall|k: int| 0 <= k < tiles@.len() ==> row_major_lt(cell(#[trigger] tiles@[k]), (x as int, y as int)),
                forall|t: (int, int)|
                    #[trigger] prop_site(map, spawn, t) && row_major_lt(t, (x as int, y as int)) ==> tiles@.contains(
                        tile_at(t),
                    ),
            decreases map.width - x,
        {
            proof {
                crate::grid::lemma_index_in_range(map.width as int, map.height as int, (x as int, y as int));
            }
            if map.is_walkable(x, y) && !(within_clearance(x, spawn.0) && within_clearance(y, spawn.1)) {
                let ghost before = tiles@;
                tiles.push((x, y));
                proof {
                    assert forall|t: (int, int)|
                        #[trigger] prop_site(map, spawn, t) && row_major_lt(t, (x + 1, y as int)) implies tiles@.contains(
                            tile_at(t),
                        ) by {
                        if t == (x as int, y as int) {
                            assert(tiles@[before.len() as int] == tile_at(t));
                        } else {
                            let k = choose|k: int| 0 <= k < before.len() && before[k] == tile_at(t);
                            assert(tiles@[k] == tile_at(t));
                        }
                    }
                }
            } else {
                proof {
                    assert forall|t: (int, int)|
                        #[trigger] prop_site(map, spawn, t) && row_major_lt(t, (x + 1, y as int)) implies tiles@.contains(
                            tile_at(t),
                        ) by {
                        if t == (x as int, y as int) {
                            assert(map.tile(t.0, t.1) == Tile::Floor);
                        }
                    }
                }
            }
            x = x + 1;
        }
        y = y + 1;
    }
    tiles
}

/// Hand the tiles out in order: the first `prop_count(0)` to kind 0, the
/// next `prop_count(1)` to kind 1, and so on, until either the table or the
/// tiles run out.
pub fn assign_props(tiles: &Vec<(usize, usize)>) -> (placements: Vec<PropPlacement>)
    ensures
        placements@.len() == if tiles@.len() < props_before(PROP_KINDS as int) {
            tiles@.len() as int
        } else {
            props_before(PROP_KINDS as int) as int
        },
        forall|i: int|
            0 <= i < placements@.len() ==> (#[trigger] placements@[i]).tile == tiles@[i]
                && placements@[i].kind < PROP_KINDS && props_before(placements@[i].kind as int) <= i
                < props_before(placements@[i].kind + 1),
{
    let kinds = prop_kinds();
    let mut placements: Vec<PropPlacement> = Vec::new();
    let mut next: usize = 0;
    let mut k: usize = 0;
    proof {
        reveal_with_fuel(props_before, 7);
    }
    while k < kinds.len()
        invariant
            kinds@.len() == PROP_KINDS,
            forall|j: int| 0 <= j < PROP_KINDS ==> (#[trigger] kinds@[j]).count == prop_count(j),
            k <= PROP_KINDS,
            next == placements@.len(),
            next == if tiles@.len() < props_before(k as int) {
                tiles@.len() as int
            } else {
                props_before(k as int) as int
            },
            props_before(PROP_KINDS as int) == 84,
            forall|i: int|
                0 <= i < placements@.len() ==> (#[trigger] placements@[i]).tile == tiles@[i]
                    && placements@[i].kind < k && props_before(placements@[i].kind as int) <= i
                    < props_before(placements@[i].kind + 1),
        decreases PROP_KINDS - k,
    {
        let count = kinds[k].count;
        let mut placed: usize = 0;
        proof {
            reveal_with_fuel(props_before, 7);
            assert(props_before(k + 1) == props_before(k as int) + count);
            assert(props_before(k + 1) <= 84);
        }
        while placed < count && next < tiles.len()
            invariant
                k < PROP_KINDS,
                placed <= count,
                count == prop_count(k as int),
                props_before(k + 1) == props_before(k as int) + count,
                props_before(k + 1) <= 84,
                next == placements@.len(),
                next == if tiles@.len() < props_before(k as int) + placed {
                    tiles@.len() as int
                } else {
                    props_before(k as int) + placed
                },
                forall|i: int|
                    0 <= i < placements@.len() ==> (#[trigger] placements@[i]).tile == tiles@[i]
                        && placements@[i].kind <= k && props_before(placements@[i].kind as int) <= i
                        < props_before(placements@[i].kind + 1),
            decreases count - placed,
        {
            let ghost before = placements@;
            placements.push(PropPlacement { kind: k, tile: tiles[next] });
            proof {
                assert forall|i: int| 0 <= i < placements@.len() implies (#[trigger] placements@[i]).tile
                    == tiles@[i] && placements@[i].kind <= k && props_before(placements@[i].kind as int) <= i
                    < props_before(placements@[i].kind + 1) by {
                    if i < before.len() {
                        assert(placements@[i] == before[i]);
                    }
                }
            }
            next = next + 1;
            placed = placed + 1;
        }
        proof {
            assert forall|i: int| 0 <= i < placements@.len() implies (#[trigger] placements@[i]).tile
                == tiles@[i] && placements@[i].kind < k + 1 && props_before(placements@[i].kind as int) <= i
                < props_before(placements@[i].kind + 1) by {}
        }
        k = k + 1;
    }
    placements
}

/// Scatter the props: collect every tile that may hold one, shuffle them
/// with the run's `"props"` generator, and hand them out in table order.
/// The generator is returned to draw each prop's random yaw, in placement
/// order. Whatever the shuffle does, each placement stands on a distinct
/// tile that may hold a prop, the kinds come in table order, and tiles only
/// run out once every such tile holds a prop.
pub fn plan_props(map: &DungeonMap, spawn: (usize, usize), run_seed: &RunSeed) -> (out: (
    Vec<PropPlacement>,
    SmallRng,
))
    requires
        map.inv(),
    ensures
        out.0@.len() <= props_before(PROP_KINDS as int),
        forall|i: int|
            0 <= i < out.0@.len() ==> prop_site(map, spawn, cell((#[trigger] out.0@[i]).tile))
                && out.0@[i].kind < PROP_KINDS && props_before(out.0@[i].kind as int) <= i
                < props_before(out.0@[i].kind + 1),
        forall|i: int, j: int|
            0 <= i < j < out.0@.len() ==> (#[trigger] out.0@[i]).tile != (#[trigger] out.0@[j]).tile,
        out.0@.len() < props_before(PROP_KINDS as int) ==> forall|t: (int, int)|
            #[trigger] prop_site(map, spawn, t) ==> exists|i: int|
                0 <= i < out.0@.len() && (#[trigger] out.0@[i]).tile == tile_at(t),
{
    broadcast use group_to_multiset_ensures;

    let mut rng = seeded_rng(run_seed.derive("props"));
    let mut tiles = prop_sites(map, spawn);
    let ghost sites = tiles@;
    shuffle_tiles(&mut rng, &mut tiles);
    let placements = assign_props(&tiles);
    proof {
        reveal_with_fuel(props_before, 7);
        let sh = tiles@;
        assert(sites.no_duplicates()) by {
            assert forall|i: int, j: int| 0 <= i < sites.len() && 0 <= j < sites.len() && i != j implies sites[i]
                != sites[j] by {
                if i < j {
                    assert(row_major_lt(cell(sites[i]), cell(sites[j])));
                } else {
                    assert(row_major_lt(cell(sites[j]), cell(sites[i])));
                }
            }
        }
        sites.lemma_multiset_has_no_duplicates();
        assert forall|x: (usize, usize)| sh.to_multiset().contains(x) implies sh.to_multiset().count(x) == 1 by {}
        sh.lemma_multiset_has_no_duplicates_conv();
        assert forall|k: int| 0 <= k < sh.len() implies prop_site(map, spawn, cell(#[trigger] sh[k])) by {
            assert(sh.contains(sh[k]));
            assert(sh.to_multiset().count(sh[k]) > 0);
            assert(sites.contains(sh[k]));
            let j = choose|j: int| 0 <= j < sites.len() && sites[j] == sh[k];
            assert(prop_site(map, spawn, cell(sites[j])));
        }
        assert forall|i: int| 0 <= i < placements@.len() implies prop_site(
            map,
            spawn,
            cell((#[trigger] placements@[i]).tile),
        ) by {
            assert(placements@[i].tile == sh[i]);
        }
        assert forall|i: int, j: int| 0 <= i < j < placements@.len() implies (#[trigger] placements@[i]).tile
            != (#[trigger] placements@[j]).tile by {
            assert(placements@[i].tile == sh[i]);
            assert(placements@[j].tile == sh[j]);
        }
        if placements@.len() < props_before(PROP_KINDS as int) {
            assert forall|t: (int, int)| #[trigger] prop_site(map, spawn, t) implies exists|i: int|
                0 <= i < placements@.len() && (#[trigger] placements@[i]).tile == tile_at(t) by {
                assert(sites.contains(tile_at(t)));
                assert(sites.to_multiset().count(tile_at(t)) > 0);
                assert(sh.contains(tile_at(t)));
                let i = choose|i: int| 0 <= i < sh.len() && sh[i] == tile_at(t);
                assert(placements@[i].tile == sh[i]);
            }
        }
    }
    (placements, rng)
}

} // verus!
