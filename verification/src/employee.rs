//! The casino-floor employee and the vault-code note: the employee paces a
//! short fixed loop of Lobby tiles, and the code note lies beside where it
//! starts.

use vstd::prelude::*;

use crate::level::map::{LevelMap, RoomKind};
use crate::rng::{choose_tiles, seeded_rng};
use crate::seed::RunSeed;

verus! {

/// How many waypoints the employee's loop cycles through.
pub const ROUTE_WAYPOINTS: usize = 3;

/// Room `k` is the first Lobby.
pub open spec fn first_lobby(map: &LevelMap, k: int) -> bool {
    &&& 0 <= k < map.room_list().len()
    &&& map.room_list()[k].kind == RoomKind::Lobby
    &&& forall|j: int| 0 <= j < k ==> map.room_list()[j].kind != RoomKind::Lobby
}

/// The employee's route — a few distinct tiles of the first Lobby, drawn
/// from the `"employee"` stream — and the tile of the code note, which lies
/// on the route's first tile. `None` without a Lobby, or when the Lobby has
/// fewer than two tiles to pace between.
pub fn employee_route(map: &LevelMap, run_seed: &RunSeed) -> (r: Option<(Vec<(usize, usize)>, (usize, usize))>)
    ensures
        (forall|k: int| 0 <= k < map.room_list().len() ==> (#[trigger] map.room_list()[k]).kind != RoomKind::Lobby)
            ==> r is None,
        forall|k: int| #[trigger] first_lobby(map, k) ==> {
            let tiles = map.room_list()[k].tiles@;
            let n = if ROUTE_WAYPOINTS < tiles.len() { ROUTE_WAYPOINTS as int } else { tiles.len() as int };
            &&& n < 2 ==> r is None
            &&& n >= 2 ==> (r matches Some((route, note)) && route@.len() == n
                && route@.to_multiset().subset_of(tiles.to_multiset()) && note == route@[0])
        },
{
    let rooms = map.rooms();
    let mut k: usize = 0;
    while k < rooms.len() && rooms[k].kind != RoomKind::Lobby
        invariant
            rooms@ == map.room_list(),
            0 <= k <= rooms@.len(),
            forall|j: int| 0 <= j < k ==> (#[trigger] rooms@[j]).kind != RoomKind::Lobby,
        decreases rooms@.len() - k,
    {
        k = k + 1;
    }
    if k == rooms.len() {
        return None;
    }
    proof {
        assert forall|j: int| #[trigger] first_lobby(map, j) implies j == k as int by {
            if j < k {
            } else if j > k {
                assert(map.room_list()[k as int].kind == RoomKind::Lobby);
            }
        }
    }
    let mut rng = seeded_rng(run_seed.derive("employee"));
    let picks = choose_tiles(&mut rng, &rooms[k].tiles, ROUTE_WAYPOINTS);
    if picks.len() < 2 {
        return None;
    }
    let note = picks[0];
    Some((picks, note))
}

/// The waypoint after `index` on a route of `len` waypoints, wrapping round.
pub fn next_waypoint(index: usize, len: usize) -> (n: usize)
    requires
        index < len,
    ensures
        n == (index + 1) % (len as int),
        n < len,
{
    (index + 1) % len
}

} // verus!
