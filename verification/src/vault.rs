//! The vault door: a gate that plugs the vault's doorway tile. It opens only
//! for a player who knows the code, stands next to it and is not watched; it
//! re-locks on every loop reset.

use vstd::prelude::*;

use crate::level::map::{LevelMap, RoomKind, Tile};

verus! {

/// The vault door standing on `tile`, and whether it is open this loop.
#[derive(Clone, Copy, Debug)]
pub struct VaultDoor {
    pub tile: (usize, usize),
    pub open: bool,
}

/// Room `k` is the first Vault room.
pub open spec fn first_vault_room(map: &LevelMap, k: int) -> bool {
    &&& 0 <= k < map.room_list().len()
    &&& map.room_list()[k].kind == RoomKind::Vault
    &&& forall|j: int| 0 <= j < k ==> map.room_list()[j].kind != RoomKind::Vault
}

/// Where the vault door goes: the first Vault room's doorway, and whether
/// that doorway sits on the room's left or right edge (so the door turns to
/// span it). `None` without a Vault room, or when it has no doorway.
pub fn door_site(map: &LevelMap) -> (r: Option<((usize, usize), bool)>)
    ensures
        (forall|k: int| 0 <= k < map.room_list().len() ==> (#[trigger] map.room_list()[k]).kind != RoomKind::Vault)
            ==> r is None,
        forall|k: int| #[trigger] first_vault_room(map, k) ==> match map.room_list()[k].doorway {
            None => r is None,
            Some(d) => r == Some((d, d.0 == map.room_list()[k].rect.min_x || d.0 == map.room_list()[k].rect.max_x)),
        },
{
    let rooms = map.rooms();
    let mut k: usize = 0;
    while k < rooms.len() && rooms[k].kind != RoomKind::Vault
        invariant
            rooms@ == map.room_list(),
            0 <= k <= rooms@.len(),
            forall|j: int| 0 <= j < k ==> (#[trigger] rooms@[j]).kind != RoomKind::Vault,
        decreases rooms@.len() - k,
    {
        k = k + 1;
    }
    if k == rooms.len() {
        return None;
    }
    proof {
        assert forall|j: int| #[trigger] first_vault_room(map, j) implies j == k as int by {
            if j < k {
            } else if j > k {
                assert(map.room_list()[k as int].kind == RoomKind::Vault);
            }
        }
    }
    match rooms[k].doorway {
        Some(d) => Some((d, d.0 == rooms[k].rect.min_x || d.0 == rooms[k].rect.max_x)),
        None => None,
    }
}

/// Plug the doorway with a closed gate: the tile becomes wall.
pub fn install_door(map: &mut LevelMap, tile: (usize, usize)) -> (door: VaultDoor)
    requires
        old(map).inv(),
        tile.0 < old(map).width,
        tile.1 < old(map).height,
    ensures
        door.tile == tile,
        !door.open,
        final(map).inv(),
        final(map).width == old(map).width,
        final(map).height == old(map).height,
        final(map).cells() == old(map).cells().update(tile.1 * old(map).width + tile.0, Tile::Wall),
        final(map).tags() == old(map).tags(),
        final(map).room_list() == old(map).room_list(),
{
    proof {
        crate::grid::lemma_index_in_range(map.width as int, map.height as int, (tile.0 as int, tile.1 as int));
    }
    map.set(tile.0, tile.1, Tile::Wall);
    VaultDoor { tile, open: false }
}

/// Try the door: it opens (its tile becoming floor) when it is closed and the
/// player knows the code, is in reach and is not watched. Returns whether it
/// opened.
pub fn open_door(door: &mut VaultDoor, map: &mut LevelMap, knows_code: bool, in_reach: bool, watched: bool) -> (opened: bool)
    requires
        old(map).inv(),
        old(door).tile.0 < old(map).width,
        old(door).tile.1 < old(map).height,
    ensures
        opened == (!old(door).open && knows_code && in_reach && !watched),
        final(door).tile == old(door).tile,
        final(door).open == (old(door).open || opened),
        final(map).inv(),
        final(map).width == old(map).width,
        final(map).height == old(map).height,
        final(map).tags() == old(map).tags(),
        final(map).room_list() == old(map).room_list(),
        opened ==> final(map).cells() == old(map).cells().update(
            old(door).tile.1 * old(map).width + old(door).tile.0,
            Tile::Floor,
        ),
        !opened ==> final(map).cells() == old(map).cells(),
{
    if door.open || !knows_code || !in_reach || watched {
        return false;
    }
    proof {
        crate::grid::lemma_index_in_range(map.width as int, map.height as int, (door.tile.0 as int, door.tile.1 as int));
    }
    door.open = true;
    map.set(door.tile.0, door.tile.1, Tile::Floor);
    true
}

/// A loop reset re-locks the door: closed, its tile wall again.
pub fn relock(door: &mut VaultDoor, map: &mut LevelMap)
    requires
        old(map).inv(),
        old(door).tile.0 < old(map).width,
        old(door).tile.1 < old(map).height,
    ensures
        final(door).tile == old(door).tile,
        !final(door).open,
        final(map).inv(),
        final(map).width == old(map).width,
        final(map).height == old(map).height,
        final(map).tags() == old(map).tags(),
        final(map).room_list() == old(map).room_list(),
        final(map).cells() == old(map).cells().update(old(door).tile.1 * old(map).width + old(door).tile.0, Tile::Wall),
{
    proof {
        crate::grid::lemma_index_in_range(map.width as int, map.height as int, (door.tile.0 as int, door.tile.1 as int));
    }
    door.open = false;
    map.set(door.tile.0, door.tile.1, Tile::Wall);
}

/// Opening the door and re-locking it leaves the grid exactly as the closed
/// gate had it.
pub proof fn lemma_relock_restores(cells: Seq<Tile>, i: int)
    requires
        0 <= i < cells.len(),
        cells[i] == Tile::Wall,
    ensures
        cells.update(i, Tile::Floor).update(i, Tile::Wall) == cells,
{
    assert(cells.update(i, Tile::Floor).update(i, Tile::Wall) =~= cells);
}

/// What the prompt near a closed vault door says.
#[derive(Clone, Copy, PartialEq, Eq, Debug, Structural)]
pub enum VaultPrompt {
    /// The code is not known yet.
    Locked,
    /// A guard is watching the door.
    Watched,
    /// The door can be opened now.
    Ready,
}

/// The prompt for a player standing by a closed door.
pub fn vault_prompt(knows_code: bool, watched: bool) -> (p: VaultPrompt)
    ensures
        p == if !knows_code {
            VaultPrompt::Locked
        } else if watched {
            VaultPrompt::Watched
        } else {
            VaultPrompt::Ready
        },
{
    if !knows_code {
        VaultPrompt::Locked
    } else if watched {
        VaultPrompt::Watched
    } else {
        VaultPrompt::Ready
    }
}

impl VaultPrompt {
    /// The prompt's text.
    pub fn text(self) -> (s: &'static str)
        ensures
            s@ == match self {
                VaultPrompt::Locked => "Vault locked — find the code"@,
                VaultPrompt::Watched => "Vault watched — wait for the guard to look away"@,
                VaultPrompt::Ready => "Press E to open vault"@,
            },
    {
        match self {
            VaultPrompt::Locked => "Vault locked — find the code",
            VaultPrompt::Watched => "Vault watched — wait for the guard to look away",
            VaultPrompt::Ready => "Press E to open vault",
        }
    }
}

} // verus!
