//! Places in the world: rooms, tiles and the distances between them.
use vstd::prelude::*;

verus! {

/// A room, by the column and the row of the room grid that it stands in, each counted from 128 at the
/// middle of the world.
#[derive(Clone, Copy, Debug, PartialEq, Eq, Structural)]
pub struct RoomName {
    pub x: u8,
    pub y: u8,
}

/// A tile of a room.
#[derive(Clone, Copy, Debug, PartialEq, Eq, Structural)]
pub struct Position {
    pub room: RoomName,
    pub x: u8,
    pub y: u8,
}

impl Position {
    /// A room has fifty tiles each way.
    pub open spec fn wf(self) -> bool {
        self.x < 50 && self.y < 50
    }

    /// The column of the tile in the world.
    pub open spec fn world_x(self) -> int {
        (self.room.x - 128) * 50 + self.x
    }

    /// The row of the tile in the world.
    pub open spec fn world_y(self) -> int {
        (self.room.y - 128) * 50 + self.y
    }
}

/// The absolute value.
pub open spec fn abs(n: int) -> int {
    if n < 0 {
        -n
    } else {
        n
    }
}

/// The moves from one tile to another, straight or diagonal.
pub open spec fn chebyshev(a: Position, b: Position) -> int {
    crate::fixed::max_of(abs(a.world_x() - b.world_x()), abs(a.world_y() - b.world_y()))
}

/// Calls `screeps::Position::get_range_to`: the larger of the distances along the two axes of the
/// world, also across rooms.
#[verifier::external_body]
pub(crate) fn range_between(a: Position, b: Position) -> (r: u32)
    requires
        a.wf(),
        b.wf(),
    ensures
        r == chebyshev(a, b),
{
    let from = screeps::Position::from_packed(u32::from_be_bytes([a.room.x, a.room.y, a.x, a.y]));
    let to = screeps::Position::from_packed(u32::from_be_bytes([b.room.x, b.room.y, b.x, b.y]));
    from.get_range_to(to)
}

/// Calls the subtraction of `screeps::RoomName`s: how many rooms `a` lies further along each axis than
/// `b`.
#[verifier::external_body]
pub(crate) fn room_delta(a: RoomName, b: RoomName) -> (d: (i32, i32))
    ensures
        d.0 == a.x - b.x,
        d.1 == a.y - b.y,
{
    screeps::RoomName::from_packed(u16::from_be_bytes([a.x, a.y]))
        - screeps::RoomName::from_packed(u16::from_be_bytes([b.x, b.y]))
}

/// Calls the addition of a pair to a `screeps::RoomName`: the room that many rooms further along each
/// axis. Outside of the world there is none.
#[verifier::external_body]
pub(crate) fn room_offset(a: RoomName, dx: i32, dy: i32) -> (r: RoomName)
    requires
        0 <= a.x + dx <= 255,
        0 <= a.y + dy <= 255,
    ensures
        r.x == a.x + dx,
        r.y == a.y + dy,
{
    let room = screeps::RoomName::from_packed(u16::from_be_bytes([a.x, a.y])) + (dx, dy);
    let [x, y] = room.packed_repr().to_be_bytes();
    RoomName { x, y }
}

/// The rooms from one room to another, straight or diagonal.
pub open spec fn room_distance(a: RoomName, b: RoomName) -> int {
    crate::fixed::max_of(abs(a.x - b.x), abs(a.y - b.y))
}

/// `screeps::RawObjectId`: names an object of the game; only handed on.
#[verifier::external_type_specification]
#[verifier::external_body]
pub struct ExRawObjectId(screeps::RawObjectId);

/// `screeps::local::LocalCostMatrix`: what it costs to step on each tile of a room.
#[verifier::external_type_specification]
#[verifier::external_body]
pub struct ExLocalCostMatrix(screeps::local::LocalCostMatrix);

/// What a cost matrix holds for each tile, by column and row.
pub uninterp spec fn tile_costs(m: screeps::local::LocalCostMatrix) -> Map<(int, int), u8>;

/// Calls `LocalCostMatrix::get`: what the matrix holds for the tile.
#[verifier::external_body]
pub(crate) fn tile_cost(m: &screeps::local::LocalCostMatrix, x: u8, y: u8) -> (c: u8)
    requires
        x < 50,
        y < 50,
    ensures
        c == tile_costs(*m)[(x as int, y as int)],
{
    m.get(screeps::RoomXY::checked_new(x, y).unwrap())
}

/// A tile is within `k` moves of another exactly when it is within `k` tiles of it along both axes of the
/// world, in which each room is fifty tiles wide and high.
pub proof fn law_range_is_the_longer_way(a: Position, b: Position, k: int)
    ensures
        chebyshev(a, b) <= k <==> {
            let dx = 50 * (a.room.x - b.room.x) + a.x - b.x;
            let dy = 50 * (a.room.y - b.room.y) + a.y - b.y;
            -k <= dx <= k && -k <= dy <= k
        },
        chebyshev(a, b) == chebyshev(b, a),
{
}

/// Rooms are within `k` of each other exactly when they are along both axes.
pub proof fn law_room_distance_is_the_longer_way(a: RoomName, b: RoomName, k: int)
    ensures
        room_distance(a, b) <= k <==> -k <= a.x - b.x <= k && -k <= a.y - b.y <= k,
{
}

}
