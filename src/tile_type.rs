use vstd::prelude::*;

verus! {

/// The owners a tile can have. Only the first two take part in a game today.
#[derive(Debug, Clone, Copy, PartialEq, Eq, Structural)]
pub enum Player {
    One,
    Two,
    _Three,
    _Four,
}

/// What stands on one tile of the board. `Empty` is the only unassigned state.
#[derive(Debug, Clone, Copy, PartialEq, Eq, Structural)]
pub enum TileType {
    Plains,
    Sea,
    Mountain,
    Forest,
    Road,
    City(Option<Player>),
    Factory(Option<Player>),
    _Port(Option<Player>),
    _Airport(Option<Player>),
    Hq(Player),
    _Reef,
    Empty,
}

/// Small integer identifier of a tile kind in the tile metadata table.
pub type TileTypeId = usize;

/// Identifiers that name a tile kind without an owner.
pub open spec fn is_unowned_id(id: TileTypeId) -> bool {
    1 <= id <= 7
}

/// Identifiers that name a tile kind with an owner.
pub open spec fn is_owned_id(id: TileTypeId) -> bool {
    6 <= id <= 8
}

/// The tile kinds that have an identifier.
pub open spec fn has_id(t: TileType) -> bool {
    match t {
        TileType::Plains | TileType::Sea | TileType::Forest | TileType::Mountain
        | TileType::Road | TileType::City(_) | TileType::Factory(_) | TileType::Hq(_) => true,
        _ => false,
    }
}

pub open spec fn id_of(t: TileType) -> TileTypeId {
    match t {
        TileType::Plains => 1,
        TileType::Sea => 2,
        TileType::Forest => 3,
        TileType::Mountain => 4,
        TileType::Road => 5,
        TileType::City(_) => 6,
        TileType::Factory(_) => 7,
        TileType::Hq(_) => 8,
        _ => 0,
    }
}

/// The owner carried by a tile, if any.
pub open spec fn owner_of(t: TileType) -> Option<Player> {
    match t {
        TileType::City(p) => p,
        TileType::Factory(p) => p,
        TileType::_Port(p) => p,
        TileType::_Airport(p) => p,
        TileType::Hq(p) => Some(p),
        _ => None,
    }
}

impl TileType {
    pub open spec fn is_empty_spec(&self) -> bool {
        *self == TileType::Empty
    }

    pub open spec fn is_hq_spec(&self) -> bool {
        self is Hq
    }

    pub fn is_empty(&self) -> (r: bool)
        ensures
            r == self.is_empty_spec(),
    {
        match self {
            TileType::Empty => true,
            _ => false,
        }
    }

    pub fn is_hq(&self) -> (r: bool)
        ensures
            r == self.is_hq_spec(),
    {
        match self {
            TileType::Hq(_) => true,
            _ => false,
        }
    }

    /// The tile kind named by `id`, owned by `allegiance` when one is given.
    pub fn from_id(id: TileTypeId, allegiance: Option<Player>) -> (r: TileType)
        requires
            allegiance is Some ==> is_owned_id(id),
            allegiance is None ==> is_unowned_id(id),
        ensures
            has_id(r),
            id_of(r) == id,
            owner_of(r) == allegiance,
    {
        if let Some(player) = allegiance {
            return match id {
                6 => TileType::City(Some(player)),
                7 => TileType::Factory(Some(player)),
                _ => TileType::Hq(player),
            };
        }
        match id {
            1 => TileType::Plains,
            2 => TileType::Sea,
            3 => TileType::Forest,
            4 => TileType::Mountain,
            5 => TileType::Road,
            6 => TileType::City(allegiance),
            _ => TileType::Factory(allegiance),
        }
    }

    /// The identifier of this tile's kind.
    pub fn to_id(&self) -> (r: TileTypeId)
        requires
            has_id(*self),
        ensures
            r == id_of(*self),
            allegiance_fits(r, owner_of(*self)),
            TileType::from_id_spec(r, owner_of(*self)) == *self,
    {
        match self {
            TileType::Plains => 1,
            TileType::Sea => 2,
            TileType::Forest => 3,
            TileType::Mountain => 4,
            TileType::Road => 5,
            TileType::City(_) => 6,
            TileType::Factory(_) => 7,
            _ => 8,
        }
    }

    pub open spec fn from_id_spec(id: TileTypeId, allegiance: Option<Player>) -> TileType {
        match allegiance {
            Some(p) => if id == 6 {
                TileType::City(Some(p))
            } else if id == 7 {
                TileType::Factory(Some(p))
            } else {
                TileType::Hq(p)
            },
            None => if id == 1 {
                TileType::Plains
            } else if id == 2 {
                TileType::Sea
            } else if id == 3 {
                TileType::Forest
            } else if id == 4 {
                TileType::Mountain
            } else if id == 5 {
                TileType::Road
            } else if id == 6 {
                TileType::City(None)
            } else {
                TileType::Factory(None)
            },
        }
    }
}

/// Whether `from_id` accepts `id` together with `allegiance`.
pub open spec fn allegiance_fits(id: TileTypeId, allegiance: Option<Player>) -> bool {
    &&& allegiance is Some ==> is_owned_id(id)
    &&& allegiance is None ==> is_unowned_id(id)
}

/// Display metadata of one tile kind.
#[derive(Clone, Debug)]
pub struct TileData {
    pub id: TileTypeId,
    pub name: String,
    pub colour: String,
}

} // verus!
