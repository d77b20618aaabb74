use vstd::prelude::*;

verus! {

/// Number of draw rounds tracked per hand.
pub const NUM_ROUNDS: usize = 18;

/// Number of structural dimensions tracked by the metrics tables.
pub const NUM_DIMENSIONS: usize = 86;

/// A tile kind: a suited tile `(suit, rank)` or an honor.
///
/// In a [`Dimension`] an honor carries a multiplicity bucket `0..=4`; as a
/// concrete tile it carries the honor kind `0..=6`.
#[derive(Copy, Clone, Debug, PartialEq, Eq, Structural)]
pub enum Tile {
    Supai(u8, u8),
    Jihai(u8),
}

/// A structural element of a winning hand.
#[derive(Copy, Clone, Debug, PartialEq, Eq, Structural)]
pub enum Dimension {
    /// A run, named by its lowest tile.
    Shuntsu(Tile),
    Kotsu(Tile),
    Toitsu(Tile),
    Kokushi,
}

impl Dimension {
    /// The dimensions that own an id: runs start at ranks `0..=6` of a suit,
    /// triplets and pairs sit on any suited tile or on an honor bucket `0..=4`.
    pub open spec fn wf(self) -> bool {
        match self {
            Dimension::Shuntsu(Tile::Supai(s, n)) => s < 3 && n < 7,
            Dimension::Shuntsu(Tile::Jihai(_)) => false,
            Dimension::Kotsu(Tile::Supai(s, n)) => s < 3 && n < 9,
            Dimension::Kotsu(Tile::Jihai(b)) => b < 5,
            Dimension::Toitsu(Tile::Supai(s, n)) => s < 3 && n < 9,
            Dimension::Toitsu(Tile::Jihai(b)) => b < 5,
            Dimension::Kokushi => true,
        }
    }

    /// Position of a dimension in the fixed order: 21 runs, 27 suited
    /// triplets, 5 honor triplet buckets, 27 suited pairs, 5 honor pair
    /// buckets, thirteen orphans.
    pub open spec fn id(self) -> int {
        match self {
            Dimension::Shuntsu(Tile::Supai(s, n)) => s * 7 + n,
            Dimension::Shuntsu(Tile::Jihai(_)) => -1,
            Dimension::Kotsu(Tile::Supai(s, n)) => 21 + s * 9 + n,
            Dimension::Kotsu(Tile::Jihai(b)) => 48 + b,
            Dimension::Toitsu(Tile::Supai(s, n)) => 53 + s * 9 + n,
            Dimension::Toitsu(Tile::Jihai(b)) => 80 + b,
            Dimension::Kokushi => 85,
        }
    }

    /// The dimension at a position of the fixed order.
    pub open spec fn of_id(id: int) -> Dimension {
        if id < 21 {
            Dimension::Shuntsu(Tile::Supai((id / 7) as u8, (id % 7) as u8))
        } else if id < 48 {
            Dimension::Kotsu(Tile::Supai(((id - 21) / 9) as u8, ((id - 21) % 9) as u8))
        } else if id < 53 {
            Dimension::Kotsu(Tile::Jihai((id - 48) as u8))
        } else if id < 80 {
            Dimension::Toitsu(Tile::Supai(((id - 53) / 9) as u8, ((id - 53) % 9) as u8))
        } else if id < 85 {
            Dimension::Toitsu(Tile::Jihai((id - 80) as u8))
        } else {
            Dimension::Kokushi
        }
    }

    /// Ids and dimensions correspond one to one.
    pub proof fn lemma_id_roundtrip(id: int)
        requires
            0 <= id < 86,
        ensures
            Self::of_id(id).wf(),
            Self::of_id(id).id() == id,
    {
    }

    /// Ids and dimensions correspond one to one.
    pub proof fn lemma_of_id_roundtrip(d: Dimension)
        requires
            d.wf(),
        ensures
            0 <= d.id() < 86,
            Self::of_id(d.id()) == d,
    {
    }

    /// The dimension with a given id.
    pub fn from_id(id: usize) -> (d: Dimension)
        requires
            id < 86,
        ensures
            d == Self::of_id(id as int),
            d.wf(),
            d.id() == id,
    {
        let i: u8 = id as u8;
        if i < 21 {
            Dimension::Shuntsu(Tile::Supai(i / 7, i % 7))
        } else if i < 48 {
            Dimension::Kotsu(Tile::Supai((i - 21) / 9, (i - 21) % 9))
        } else if i < 53 {
            Dimension::Kotsu(Tile::Jihai(i - 48))
        } else if i < 80 {
            Dimension::Toitsu(Tile::Supai((i - 53) / 9, (i - 53) % 9))
        } else if i < 85 {
            Dimension::Toitsu(Tile::Jihai(i - 80))
        } else {
            Dimension::Kokushi
        }
    }

    /// The id of a dimension.
    pub fn to_id(&self) -> (id: u8)
        requires
            self.wf(),
        ensures
            id == self.id(),
            id < 86,
    {
        match self {
            Dimension::Shuntsu(Tile::Supai(x, y)) => *x * 7 + *y,
            Dimension::Kotsu(Tile::Supai(x, y)) => 21 + *x * 9 + *y,
            Dimension::Kotsu(Tile::Jihai(x)) => 21 + 27 + *x,
            Dimension::Toitsu(Tile::Supai(x, y)) => 21 + 27 + 5 + *x * 9 + *y,
            Dimension::Toitsu(Tile::Jihai(x)) => 21 + 27 + 5 + 27 + *x,
            _ => 85,
        }
    }

    /// Number of dimensions.
    pub fn len() -> (n: usize)
        ensures
            n == 86,
    {
        NUM_DIMENSIONS
    }

    /// All dimensions in id order.
    pub fn all_dimensions() -> (all: [Dimension; 86])
        ensures
            forall|i: int| 0 <= i < 86 ==> all[i] == Self::of_id(i),
    {
        let mut all = [Dimension::Kokushi; 86];
        let mut j: usize = 0;
        while j < 86
            invariant
                j <= 86,
                forall|i: int| 0 <= i < j ==> all[i] == Self::of_id(i),
            decreases 86 - j,
        {
            all[j] = Self::from_id(j);
            j += 1;
        }
        all
    }
}

/// One record of the metrics tables: a fixed-point value per dimension,
/// indexed by dimension id.
#[derive(Clone, Copy, Debug, PartialEq, Eq)]
pub struct Metrics {
    pub values: [u32; 86],
}

impl Metrics {
    /// The record with every value zero.
    pub fn new() -> (m: Metrics)
        ensures
            forall|i: int| 0 <= i < 86 ==> m.values[i] == 0,
    {
        Metrics { values: [0; 86] }
    }

    /// The value stored for a dimension.
    pub fn get(&self, dim: Dimension) -> (v: u32)
        requires
            dim.wf(),
        ensures
            v == self.values[dim.id()],
    {
        self.values[dim.to_id() as usize]
    }

    /// Stores a value for a dimension and leaves the others alone.
    pub fn set(&mut self, dim: Dimension, v: u32)
        requires
            dim.wf(),
        ensures
            final(self).values@ == old(self).values@.update(dim.id(), v),
    {
        self.values[dim.to_id() as usize] = v;
    }
}

impl Default for Metrics {
    fn default() -> (m: Metrics)
        ensures
            forall|i: int| 0 <= i < 86 ==> m.values[i] == 0,
    {
        Metrics::new()
    }
}

impl From<[u32; 86]> for Metrics {
    fn from(values: [u32; 86]) -> (m: Metrics) {
        Metrics { values }
    }
}

impl vstd::std_specs::convert::FromSpecImpl<[u32; 86]> for Metrics {
    open spec fn obeys_from_spec() -> bool {
        true
    }

    open spec fn from_spec(values: [u32; 86]) -> Metrics {
        Metrics { values }
    }
}

impl From<Metrics> for [u32; 86] {
    fn from(metrics: Metrics) -> (values: [u32; 86]) {
        metrics.values
    }
}

impl vstd::std_specs::convert::FromSpecImpl<Metrics> for [u32; 86] {
    open spec fn obeys_from_spec() -> bool {
        true
    }

    open spec fn from_spec(metrics: Metrics) -> [u32; 86] {
        metrics.values
    }
}

} // verus!
