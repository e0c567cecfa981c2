//! A grid of tiles that a car may drive on, made from the colours of a map
//! image: every tile that is not water is drivable.

use crate::text::{digits, push_digits};
use vstd::prelude::*;

verus! {

/// One pixel's colour.
#[derive(Clone, Copy, Debug, PartialEq, Eq)]
pub struct Rgb {
    pub r: u8,
    pub g: u8,
    pub b: u8,
}

/// Whether a colour is the colour of water on the map.
pub open spec fn is_water(p: Rgb) -> bool {
    p.r == 45 && p.g == 94 && p.b == 127
}

/// The text of one column: `1` for a drivable tile, `0` for another.
pub open spec fn column_text(column: Seq<bool>) -> Seq<u8>
    decreases column.len(),
{
    if column.len() == 0 {
        Seq::empty()
    } else {
        column_text(column.drop_last()) + seq![if column.last() { 49u8 } else { 48u8 }]
    }
}

/// The text of the columns: for each, its index, `:` and its tiles.
pub open spec fn columns_text(tiles: Seq<Seq<bool>>) -> Seq<u8>
    decreases tiles.len(),
{
    if tiles.len() == 0 {
        Seq::empty()
    } else {
        columns_text(tiles.drop_last()) + digits((tiles.len() - 1) as nat) + seq![58u8]
            + column_text(tiles.last())
    }
}

/// Which tiles are drivable, indexed by `x` then `y`.
#[derive(Debug)]
pub struct DrivableTileMap {
    tiles: Vec<Vec<bool>>,
}

impl View for DrivableTileMap {
    type V = Seq<Seq<bool>>;

    closed spec fn view(&self) -> Seq<Seq<bool>> {
        self.tiles@.map_values(|row: Vec<bool>| row@)
    }
}

impl DrivableTileMap {
    /// A map of `capacity` columns of `inner_capacity` tiles, none drivable.
    pub fn new(capacity: usize, inner_capacity: usize) -> (r: DrivableTileMap)
        ensures
            r@ == Seq::new(capacity as nat, |x: int| Seq::new(inner_capacity as nat, |y: int| false)),
    {
        let mut tiles: Vec<Vec<bool>> = Vec::new();
        while tiles.len() < capacity
            invariant
                tiles@.len() <= capacity,
                forall|x: int|
                    0 <= x < tiles@.len() ==> (#[trigger] tiles@[x])@ == Seq::new(
                        inner_capacity as nat,
                        |y: int| false,
                    ),
            decreases capacity - tiles@.len(),
        {
            let mut row: Vec<bool> = Vec::new();
            while row.len() < inner_capacity
                invariant
                    row@.len() <= inner_capacity,
                    forall|y: int| 0 <= y < row@.len() ==> !(#[trigger] row@[y]),
                decreases inner_capacity - row@.len(),
            {
                row.push(false);
            }
            assert(row@ =~= Seq::new(inner_capacity as nat, |y: int| false));
            tiles.push(row);
        }
        let r = DrivableTileMap { tiles };
        assert(r@ =~= Seq::new(capacity as nat, |x: int| Seq::new(inner_capacity as nat, |y: int| false)));
        r
    }

    /// Whether tile `(x, y)` is drivable, or `None` outside the map.
    pub fn drivable(&self, x: usize, y: usize) -> (r: Option<bool>)
        ensures
            r == (if x < self@.len() && y < self@[x as int].len() {
                Some(self@[x as int][y as int])
            } else {
                None
            }),
    {
        if x < self.tiles.len() && y < self.tiles[x].len() {
            Some(self.tiles[x][y])
        } else {
            None
        }
    }

    /// The map of an image given as columns of pixels (`columns[x][y]`): a
    /// tile is drivable unless its pixel has the colour of water.
    pub fn from_columns(columns: &Vec<Vec<Rgb>>) -> (r: DrivableTileMap)
        ensures
            r@.len() == columns@.len(),
            forall|x: int|
                0 <= x < columns@.len() ==> (#[trigger] r@[x]).len() == columns@[x]@.len(),
            forall|x: int, y: int|
                0 <= x < columns@.len() && 0 <= y < columns@[x]@.len() ==> (#[trigger] r@[x][y])
                    == !is_water(columns@[x]@[y]),
    {
        let mut tiles: Vec<Vec<bool>> = Vec::new();
        while tiles.len() < columns.len()
            invariant
                tiles@.len() <= columns@.len(),
                forall|x: int| 0 <= x < tiles@.len() ==> (#[trigger] tiles@[x])@.len() == columns@[x]@.len(),
                forall|x: int, y: int|
                    0 <= x < tiles@.len() && 0 <= y < columns@[x]@.len() ==> (#[trigger] tiles@[x]@[y])
                        == !is_water(columns@[x]@[y]),
            decreases columns@.len() - tiles@.len(),
        {
            let x = tiles.len();
            let column = &columns[x];
            let mut row: Vec<bool> = Vec::new();
            while row.len() < column.len()
                invariant
                    row@.len() <= column@.len(),
                    forall|y: int| 0 <= y < row@.len() ==> (#[trigger] row@[y]) == !is_water(column@[y]),
                decreases column@.len() - row@.len(),
            {
                let p = column[row.len()];
                row.push(!(p.r == 45 && p.g == 94 && p.b == 127));
            }
            tiles.push(row);
        }
        DrivableTileMap { tiles }
    }

    /// The map as ASCII text: each column as its index, `:` and a `1` or `0`
    /// per tile, then a line break.
    pub fn to_text(&self) -> (r: Vec<u8>)
        ensures
            r@ == columns_text(self@) + seq![10u8],
    {
        let mut out: Vec<u8> = Vec::new();
        let mut x: usize = 0;
        while x < self.tiles.len()
            invariant
                x <= self@.len(),
                self@ == self.tiles@.map_values(|row: Vec<bool>| row@),
                out@ == columns_text(self@.take(x as int)),
            decreases self@.len() - x,
        {
            push_digits(&mut out, x as u64);
            out.push(58);
            let column = &self.tiles[x];
            let ghost mid = out@;
            let mut y: usize = 0;
            while y < column.len()
                invariant
                    y <= column@.len(),
                    out@ == mid + column_text(column@.take(y as int)),
                decreases column@.len() - y,
            {
                out.push(if column[y] { 49 } else { 48 });
                assert(column@.take(y + 1).drop_last() =~= column@.take(y as int));
                y = y + 1;
            }
            proof {
                assert(column@.take(column@.len() as int) =~= column@);
                let t = self@.take(x + 1);
                assert(t.drop_last() =~= self@.take(x as int));
                assert(t.last() == column@);
                assert(out@ =~= columns_text(t));
            }
            x = x + 1;
        }
        assert(self@.take(self@.len() as int) =~= self@);
        out.push(10);
        out
    }
}

} // verus!
