//! Screenblock grids and the bank of rooms a world map is cut into.
use crate::pattern::{SbEntry, TILE_H, TILE_W};
use crate::palette::PalBankId;
use vstd::prelude::*;

verus! {

/// The entry a fresh grid holds everywhere.
pub open spec fn placeholder_entry() -> SbEntry {
    SbEntry { tile_num: 42, hflip: true, vflip: true, palbank: PalBankId::Blended(42) }
}

/// A `width` by `height` table of placeholder entries, row by row.
pub open spec fn placeholder_rows(width: nat, height: nat) -> Seq<Seq<SbEntry>> {
    Seq::new(height, |y: int| Seq::new(width, |x: int| placeholder_entry()))
}

/// A rectangle of screenblock entries.
pub struct Grid {
    pub sb_entries: Vec<Vec<SbEntry>>,
    pub grid_width: usize,
    pub grid_height: usize,
    pub is_4bpp: bool,
}

impl Grid {
    /// The entries, row by row.
    pub open spec fn entries(&self) -> Seq<Seq<SbEntry>> {
        self.sb_entries@.map_values(|r: Vec<SbEntry>| r@)
    }

    /// The entry table has the grid's declared shape.
    pub open spec fn wf(&self) -> bool {
        &&& self.entries().len() == self.grid_height
        &&& forall|y: int| 0 <= y < self.grid_height ==> (#[trigger] self.entries()[y]).len() == self.grid_width
    }

    /// A grid of `grid_size.0` columns and `grid_size.1` rows of placeholders.
    pub fn new(grid_size: (usize, usize), is_4bpp: bool) -> (r: Self)
        ensures
            r.wf(),
            r.grid_width == grid_size.0,
            r.grid_height == grid_size.1,
            r.is_4bpp == is_4bpp,
            r.entries() == placeholder_rows(grid_size.0 as nat, grid_size.1 as nat),
    {
        let (grid_width, grid_height) = grid_size;
        let mut sb_entries: Vec<Vec<SbEntry>> = Vec::new();
        let mut y: usize = 0;
        while y < grid_height
            invariant
                y <= grid_height,
                sb_entries@.len() == y,
                forall|j: int| 0 <= j < y ==> (#[trigger] sb_entries@[j])@ == Seq::new(
                    grid_width as nat,
                    |x: int| placeholder_entry(),
                ),
            decreases grid_height - y,
        {
            let mut row: Vec<SbEntry> = Vec::new();
            let mut x: usize = 0;
            while x < grid_width
                invariant
                    x <= grid_width,
                    row@.len() == x,
                    forall|i: int| 0 <= i < x ==> row@[i] == placeholder_entry(),
                decreases grid_width - x,
            {
                row.push(SbEntry::default());
                x = x + 1;
            }
            proof {
                assert(row@ =~= Seq::new(grid_width as nat, |x: int| placeholder_entry()));
            }
            sb_entries.push(row);
            y = y + 1;
        }
        let r = Grid { sb_entries, grid_width, grid_height, is_4bpp };
        proof {
            assert(r.entries() =~= placeholder_rows(grid_width as nat, grid_height as nat));
        }
        r
    }

    /// Sets the entry at column `tx` of row `ty`.
    pub fn set_sbe(&mut self, tx: usize, ty: usize, sbe: SbEntry)
        requires
            ty < old(self).entries().len(),
            tx < old(self).entries()[ty as int].len(),
        ensures
            final(self).entries() == old(self).entries().update(
                ty as int,
                old(self).entries()[ty as int].update(tx as int, sbe),
            ),
            final(self).grid_width == old(self).grid_width,
            final(self).grid_height == old(self).grid_height,
            final(self).is_4bpp == old(self).is_4bpp,
    {
        let ghost before = self.entries();
        let mut row = self.sb_entries.remove(ty);
        row.set(tx, sbe);
        self.sb_entries.insert(ty, row);
        proof {
            assert(self.entries() =~= before.update(ty as int, before[ty as int].update(tx as int, sbe)));
        }
    }
}

/// The entries of each grid of `row`.
pub open spec fn grid_rows(row: Seq<Grid>) -> Seq<Seq<Seq<SbEntry>>> {
    Seq::new(row.len(), |rx: int| row[rx].entries())
}

/// A world map cut into rooms, each a grid of screenblock entries.
pub struct RoomBank {
    pub rooms: Vec<Vec<Grid>>,
    pub room_width: usize,
    pub room_height: usize,
    pub map_width: usize,
    pub map_height: usize,
    pub is_4bpp: bool,
}

impl RoomBank {
    /// Every room's entries, by room row, room column, then entry row.
    pub open spec fn room_entries(&self) -> Seq<Seq<Seq<Seq<SbEntry>>>> {
        Seq::new(self.rooms@.len(), |ry: int| grid_rows(self.rooms@[ry]@))
    }

    /// The rooms tile the map: `map_height / room_height` rows of
    /// `map_width / room_width` rooms of `room_width` by `room_height`.
    pub open spec fn wf(&self) -> bool {
        &&& self.room_width > 0
        &&& self.room_height > 0
        &&& self.rooms@.len() == self.map_height / self.room_height
        &&& forall|ry: int|
            0 <= ry < self.rooms@.len() ==> (#[trigger] self.rooms@[ry])@.len() == self.map_width
                / self.room_width
        &&& forall|ry: int, rx: int|
            0 <= ry < self.rooms@.len() && 0 <= rx < self.rooms@[ry]@.len() ==> {
                let g = #[trigger] self.rooms@[ry]@[rx];
                &&& g.wf()
                &&& g.grid_width == self.room_width
                &&& g.grid_height == self.room_height
                &&& g.is_4bpp == self.is_4bpp
            }
    }

    /// Rooms of `room_size` tiles covering a map of `map_size_pixels`, all
    /// holding placeholders.
    pub fn new(map_size_pixels: (u32, u32), room_size: (usize, usize), is_4bpp: bool) -> (r: Self)
        requires
            room_size.0 > 0,
            room_size.1 > 0,
        ensures
            r.wf(),
            r.map_width == map_size_pixels.0 as usize / TILE_W,
            r.map_height == map_size_pixels.1 as usize / TILE_H,
            r.room_width == room_size.0,
            r.room_height == room_size.1,
            r.is_4bpp == is_4bpp,
            forall|ry: int, rx: int|
                0 <= ry < r.rooms@.len() && 0 <= rx < r.rooms@[ry]@.len() ==> (#[trigger] r.rooms@[ry]@[rx]).entries()
                    == placeholder_rows(room_size.0 as nat, room_size.1 as nat),
    {
        let (room_width, room_height) = room_size;
        let map_width = map_size_pixels.0 as usize / TILE_W;
        let map_height = map_size_pixels.1 as usize / TILE_H;
        let num_rows = map_height / room_height;
        let num_cols = map_width / room_width;
        let mut rooms: Vec<Vec<Grid>> = Vec::new();
        let mut y: usize = 0;
        while y < num_rows
            invariant
                room_size.0 == room_width,
                room_size.1 == room_height,
                y <= num_rows,
                rooms@.len() == y,
                forall|ry: int| 0 <= ry < y ==> (#[trigger] rooms@[ry])@.len() == num_cols,
                forall|ry: int, rx: int|
                    0 <= ry < y && 0 <= rx < rooms@[ry]@.len() ==> {
                        let g = #[trigger] rooms@[ry]@[rx];
                        &&& g.wf()
                        &&& g.grid_width == room_width
                        &&& g.grid_height == room_height
                        &&& g.is_4bpp == is_4bpp
                        &&& g.entries() == placeholder_rows(room_width as nat, room_height as nat)
                    },
            decreases num_rows - y,
        {
            let mut row: Vec<Grid> = Vec::new();
            let mut x: usize = 0;
            while x < num_cols
                invariant
                    room_size.0 == room_width,
                    room_size.1 == room_height,
                    x <= num_cols,
                    row@.len() == x,
                    forall|rx: int|
                        0 <= rx < x ==> {
                            let g = #[trigger] row@[rx];
                            &&& g.wf()
                            &&& g.grid_width == room_width
                            &&& g.grid_height == room_height
                            &&& g.is_4bpp == is_4bpp
                            &&& g.entries() == placeholder_rows(room_width as nat, room_height as nat)
                        },
                decreases num_cols - x,
            {
                row.push(Grid::new(room_size, is_4bpp));
                x = x + 1;
            }
            rooms.push(row);
            y = y + 1;
        }
        RoomBank { rooms, room_width, room_height, map_width, map_height, is_4bpp }
    }

    /// Sets the entry at map tile (`tx`, `ty`) in the room that holds it.
    pub fn set_sbe(&mut self, tx: usize, ty: usize, sbe: SbEntry)
        requires
            old(self).wf(),
            ty < old(self).rooms@.len() * old(self).room_height,
            tx < (old(self).map_width / old(self).room_width) * old(self).room_width,
        ensures
            final(self).wf(),
            final(self).room_width == old(self).room_width,
            final(self).room_height == old(self).room_height,
            final(self).map_width == old(self).map_width,
            final(self).map_height == old(self).map_height,
            final(self).is_4bpp == old(self).is_4bpp,
            ({
                let ry = ty / old(self).room_height;
                let rx = tx / old(self).room_width;
                let y = ty % old(self).room_height;
                let x = tx % old(self).room_width;
                let before = old(self).room_entries();
                final(self).room_entries() == before.update(
                    ry as int,
                    before[ry as int].update(
                        rx as int,
                        before[ry as int][rx as int].update(
                            y as int,
                            before[ry as int][rx as int][y as int].update(x as int, sbe),
                        ),
                    ),
                )
            }),
    {
        let ry = ty / self.room_height;
        let rx = tx / self.room_width;
        let y = ty % self.room_height;
        let x = tx % self.room_width;
        proof {
            assert(ry < self.rooms@.len()) by (nonlinear_arith)
                requires
                    ty < self.rooms@.len() * self.room_height,
                    ry == ty / self.room_height,
                    self.room_height > 0,
            ;
            assert(rx < self.map_width / self.room_width) by (nonlinear_arith)
                requires
                    tx < (self.map_width / self.room_width) * self.room_width,
                    rx == tx / self.room_width,
                    self.room_width > 0,
            ;
        }
        let ghost before = self.room_entries();
        let ghost old_rooms = self.rooms@;
        let mut row = self.rooms.remove(ry);
        let ghost old_row = row@;
        let mut grid = row.remove(rx);
        grid.set_sbe(x, y, sbe);
        row.insert(rx, grid);
        self.rooms.insert(ry, row);
        proof {
            assert(row@ =~= old_row.update(rx as int, grid));
            assert(self.rooms@ =~= old_rooms.update(ry as int, row));
            assert(grid_rows(row@) =~= grid_rows(old_row).update(rx as int, grid.entries()));
            assert(self.room_entries() =~= before.update(
                ry as int,
                before[ry as int].update(
                    rx as int,
                    before[ry as int][rx as int].update(y as int, before[ry as int][rx as int][y as int].update(x as int, sbe)),
                ),
            ));
        }
    }
}

} // verus!
