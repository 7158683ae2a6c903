//! 8x8 tile patterns and the bank that deduplicates them.
use crate::palette::PalBankId;
use vstd::prelude::*;

verus! {

/// Tile width in pixels.
pub const TILE_W: usize = 8;

/// Tile height in pixels.
pub const TILE_H: usize = 8;

/// A screenblock entry: a tile number, its flips and its palette bank.
#[derive(Copy, Clone, Debug, PartialEq, Eq, Structural)]
pub struct SbEntry {
    pub tile_num: usize,
    pub hflip: bool,
    pub vflip: bool,
    pub palbank: PalBankId,
}

impl Default for SbEntry {
    /// A conspicuous placeholder for entries not yet set.
    fn default() -> (r: Self)
        ensures
            r == (SbEntry { tile_num: 42, hflip: true, vflip: true, palbank: PalBankId::Blended(42) }),
    {
        SbEntry { tile_num: 42, hflip: true, vflip: true, palbank: PalBankId::Blended(42) }
    }
}

/// Pixels of `p` mirrored left to right.
pub open spec fn hflipped(p: Seq<usize>) -> Seq<usize> {
    Seq::new(64, |i: int| p[(i / 8) * 8 + 7 - i % 8])
}

/// Pixels of `p` mirrored top to bottom.
pub open spec fn vflipped(p: Seq<usize>) -> Seq<usize> {
    Seq::new(64, |i: int| p[(7 - i / 8) * 8 + i % 8])
}

/// A tile's palette indices, row by row.
pub struct Pattern(pub Vec<usize>);

impl PartialEq for Pattern {
    fn eq(&self, o: &Pattern) -> (r: bool)
        ensures
            r == (self.0@ == o.0@),
    {
        same_pixels(&self.0, &o.0)
    }
}

impl vstd::std_specs::cmp::PartialEqSpecImpl for Pattern {
    open spec fn obeys_eq_spec() -> bool {
        true
    }

    open spec fn eq_spec(&self, o: &Pattern) -> bool {
        self.0@ == o.0@
    }
}

/// Whether two pixel sequences are equal.
fn same_pixels(a: &Vec<usize>, b: &Vec<usize>) -> (r: bool)
    ensures
        r == (a@ == b@),
{
    if a.len() != b.len() {
        return false;
    }
    let mut i: usize = 0;
    while i < a.len()
        invariant
            a@.len() == b@.len(),
            i <= a@.len(),
            forall|j: int| 0 <= j < i ==> a@[j] == b@[j],
        decreases a@.len() - i,
    {
        if a[i] != b[i] {
            return false;
        }
        i = i + 1;
    }
    proof {
        assert(a@ =~= b@);
    }
    true
}

impl Pattern {
    /// The pattern mirrored left to right.
    pub fn hflip(&self) -> (r: Self)
        requires
            self.0@.len() == TILE_W * TILE_H,
        ensures
            r.0@ == hflipped(self.0@),
    {
        let mut result: Vec<usize> = Vec::with_capacity(self.0.len());
        let mut y: usize = 0;
        while y < TILE_H
            invariant
                self.0@.len() == 64,
                y <= 8,
                result@.len() == y * 8,
                forall|i: int| 0 <= i < y * 8 ==> result@[i] == #[trigger] hflipped(self.0@)[i],
            decreases 8 - y,
        {
            let mut x: usize = TILE_W;
            while x > 0
                invariant
                    self.0@.len() == 64,
                    y < 8,
                    x <= 8,
                    result@.len() == y * 8 + (8 - x),
                    forall|i: int| 0 <= i < y * 8 + (8 - x) ==> result@[i] == #[trigger] hflipped(self.0@)[i],
                decreases x,
            {
                x = x - 1;
                result.push(self.0[y * TILE_W + x]);
                proof {
                    let i = y * 8 + (7 - x);
                    assert(i / 8 == y && i % 8 == 7 - x) by (nonlinear_arith)
                        requires
                            i == y * 8 + (7 - x),
                            x < 8,
                    ;
                }
            }
            y = y + 1;
        }
        proof {
            assert(result@ =~= hflipped(self.0@));
        }
        Pattern(result)
    }

    /// The pattern mirrored top to bottom.
    pub fn vflip(&self) -> (r: Self)
        requires
            self.0@.len() == TILE_W * TILE_H,
        ensures
            r.0@ == vflipped(self.0@),
    {
        let mut result: Vec<usize> = Vec::with_capacity(self.0.len());
        let mut y: usize = TILE_H;
        while y > 0
            invariant
                self.0@.len() == 64,
                y <= 8,
                result@.len() == (8 - y) * 8,
                forall|i: int| 0 <= i < (8 - y) * 8 ==> result@[i] == #[trigger] vflipped(self.0@)[i],
            decreases y,
        {
            y = y - 1;
            let mut x: usize = 0;
            while x < TILE_W
                invariant
                    self.0@.len() == 64,
                    y < 8,
                    x <= 8,
                    result@.len() == (7 - y) * 8 + x,
                    forall|i: int| 0 <= i < (7 - y) * 8 + x ==> result@[i] == #[trigger] vflipped(self.0@)[i],
                decreases 8 - x,
            {
                result.push(self.0[y * TILE_W + x]);
                proof {
                    let i = (7 - y) * 8 + x;
                    assert(i / 8 == 7 - y && i % 8 == x) by (nonlinear_arith)
                        requires
                            i == (7 - y) * 8 + x,
                            x < 8,
                            y < 8,
                    ;
                }
                x = x + 1;
            }
        }
        proof {
            assert(result@ =~= vflipped(self.0@));
        }
        Pattern(result)
    }
}

/// Index of the first pattern of `pats`, from `from` on, equal to `p`, or -1.
pub open spec fn first_index(pats: Seq<Seq<usize>>, p: Seq<usize>, from: int) -> int
    decreases pats.len() - from,
{
    if from < 0 || from >= pats.len() {
        -1
    } else if pats[from] == p {
        from
    } else {
        first_index(pats, p, from + 1)
    }
}

/// The entry that refers to the first stored pattern equal to `p`, trying
/// it as is, and in a 4-bit bank also mirrored left to right, top to bottom,
/// and both, in that order.
pub open spec fn lookup(pats: Seq<Seq<usize>>, p: Seq<usize>, is_4bpp: bool, palbank: PalBankId) -> Option<SbEntry> {
    let i0 = first_index(pats, p, 0);
    let i1 = first_index(pats, hflipped(p), 0);
    let i2 = first_index(pats, vflipped(p), 0);
    let i3 = first_index(pats, vflipped(hflipped(p)), 0);
    if i0 >= 0 {
        Some(SbEntry { tile_num: i0 as usize, hflip: false, vflip: false, palbank })
    } else if !is_4bpp {
        None
    } else if i1 >= 0 {
        Some(SbEntry { tile_num: i1 as usize, hflip: true, vflip: false, palbank })
    } else if i2 >= 0 {
        Some(SbEntry { tile_num: i2 as usize, hflip: false, vflip: true, palbank })
    } else if i3 >= 0 {
        Some(SbEntry { tile_num: i3 as usize, hflip: true, vflip: true, palbank })
    } else {
        None
    }
}

/// The distinct patterns of a tileset, with the hardware's limit on their
/// number.
pub struct PatternBank {
    pub patterns: Vec<Pattern>,
    pub max_patterns: usize,
    pub is_4bpp: bool,
}

impl PatternBank {
    /// The stored patterns' pixels.
    pub open spec fn pixels(&self) -> Seq<Seq<usize>> {
        self.patterns@.map_values(|p: Pattern| p.0@)
    }

    /// A bank holding only the blank pattern.
    pub fn new(is_4bpp: bool) -> (r: Self)
        ensures
            r.pixels() == seq![Seq::new(64, |i: int| 0usize)],
            r.max_patterns == (if is_4bpp {
                512usize
            } else {
                256usize
            }),
            r.is_4bpp == is_4bpp,
    {
        let max_patterns = if is_4bpp {
            512
        } else {
            256
        };
        let mut blank: Vec<usize> = Vec::new();
        let mut i: usize = 0;
        while i < TILE_W * TILE_H
            invariant
                i <= 64,
                blank@.len() == i,
                forall|j: int| 0 <= j < i ==> blank@[j] == 0usize,
            decreases 64 - i,
        {
            blank.push(0);
            i = i + 1;
        }
        let mut patterns: Vec<Pattern> = Vec::new();
        patterns.push(Pattern(blank));
        let r = PatternBank { patterns, max_patterns, is_4bpp };
        proof {
            assert(blank@ =~= Seq::new(64, |i: int| 0usize));
            assert(r.pixels() =~= seq![Seq::new(64, |i: int| 0usize)]);
        }
        r
    }

    /// Index of the first stored pattern equal to `p`.
    fn position(&self, p: &Pattern) -> (r: Option<usize>)
        ensures
            r matches Some(i) ==> i as int == first_index(self.pixels(), p.0@, 0),
            r is None ==> first_index(self.pixels(), p.0@, 0) == -1,
    {
        let mut i: usize = 0;
        while i < self.patterns.len()
            invariant
                i <= self.patterns.len(),
                first_index(self.pixels(), p.0@, 0) == first_index(self.pixels(), p.0@, i as int),
            decreases self.patterns.len() - i,
        {
            if same_pixels(&self.patterns[i].0, &p.0) {
                return Some(i);
            }
            i = i + 1;
        }
        None
    }

    /// The entry that reuses a stored pattern for `new_pattern`, as
    /// [`lookup`] gives it.
    pub fn find_existing(&self, new_pattern: &Pattern, palbank: PalBankId) -> (r: Option<SbEntry>)
        requires
            new_pattern.0@.len() == TILE_W * TILE_H,
        ensures
            r == lookup(self.pixels(), new_pattern.0@, self.is_4bpp, palbank),
    {
        if let Some(tile_num) = self.position(new_pattern) {
            return Some(SbEntry { tile_num, hflip: false, vflip: false, palbank });
        }
        if self.is_4bpp {
            let h_flipped = new_pattern.hflip();
            if let Some(tile_num) = self.position(&h_flipped) {
                return Some(SbEntry { tile_num, hflip: true, vflip: false, palbank });
            }
            let v_flipped = new_pattern.vflip();
            if let Some(tile_num) = self.position(&v_flipped) {
                return Some(SbEntry { tile_num, hflip: false, vflip: true, palbank });
            }
            let hv_flipped = h_flipped.vflip();
            if let Some(tile_num) = self.position(&hv_flipped) {
                return Some(SbEntry { tile_num, hflip: true, vflip: true, palbank });
            }
        }
        None
    }

    /// Stores `new_img` as a new pattern if the bank has room.
    pub fn try_onboard_without_reduction(&mut self, new_img: Pattern, palbank: PalBankId) -> (r: Option<SbEntry>)
        ensures
            final(self).max_patterns == old(self).max_patterns,
            final(self).is_4bpp == old(self).is_4bpp,
            old(self).patterns.len() < old(self).max_patterns ==> {
                &&& final(self).pixels() == old(self).pixels().push(new_img.0@)
                &&& r == Some(
                    SbEntry { tile_num: old(self).patterns.len(), hflip: false, vflip: false, palbank },
                )
            },
            old(self).patterns.len() >= old(self).max_patterns ==> final(self).pixels() == old(
                self,
            ).pixels() && r is None,
    {
        if self.patterns.len() < self.max_patterns {
            let tile_num = self.patterns.len();
            let ghost before = self.pixels();
            self.patterns.push(new_img);
            proof {
                assert(self.pixels() =~= before.push(new_img.0@));
            }
            Some(SbEntry { tile_num, hflip: false, vflip: false, palbank })
        } else {
            None
        }
    }

    /// Reuses a stored pattern for `new_img` when one matches, else stores
    /// it if the bank has room.
    pub fn try_onboard_pattern(&mut self, new_img: Pattern, palbank: PalBankId) -> (r: Option<SbEntry>)
        requires
            new_img.0@.len() == TILE_W * TILE_H,
        ensures
            final(self).max_patterns == old(self).max_patterns,
            final(self).is_4bpp == old(self).is_4bpp,
            lookup(old(self).pixels(), new_img.0@, old(self).is_4bpp, palbank) matches Some(e) ==> r
                == Some(e) && final(self).pixels() == old(self).pixels(),
            lookup(old(self).pixels(), new_img.0@, old(self).is_4bpp, palbank) is None ==> {
                if old(self).patterns.len() < old(self).max_patterns {
                    &&& final(self).pixels() == old(self).pixels().push(new_img.0@)
                    &&& r == Some(
                        SbEntry { tile_num: old(self).patterns.len(), hflip: false, vflip: false, palbank },
                    )
                } else {
                    final(self).pixels() == old(self).pixels() && r is None
                }
            },
    {
        if let Some(sbe) = self.find_existing(&new_img, palbank) {
            Some(sbe)
        } else {
            self.try_onboard_without_reduction(new_img, palbank)
        }
    }
}

} // verus!
