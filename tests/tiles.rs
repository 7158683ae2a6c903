use flowergal::map::{Grid, RoomBank};
use flowergal::palette::PalBankId;
use flowergal::pattern::{Pattern, PatternBank, SbEntry};

fn ramp() -> Pattern {
    Pattern((0..64).collect())
}

fn entry(tile_num: usize, hflip: bool, vflip: bool, palbank: PalBankId) -> SbEntry {
    SbEntry { tile_num, hflip, vflip, palbank }
}

#[test]
fn flips_mirror_pixels() {
    let p = ramp();
    let h = p.hflip();
    assert_eq!(&h.0[..8], &[7, 6, 5, 4, 3, 2, 1, 0]);
    assert_eq!(h.0[63], 56);
    let v = p.vflip();
    assert_eq!(&v.0[..8], &[56, 57, 58, 59, 60, 61, 62, 63]);
    assert_eq!(v.0[63], 7);
    assert!(h.hflip() == p);
}

#[test]
fn new_bank_holds_blank_pattern() {
    let b = PatternBank::new(true);
    assert_eq!(b.patterns.len(), 1);
    assert_eq!(b.max_patterns, 512);
    assert!(b.patterns[0] == Pattern(vec![0; 64]));
    assert_eq!(PatternBank::new(false).max_patterns, 256);
}

#[test]
fn finds_flipped_patterns_in_4bpp() {
    let mut b = PatternBank::new(true);
    let pal = PalBankId::new(2, false);
    assert_eq!(b.try_onboard_pattern(ramp(), pal), Some(entry(1, false, false, pal)));
    assert_eq!(b.try_onboard_pattern(ramp(), pal), Some(entry(1, false, false, pal)));
    assert_eq!(b.find_existing(&ramp().hflip(), pal), Some(entry(1, true, false, pal)));
    assert_eq!(b.find_existing(&ramp().vflip(), pal), Some(entry(1, false, true, pal)));
    assert_eq!(b.find_existing(&ramp().hflip().vflip(), pal), Some(entry(1, true, true, pal)));
    assert_eq!(b.find_existing(&Pattern(vec![5; 64]), pal), None);
    assert_eq!(b.patterns.len(), 2);
}

#[test]
fn no_flips_in_8bpp() {
    let mut b = PatternBank::new(false);
    let pal = PalBankId::new(0, true);
    assert_eq!(b.try_onboard_pattern(ramp(), pal), Some(entry(1, false, false, pal)));
    assert_eq!(b.try_onboard_pattern(ramp().hflip(), pal), Some(entry(2, false, false, pal)));
}

#[test]
fn full_bank_refuses_new_patterns() {
    let mut b = PatternBank::new(false);
    b.max_patterns = 2;
    let pal = PalBankId::Plain(0);
    assert_eq!(b.try_onboard_without_reduction(ramp(), pal), Some(entry(1, false, false, pal)));
    assert_eq!(b.try_onboard_pattern(Pattern(vec![9; 64]), pal), None);
    assert_eq!(b.patterns.len(), 2);
}

#[test]
fn palette_banks_bake() {
    assert_eq!(PalBankId::new(3, false), PalBankId::Plain(3));
    assert_eq!(PalBankId::new(3, true), PalBankId::Blended(3));
    assert_eq!(PalBankId::Plain(3).bake(4), 7);
    assert_eq!(PalBankId::Blended(3).bake(4), 3);
    assert_eq!(PalBankId::Plain(65535).bake(2), 1);
}

#[test]
fn grid_starts_with_placeholders() {
    let g = Grid::new((3, 2), true);
    assert_eq!(g.sb_entries.len(), 2);
    assert_eq!(g.sb_entries[1].len(), 3);
    assert_eq!(g.sb_entries[1][2], SbEntry::default());
    assert_eq!(SbEntry::default(), entry(42, true, true, PalBankId::Blended(42)));
}

#[test]
fn grid_set_entry() {
    let mut g = Grid::new((3, 2), true);
    let e = entry(7, false, true, PalBankId::Plain(1));
    g.set_sbe(2, 1, e);
    assert_eq!(g.sb_entries[1][2], e);
    assert_eq!(g.sb_entries[0][2], SbEntry::default());
}

#[test]
fn room_bank_layout_and_set() {
    let mut rb = RoomBank::new((64, 48), (4, 3), true);
    assert_eq!(rb.map_width, 8);
    assert_eq!(rb.map_height, 6);
    assert_eq!(rb.rooms.len(), 2);
    assert_eq!(rb.rooms[0].len(), 2);
    let e = entry(9, false, false, PalBankId::Blended(0));
    rb.set_sbe(5, 4, e);
    assert_eq!(rb.rooms[1][1].sb_entries[1][1], e);
    assert_eq!(rb.rooms[0][0].sb_entries[1][1], SbEntry::default());
}
