//! Palette bank identifiers of the tile tooling.
use vstd::prelude::*;

verus! {

/// A palette bank: a plain one, numbered from the world's bank offset, or a
/// blended one, numbered absolutely.
#[derive(Copy, Clone, Debug, PartialEq, Eq, Structural)]
pub enum PalBankId {
    Plain(usize),
    Blended(usize),
}

impl PalBankId {
    pub fn new(palbank: usize, blend: bool) -> (r: Self)
        ensures
            r == (if blend {
                PalBankId::Blended(palbank)
            } else {
                PalBankId::Plain(palbank)
            }),
    {
        if blend {
            PalBankId::Blended(palbank)
        } else {
            PalBankId::Plain(palbank)
        }
    }

    /// The hardware palette bank number, with plain banks placed after
    /// `pal_bank_ofs`.
    pub fn bake(&self, pal_bank_ofs: usize) -> (r: u16)
        requires
            *self matches PalBankId::Plain(x) ==> pal_bank_ofs + x <= usize::MAX,
        ensures
            r == match *self {
                PalBankId::Plain(x) => (pal_bank_ofs + x) as u16,
                PalBankId::Blended(x) => x as u16,
            },
    {
        match self {
            PalBankId::Plain(x) => (pal_bank_ofs + *x) as u16,
            PalBankId::Blended(x) => *x as u16,
        }
    }
}

} // verus!
