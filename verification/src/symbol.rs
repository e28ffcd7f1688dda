use vstd::prelude::*;

verus! {

/// Error-correction level of a symbol, ordered from least to most correction.
#[derive(Clone, Copy, Debug, PartialEq, Eq, Structural)]
pub enum EcLevel {
    L,
    M,
    Q,
    H,
}

impl EcLevel {
    /// Position of this level in the correction order: `L` is 0, `H` is 3.
    pub open spec fn rank_spec(self) -> int {
        match self {
            EcLevel::L => 0,
            EcLevel::M => 1,
            EcLevel::Q => 2,
            EcLevel::H => 3,
        }
    }

    /// Executable form of [`Self::rank_spec`].
    pub fn rank(self) -> (r: u8)
        ensures
            r as int == self.rank_spec(),
    {
        match self {
            EcLevel::L => 0,
            EcLevel::M => 1,
            EcLevel::Q => 2,
            EcLevel::H => 3,
        }
    }
}

/// The number of data bits a symbol of the given version (1 to 40) holds at
/// the error-correction level of the given rank: a fixed standardized table.
pub uninterp spec fn qr_data_bits(version: int, level: int) -> usize;

/// Relies on `qrcode::bits::Bits::max_len`: for the standard versions 1 to 40
/// it returns the data-bit capacity of the symbol, a table lookup on version
/// and error-correction level alone.
#[verifier::external_body]
pub(crate) fn qr_max_data_bits(version: u8, level: EcLevel) -> (r: usize)
    requires
        1 <= version <= 40,
    ensures
        r == qr_data_bits(version as int, level.rank_spec()),
{
    let ec = match level {
        EcLevel::L => qrcode::EcLevel::L,
        EcLevel::M => qrcode::EcLevel::M,
        EcLevel::Q => qrcode::EcLevel::Q,
        EcLevel::H => qrcode::EcLevel::H,
    };
    qrcode::bits::Bits::new(qrcode::Version::Normal(version as i16)).max_len(ec).unwrap_or(0)
}

} // verus!
