//! Shared value types: wiring specifications, plug wires, and error kinds.

use vstd::prelude::*;

use crate::alphabet::is_upper;

verus! {

/// An unordered pair of symbols to be swapped by the plug board.
#[derive(Clone, Copy, Debug, PartialEq, Eq, Structural)]
pub struct EnigmaPlugBoardWire(pub char, pub char);

/// The two wiring tables of one rotor, each a 26-symbol string; `backward`
/// must be the true inverse of `forward`.
#[derive(Clone, Copy)]
pub struct EnigmaRotorWiring<'a> {
    pub forward: &'a str,
    pub backward: &'a str,
}

/// Everything needed to build one rotor: its wiring, its notch symbol and the
/// symbol initially shown in its window.
#[derive(Clone, Copy)]
pub struct EnigmaRotorSetting<'a> {
    pub wiring: EnigmaRotorWiring<'a>,
    pub notch: char,
    pub window: char,
}

/// Why a requested rotor wiring was rejected.
#[derive(Clone, Copy, Debug, PartialEq, Eq, Structural)]
pub enum EnigmaRotorWireError {
    InvaildLength,
    InvaildWiring,
}

/// Why a requested plug wire was rejected; carries the rejected pair.
#[derive(Clone, Copy, Debug, PartialEq, Eq, Structural)]
pub enum EnigmaPlugBoardError {
    AlreadyHaveWire(EnigmaPlugBoardWire),
}

/// Holds when both symbols of a plug wire belong to the alphabet.
pub open spec fn wire_wf(w: EnigmaPlugBoardWire) -> bool {
    is_upper(w.0) && is_upper(w.1)
}

} // verus!
