//! A rotor cipher machine: an ordered chain of rotors, a reflector and a
//! plugboard together compute the substitution produced by pressing one key,
//! and a notch-driven stepping cascade makes that substitution vary across a
//! message.

pub mod alphabet;
pub mod enigma_component;
pub mod enigma_machine;
pub mod enigma_types;

pub use crate::alphabet::char_to_index;
pub use crate::alphabet::index_to_char;
pub use crate::enigma_component::EnigmaPlugBoard;
pub use crate::enigma_component::EnigmaReflector;
pub use crate::enigma_component::EnigmaRotor;
pub use crate::enigma_machine::EnigmaMachine;
pub use crate::enigma_types::EnigmaPlugBoardError;
pub use crate::enigma_types::EnigmaPlugBoardWire;
pub use crate::enigma_types::EnigmaRotorSetting;
pub use crate::enigma_types::EnigmaRotorWireError;
pub use crate::enigma_types::EnigmaRotorWiring;
