//! A verified Intcode-style virtual machine and the small puzzle
//! computations built around it: a growable signed-integer memory, an
//! instruction decoder, a stepping execution engine with suspend/resume
//! input handling, and an amplifier feedback network that wires several
//! machine instances into a cooperatively scheduled ring.

pub mod asteroids;
pub mod fuel;
pub mod gravity;
pub mod image;
pub mod network;
pub mod orbits;
pub mod password;
pub mod robot;
pub mod vm;
pub mod vm_laws;
pub mod wires;
