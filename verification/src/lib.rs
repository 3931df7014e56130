//! homo: homomorphic encryption, made tangible.

pub mod bigint;
pub mod text;
pub mod util;
pub mod primes;
pub mod ring;
pub mod poly_laws;
pub mod schemes;
pub mod io;
pub mod viz;
pub mod playground;
pub mod eval_laws;
pub mod attacks;
