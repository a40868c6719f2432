use vstd::prelude::*;

pub mod errno;
pub mod inttypes;
pub mod strto;
pub mod strto_laws;
pub mod strto_radix_laws;
pub mod unistd;
