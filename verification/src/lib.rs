//! In-place transposition of rectangular row-major matrices, after the
//! recursive algorithm of Gustavson and Walker, together with the
//! number-theoretic transform entry points that consume it.

pub mod perm;

pub mod gw18;

pub mod field;

pub mod ntt;
