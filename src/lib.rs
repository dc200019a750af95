//! Small numeric utilities, chief among them arbitrary-precision unsigned
//! decimal integers.
pub mod bigint;
pub mod biguint;
pub mod days;
pub mod digits;
pub mod fibs;
pub mod ints;
pub mod iterativeseq;
pub mod laws;
pub mod nonempty;
pub mod numbers;
pub mod palindromes;
pub mod primes;
pub mod sequences;
pub mod subseq;
pub mod triangles;
