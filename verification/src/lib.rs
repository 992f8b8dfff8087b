//! Translation of a rank-1 constraint system (R1CS) circuit into an
//! arithmetic-circuit intermediate representation (ACIR), together with a
//! reconstruction of the circuit's interface description (ABI) from its
//! symbol table.
//!
//! The circuit translator ([`circuit`]) rewrites each R1CS constraint into
//! one assert-zero opcode and partitions the witnesses by the header
//! counts; [`semantics`] proves that every emitted opcode is satisfied by
//! exactly the assignments that satisfy its constraint. The ABI
//! reconstructor ([`abi`]) parses the per-signal symbol table ([`symbols`]),
//! groups the lines positionally, infers array shapes, and maps parameters
//! to witness ranges. Field coefficients are carried as little-endian byte
//! encodings and combined by the BN254 scalar-field arithmetic of the
//! arkworks crates ([`field`]).

pub mod abi;
pub mod circuit;
pub mod field;
pub mod semantics;
pub mod symbols;
