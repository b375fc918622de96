//! Vector commitments over the banderwagon group for verkle trie nodes:
//! the scalar field, the commitment input rules, the Pedersen hash vector
//! and the homomorphic update rule.

pub mod commit;
pub mod error;
pub mod field;
pub mod pedersen;
pub mod update;
