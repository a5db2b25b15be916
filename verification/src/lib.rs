//! A symbolic boolean-expression engine: algebraic rewriting of formulas
//! into canonical normal form, a total order on expression trees, truth
//! tables, minterm encoding, and Quine–McCluskey-style prime-implicant
//! discovery.

pub mod ast;
pub mod logic;
pub mod sast;
pub mod mccluskey;
pub mod nodes;
pub mod order;
