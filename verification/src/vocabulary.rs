//! Cells that the evaluator and the control library give meaning to. These
//! are stand-ins with this crate's own identities: values that the evaluator
//! itself builds carry the evaluator's identities for the same cells.
use crate::value::CellId;
use vstd::prelude::*;

verus! {

/// The function of a call record.
pub const FUNCTION: CellId = 0x4c5a0b1e8d2f47a39e61c07b52d8f3a1;

/// The parameter list of a lambda.
pub const PARAMS: CellId = 0x9b07e2c4a15d4f6e8c3a7d21b0e95f48;

/// The body of a lambda.
pub const BODY: CellId = 0x2e8f71d3c0a94b5687f1e2d3c4b5a697;

/// A closure wrapping a lambda with its environment.
pub const CLOSURE: CellId = 0x6d1c3f5a7e9b4d2c8a0e1f3b5d7c9e2a;

/// The captured bindings of a closure.
pub const ENVIRONMENT: CellId = 0x83a5c7e9f1b34d6a9c2e4f6a8b0d1c3e;

/// The expression argument of quoting, evaluation and layout programs.
pub const EXPRESSION: CellId = 0xf0e1d2c3b4a5968778695a4b3c2d1e0f;

/// A record whose field asks for its evaluation to be shown.
pub const EVALUATE: CellId = 0x1a2b3c4d5e6f708192a3b4c5d6e7f809;

/// A callable implemented by the host.
pub const FFI: CellId = 0x5f4e3d2c1b0a99887766554433221100;

/// A binder: a pattern or a let clause naming one cell.
pub const BIND: CellId = 0x7c6b5a4938271605f4e3d2c1b0a99887;

/// A destructuring pattern.
pub const PATTERN: CellId = 0x0f1e2d3c4b5a69788796a5b4c3d2e1f0;

/// Quoting and unquoting.
pub const QUOTE: CellId = 0xa1b2c3d4e5f60718293a4b5c6d7e8f90;

pub const UNQUOTE: CellId = 0x19283746556473829100aabbccddeeff;

/// Sequential and recursive local bindings.
pub const LET: CellId = 0x3344556677889900aabbccddeeff0011;

pub const WHERE: CellId = 0x99aabbccddeeff001122334455667788;

/// The clause list of `let` and `where`.
pub const BINDINGS: CellId = 0x0123456789abcdeffedcba9876543210;

/// The value of a clause or of a scrutinee.
pub const VALUE: CellId = 0xfedcba98765432100123456789abcdef;

/// Pattern matching and its cases.
pub const MATCH: CellId = 0x13579bdf02468ace13579bdf02468ace;

pub const CASES: CellId = 0x2468ace013579bdf2468ace013579bdf;

/// The display name of a named record.
pub const NAME: CellId = 0x5e6f708192a3b4c5d6e7f8091a2b3c4d;

} // verus!
