//! Evaluation-local layout output. A layout program emits layouts while it
//! evaluates; exactly one emitted root is the program's layout, no emission
//! leaves the ordinary value result alone, and a halt or a final absence
//! drops the entire output. Each layout operation checks the shape of its
//! call before it builds: how many children it takes, and which delimiter a
//! bracket names. The cells of the layout vocabulary here are stand-ins
//! with this crate's own identities: values that the layout library itself
//! builds carry that library's identities for the same cells.
use crate::absent::{absence, absence_with_detail, spec_reason, with_detail, with_reason};
use crate::value::{CellId, Data, Value};
use crate::vocabulary::FUNCTION;
use vstd::prelude::*;

verus! {

/// The reason given to a malformed layout program.
pub const INVALID_PROGRAM: CellId = 0x5e1a7c3b9d2f4e6a8c0b1d3f5a7c9e1b;

/// The closure field of a layout program value.
pub const LAYOUT_PROGRAM: CellId = 0xa4c6e8f0b2d44f6a8c1e3b5d7f9a2c4e;

/// Lays its children out in a row.
pub const ROW: CellId = 0x3b8e1d6f2a4c4b7e9d0f1a2b3c4d5e6f;

/// Lays its children out in a column, aligned at the baseline of one.
pub const COL: CellId = 0x4c9f2e7a3b5d4c8f0e1a2b3c4d5e6f70;

/// Pads its one child.
pub const PAD: CellId = 0x5da03f8b4c6e4d9a1f2b3c4d5e6f7081;

/// Draws its children over one another.
pub const OVERLAY: CellId = 0x6eb1409c5d7f4eab2a3c4d5e6f708192;

/// Shows the first of its children that fits.
pub const ALTERNATIVES: CellId = 0x7fc251ad6e804fbc3b4d5e6f708192a3;

/// Encloses its one child in a delimiter.
pub const BRACKET: CellId = 0x80d362be7f9140cd4c5e6f708192a3b4;

/// Makes its one child select its target.
pub const SELECTABLE: CellId = 0x91e473cf80a241de5d6f708192a3b4c5;

/// Makes its one child hover its target.
pub const HOVERABLE: CellId = 0xa2f584d091b342ef6e708192a3b4c5d6;

/// Keeps hovering from passing through its one child.
pub const HOVER_BLOCK: CellId = 0xb30695e1a2c443f07f8192a3b4c5d6e7;

/// Makes its one child pick a value.
pub const PICKABLE: CellId = 0xc417a6f2b3d5440180a2b3c4d5e6f7f8;

/// Hands its one child's events to a handler.
pub const ON_EVENT: CellId = 0xd528b703c4e6451291b3c4d5e6f70809;

/// The delimiters that a bracket names.
pub const PAREN: CellId = 0xe639c814d5f74623a2c4d5e6f708191a;

pub const SQUARE: CellId = 0xf74ad925e6084734b3d5e6f708192a2b;

pub const CURLY: CellId = 0x085bea36f7194845c4e6f708192a3b3c;

/// The delimiter of a bracket.
#[derive(Clone, Copy, Debug, PartialEq, Eq, Structural)]
pub enum Delim {
    Paren,
    Bracket,
    Brace,
}

/// The delimiter that a cell names.
pub open spec fn spec_delimiter(value: Data) -> Option<Delim> {
    match value {
        Data::Cell(cell) => if cell == PAREN {
            Some(Delim::Paren)
        } else if cell == SQUARE {
            Some(Delim::Bracket)
        } else if cell == CURLY {
            Some(Delim::Brace)
        } else {
            None
        },
        _ => None,
    }
}

/// The delimiter that a bracket's argument names, if it names one.
pub fn delimiter(value: &Value) -> (r: Option<Delim>)
    ensures
        r == spec_delimiter(value@),
{
    match value.as_cell() {
        Some(cell) => if cell == PAREN {
            Some(Delim::Paren)
        } else if cell == SQUARE {
            Some(Delim::Bracket)
        } else if cell == CURLY {
            Some(Delim::Brace)
        } else {
            None
        },
        None => None,
    }
}

/// Whether a layout operation accepts the children its body emitted: one
/// child for padding, brackets and the pointer wrappers; at least one for
/// alternatives; for a column, a baseline child among them unless there are
/// none; any number for rows and overlays; and none of these shapes for any
/// other operation, which takes no children.
pub open spec fn spec_accepts_children(function: CellId, children: nat, baseline: nat) -> bool {
    if function == PAD || function == BRACKET || function == SELECTABLE || function == HOVERABLE
        || function == HOVER_BLOCK || function == PICKABLE || function == ON_EVENT {
        children == 1
    } else if function == ALTERNATIVES {
        children > 0
    } else if function == COL {
        children == 0 || baseline < children
    } else {
        function == ROW || function == OVERLAY
    }
}

/// The children each layout operation takes: every wrapper (padding,
/// brackets, selection, hovering, hover blocks, picking, event handlers)
/// exactly one; alternatives at least one; a column any number with its
/// baseline among them; rows and overlays any number; every other operation
/// none of these shapes.
pub proof fn lemma_operation_children(function: CellId, children: nat, baseline: nat)
    ensures
        spec_accepts_children(PAD, children, baseline) == (children == 1),
        spec_accepts_children(BRACKET, children, baseline) == (children == 1),
        spec_accepts_children(SELECTABLE, children, baseline) == (children == 1),
        spec_accepts_children(HOVERABLE, children, baseline) == (children == 1),
        spec_accepts_children(HOVER_BLOCK, children, baseline) == (children == 1),
        spec_accepts_children(PICKABLE, children, baseline) == (children == 1),
        spec_accepts_children(ON_EVENT, children, baseline) == (children == 1),
        spec_accepts_children(ALTERNATIVES, children, baseline) == (children >= 1),
        spec_accepts_children(COL, children, baseline) == (children == 0 || baseline < children),
        spec_accepts_children(ROW, children, baseline),
        spec_accepts_children(OVERLAY, children, baseline),
        function != PAD && function != BRACKET && function != SELECTABLE && function != HOVERABLE
            && function != HOVER_BLOCK && function != PICKABLE && function != ON_EVENT && function
            != ALTERNATIVES && function != COL && function != ROW && function != OVERLAY
            ==> !spec_accepts_children(function, children, baseline),
{
}

/// Whether a layout operation accepts `children` emitted children, with
/// `baseline` the child a column aligns at.
pub fn accepts_children(function: CellId, children: usize, baseline: usize) -> (r: bool)
    ensures
        r == spec_accepts_children(function, children as nat, baseline as nat),
{
    if function == PAD || function == BRACKET || function == SELECTABLE || function == HOVERABLE
        || function == HOVER_BLOCK || function == PICKABLE || function == ON_EVENT {
        children == 1
    } else if function == ALTERNATIVES {
        children > 0
    } else if function == COL {
        children == 0 || baseline < children
    } else {
        function == ROW || function == OVERLAY
    }
}

/// The outcome of evaluating a layout program.
pub struct Evaluation {
    pub result: Value,
    pub completed: bool,
    pub remaining_fuel: usize,
}

/// Why building one layout operation failed: an absent result that the
/// program sees, or a halt of the evaluator that ends it.
pub enum BuildError<H> {
    Absent(Value),
    Halt(H),
}

/// The only element, if there is exactly one.
pub fn single<T>(children: Vec<T>) -> (r: Option<T>)
    ensures
        children@.len() == 1 ==> r == Some(children@[0]),
        children@.len() != 1 ==> r is None,
{
    if children.len() == 1 {
        let mut children = children;
        children.pop()
    } else {
        None
    }
}

/// The failure of a layout operation that `function` could not build.
pub fn invalid<H>(function: CellId) -> (r: BuildError<H>)
    ensures
        r matches BuildError::Absent(v) && v@ == absence_with_detail(
            INVALID_PROGRAM,
            FUNCTION,
            Data::Cell(function),
        ),
{
    BuildError::Absent(with_detail(INVALID_PROGRAM, FUNCTION, Value::Cell(function)))
}

/// The result and layout that an evaluation's outcome and emissions give:
/// an incomplete run or an absent result yields no layout; more than one
/// emitted root makes the program invalid; otherwise the one root, if
/// any, is the layout.
pub fn finish<T>(evaluation: Evaluation, children: Vec<T>) -> (r: (Evaluation, Option<T>))
    ensures
        r.0.completed == evaluation.completed,
        r.0.remaining_fuel == evaluation.remaining_fuel,
        !evaluation.completed || spec_reason(evaluation.result@) is Some ==> r.0.result@
            == evaluation.result@ && r.1 is None,
        evaluation.completed && spec_reason(evaluation.result@) is None && children@.len() > 1
            ==> r.0.result@ == absence(INVALID_PROGRAM) && r.1 is None,
        evaluation.completed && spec_reason(evaluation.result@) is None && children@.len() <= 1
            ==> r.0.result@ == evaluation.result@ && r.1 == (if children@.len() == 1 {
            Some(children@[0])
        } else {
            None
        }),
{
    let mut evaluation = evaluation;
    let mut children = children;
    if !evaluation.completed || crate::absent::is_absent(&evaluation.result) {
        (evaluation, None)
    } else if children.len() > 1 {
        evaluation.result = with_reason(INVALID_PROGRAM);
        (evaluation, None)
    } else {
        let layout = children.pop();
        (evaluation, layout)
    }
}

} // verus!
