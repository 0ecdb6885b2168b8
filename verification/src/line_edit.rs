//! The stock line-edit control shared by atomic-value libraries. A library
//! supplies the spelling, affixes, an optional placeholder and a conversion
//! callback; the control keeps them as given.
use crate::value::CellId;
use vstd::prelude::*;
use vstd::string::*;

verus! {

pub const ID: CellId = 0x26b5394bf7beb5dce00140f9e03bc465;

/// Arguments passed to an atomic line editor's write-back rule.
pub const CURRENT: CellId = 0x0e6a49d1c78325bfa9231c05e84d67fb;

pub const INPUT: CellId = 0xd58c17f3402b96ea6f0e4a2b91c738d5;

/// The font family a line editor uses.
#[derive(Clone, Copy, Debug, PartialEq, Eq, Structural)]
pub enum TextFamily {
    SystemUi,
    Monospace,
}

/// A line editor's description: its text, placeholder, write-back
/// callback, affixes and font family.
pub struct LineEdit<U> {
    pub text: String,
    pub placeholder: Option<String>,
    pub update: U,
    pub prefix: String,
    pub suffix: String,
    pub family: TextFamily,
}

/// What a library lays out: here, a line editor.
pub enum Layout<U> {
    LineEdit(LineEdit<U>),
}

/// The placeholder text, if any.
pub open spec fn placeholder_text(placeholder: Option<String>) -> Option<Seq<char>> {
    match placeholder {
        Some(p) => Some(p@),
        None => None,
    }
}

/// A line editor's description, holding exactly what it is given.
pub fn description<U>(
    text: &str,
    placeholder: Option<&str>,
    update: U,
    prefix: &str,
    suffix: &str,
    family: TextFamily,
) -> (r: LineEdit<U>)
    ensures
        r.text@ == text@,
        placeholder_text(r.placeholder) == match placeholder {
            Some(p) => Some(p@),
            None => None,
        },
        r.update == update,
        r.prefix@ == prefix@,
        r.suffix@ == suffix@,
        r.family == family,
{
    LineEdit {
        text: String::from_str(text),
        placeholder: match placeholder {
            Some(p) => Some(String::from_str(p)),
            None => None,
        },
        update,
        prefix: String::from_str(prefix),
        suffix: String::from_str(suffix),
        family,
    }
}

/// A line editor without a placeholder in the given family.
pub fn layout_with_family<U>(
    text: &str,
    update: U,
    prefix: &str,
    suffix: &str,
    family: TextFamily,
) -> (r: Layout<U>)
    ensures
        match r {
            Layout::LineEdit(line) => line.text@ == text@ && line.placeholder is None
                && line.update == update && line.prefix@ == prefix@ && line.suffix@ == suffix@
                && line.family == family,
        },
{
    Layout::LineEdit(description(text, None, update, prefix, suffix, family))
}

/// A line editor without a placeholder in the system UI family.
pub fn layout<U>(text: &str, update: U, prefix: &str, suffix: &str) -> (r: Layout<U>)
    ensures
        match r {
            Layout::LineEdit(line) => line.text@ == text@ && line.placeholder is None
                && line.update == update && line.prefix@ == prefix@ && line.suffix@ == suffix@
                && line.family == TextFamily::SystemUi,
        },
{
    layout_with_family(text, update, prefix, suffix, TextFamily::SystemUi)
}

} // verus!
