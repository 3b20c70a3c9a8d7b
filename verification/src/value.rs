//! The typed values a cell can hold, the formula tree, and their
//! mathematical views.

use vstd::prelude::*;

verus! {

use crate::coord::Coord;

/// Evaluation-time failures. The parser never produces one, but the value
/// space a cell ranges over includes them.
#[derive(Copy, Clone, Debug, PartialEq, Eq, Structural)]
pub enum CellErr {
    InvalidType,
}

/// A formula tree: a call of a lowercase-named function on formula
/// arguments, a reference to a coordinate, or a literal plain value.
#[derive(Debug, PartialEq)]
pub enum Formula {
    FunctionCall(String, Vec<Formula>),
    Reference(Coord),
    Literal(Box<CellValue>),
}

/// What a cell holds. A number keeps its cleaned literal text: the digits
/// and optional leading sign, with whitespace trimmed and underscores
/// stripped.
#[derive(Debug, PartialEq)]
pub enum CellValue {
    Empty,
    Text(String),
    Number(String),
    Formula(Formula),
    Error(CellErr),
}

/// A parsed cell: its value and the source span it was read from, exactly
/// as it appeared before the terminator.
#[derive(Debug, PartialEq)]
pub struct Cell {
    pub value: CellValue,
    pub string_backing: String,
}

/// The view of a formula tree.
#[verifier::ext_equal]
pub enum FormulaV {
    FunctionCall(Seq<char>, Seq<FormulaV>),
    Reference(Coord),
    Literal(Box<CellValueV>),
}

/// The view of a cell value.
#[verifier::ext_equal]
pub enum CellValueV {
    Empty,
    Text(Seq<char>),
    Number(Seq<char>),
    Formula(FormulaV),
    Error(CellErr),
}

/// The view of a parsed cell.
#[verifier::ext_equal]
pub struct CellV {
    pub value: CellValueV,
    pub backing: Seq<char>,
}

impl View for Formula {
    type V = FormulaV;

    open spec fn view(&self) -> FormulaV
        decreases self,
    {
        match self {
            Formula::FunctionCall(name, args) => FormulaV::FunctionCall(
                name@,
                view_formula_seq(args@),
            ),
            Formula::Reference(c) => FormulaV::Reference(*c),
            Formula::Literal(b) => FormulaV::Literal(Box::new((**b).view())),
        }
    }
}

/// The views of a run of formula arguments, in order.
pub open spec fn view_formula_seq(s: Seq<Formula>) -> Seq<FormulaV>
    decreases s,
{
    if s.len() == 0 {
        Seq::empty()
    } else {
        seq![s[0].view()] + view_formula_seq(s.subrange(1, s.len() as int))
    }
}

impl View for CellValue {
    type V = CellValueV;

    open spec fn view(&self) -> CellValueV
        decreases self,
    {
        match self {
            CellValue::Empty => CellValueV::Empty,
            CellValue::Text(s) => CellValueV::Text(s@),
            CellValue::Number(s) => CellValueV::Number(s@),
            CellValue::Formula(f) => CellValueV::Formula(f.view()),
            CellValue::Error(e) => CellValueV::Error(*e),
        }
    }
}

impl View for Cell {
    type V = CellV;

    open spec fn view(&self) -> CellV {
        CellV { value: self.value@, backing: self.string_backing@ }
    }
}

/// Each argument's view stands at its own place.
pub proof fn lemma_view_formula_seq(s: Seq<Formula>)
    ensures
        view_formula_seq(s).len() == s.len(),
        forall|k: int| 0 <= k < s.len() ==> view_formula_seq(s)[k] == #[trigger] s[k]@,
    decreases s,
{
    if s.len() == 0 {
        assert(view_formula_seq(s).len() == 0);
    } else {
        let t = s.subrange(1, s.len() as int);
        lemma_view_formula_seq(t);
        assert(view_formula_seq(s) == seq![s[0].view()] + view_formula_seq(t));
        assert forall|k: int| 0 <= k < s.len() implies view_formula_seq(s)[k] == #[trigger] s[k]@
        by {
            if k > 0 {
                assert(t[k - 1] == s[k]);
                assert(view_formula_seq(s)[k] == view_formula_seq(t)[k - 1]);
            }
        }
    }
}

/// A view run extends one element at a time.
pub proof fn lemma_view_formula_seq_push(s: Seq<Formula>, f: Formula)
    ensures
        view_formula_seq(s.push(f)) == view_formula_seq(s).push(f@),
{
    lemma_view_formula_seq(s.push(f));
    lemma_view_formula_seq(s);
    assert forall|k: int| 0 <= k < s.len() + 1 implies view_formula_seq(s.push(f))[k]
        == view_formula_seq(s).push(f@)[k] by {
        assert(view_formula_seq(s.push(f))[k] == s.push(f)[k]@);
        if k < s.len() {
            assert(s.push(f)[k] == s[k]);
        } else {
            assert(s.push(f)[k] == f);
        }
    }
    assert(view_formula_seq(s.push(f)) =~= view_formula_seq(s).push(f@));
}

} // verus!
