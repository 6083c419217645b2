use vstd::prelude::*;

mod ces;
mod compile;
mod content;
mod fit;
mod grammar;
mod polynomial;
mod rex;
mod sentence;

pub use ces::CesInstance;
pub use ces::CesName;
pub use ces::ImmediateDef;
pub use ces::ToCesName;
pub use content::Context;
pub use content::NodeID;
pub use content::PartialContent;
pub use grammar::Grammar;
pub use grammar::Production;
pub use grammar::ProductionID;
pub use grammar::SymbolID;
pub use polynomial::Node;
pub use polynomial::NodeList;
pub use polynomial::Polynomial;
pub use rex::FatArrow;
pub use rex::FatArrowRule;
pub use rex::Rex;
pub use rex::RexKind;
pub use rex::RexTree;
pub use rex::ThinArrowRule;
pub use sentence::Generator;
pub use sentence::GeneratorView;
pub use sentence::ProductionUsed;
pub use sentence::Sentence;

verus! {

/// The binary operators of the rule-expression language: `+` (sum of
/// rule expressions) and the three fat arrows `=>`, `<=`, `<=>`.
/// Juxtaposition (product) carries no operator token.
#[derive(Clone, Copy, PartialEq, Eq, Structural, Debug)]
pub enum BinOp {
    Add,
    FatTx,
    FatRx,
    FatDx,
}

/// The errors of the rule-expression engine.
#[derive(Debug)]
pub enum AscesisError {
    /// A polynomial presented as a node list is not one.
    NotANodeList,
    /// A rule expression violates the tree invariants.
    InvalidAST,
    /// The compiler met a fat arrow rule: the caller forgot to normalize.
    FatLeak,
    /// An instance referenced a name absent from the context at compile time.
    UnexpectedDependency(String),
    /// Returned by the dependency pre-check: the caller may install the
    /// content and retry.
    MissingDependency(String),
}

} // verus!
