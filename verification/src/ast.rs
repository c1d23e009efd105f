use vstd::prelude::*;

verus! {

/// Syntax tree of a parsed pattern.
///
/// Each composite node exclusively owns its children; a tree is immutable
/// once built. Equality is structural.
#[derive(Debug, PartialEq)]
pub enum RegexAst {
    /// `.`: matches any single character.
    Dot,
    /// Matches exactly the one given character.
    Literal(char),
    /// Sequence: left part, then right part.
    Concat(Box<RegexAst>, Box<RegexAst>),
    /// Choice: left part or right part.
    Alternate(Box<RegexAst>, Box<RegexAst>),
    /// `*`: zero or more repetitions of the inner part.
    KleeneStar(Box<RegexAst>),
    /// `+`: one or more repetitions of the inner part.
    Plus(Box<RegexAst>),
    /// `?`: zero or one repetition of the inner part.
    Qmark(Box<RegexAst>),
}

} // verus!
