//! The traversal capability over the AST: consumers (printers, future
//! evaluators) implement one method per grammar variant and get tree walking
//! without the AST depending on them.

use vstd::prelude::*;
use crate::parse_node::{GrammarItem, ParseNode};

verus! {

/// A visitor over the AST, parameterized by its result type. The provided
/// `visit` inspects the node's tag and calls the matching per-variant method;
/// it does not recurse into children itself — a per-variant method that wants
/// a full traversal calls `visit` on each child explicitly.
pub trait Visitor<T> {
    fn visit_program(&mut self, a: &ParseNode) -> T;

    fn visit_abstraction(&mut self, a: &ParseNode) -> T;

    fn visit_application(&mut self, a: &ParseNode) -> T;

    fn visit_assignment(&mut self, a: &ParseNode) -> T;

    fn visit_literal_int(&mut self, i: &ParseNode) -> T;

    fn visit_variable(&mut self, v: &ParseNode) -> T;

    fn visit(&mut self, n: &ParseNode) -> T {
        match n.entry {
            GrammarItem::LiteralInt(_) => self.visit_literal_int(n),
            GrammarItem::Variable(_) => self.visit_variable(n),
            GrammarItem::Abstraction(_, _) => self.visit_abstraction(n),
            GrammarItem::Application(_, _) => self.visit_application(n),
            GrammarItem::Assignment(_, _) => self.visit_assignment(n),
            GrammarItem::Program(_) => self.visit_program(n),
        }
    }
}

} // verus!
