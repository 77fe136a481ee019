//! The abstract syntax tree: a parsed term tagged by `GrammarItem`, paired
//! with a type annotation slot. The type slot is carried but never computed:
//! the parser's type-annotation step is a deliberate no-op and always yields
//! `Unknown`.

use vstd::prelude::*;

verus! {

/// Mathematical value of a type annotation.
pub enum TypeV {
    Variable(Seq<char>),
    Abstraction(Box<TypeV>, Box<TypeV>),
    Unknown,
}

/// Mathematical value of a grammar item.
pub enum GrammarItemV {
    LiteralInt(int),
    Variable(Seq<char>),
    Application(Box<ParseNodeV>, Box<ParseNodeV>),
    Abstraction(Seq<char>, Box<ParseNodeV>),
    Assignment(Seq<char>, Box<ParseNodeV>),
    Program(Seq<ParseNodeV>),
}

/// Mathematical value of an AST node.
pub struct ParseNodeV {
    pub entry: GrammarItemV,
    pub node_type: TypeV,
}

/// A type annotation. Every node the parser builds carries `Unknown`: the
/// grammar reserves syntax for annotations, but reading one is a stub.
#[derive(Debug, PartialEq)]
pub enum Type {
    Variable(String),
    Abstraction(Box<Type>, Box<Type>),
    Unknown,
}

/// A parsed term. Child nodes are owned exclusively: the tree shares nothing
/// and has no cycles. Equality is structural.
#[derive(Debug, PartialEq)]
pub enum GrammarItem {
    LiteralInt(i32),
    Variable(String),
    Application(Box<ParseNode>, Box<ParseNode>),
    Abstraction(String, Box<ParseNode>),
    Assignment(String, Box<ParseNode>),
    Program(Vec<ParseNode>),
}

/// A grammar item together with its type annotation.
#[derive(Debug, PartialEq)]
pub struct ParseNode {
    pub entry: GrammarItem,
    pub node_type: Type,
}

impl Type {
    pub open spec fn deep(&self) -> TypeV
        decreases self,
    {
        match self {
            Type::Variable(s) => TypeV::Variable(s@),
            Type::Abstraction(a, b) => TypeV::Abstraction(Box::new(a.deep()), Box::new(b.deep())),
            Type::Unknown => TypeV::Unknown,
        }
    }
}

impl View for Type {
    type V = TypeV;

    open spec fn view(&self) -> TypeV {
        self.deep()
    }
}

impl GrammarItem {
    pub open spec fn deep(&self) -> GrammarItemV
        decreases self,
        via Self::deep_decreases
    {
        match self {
            GrammarItem::LiteralInt(v) => GrammarItemV::LiteralInt(*v as int),
            GrammarItem::Variable(s) => GrammarItemV::Variable(s@),
            GrammarItem::Application(f, a) => GrammarItemV::Application(
                Box::new(f.deep()),
                Box::new(a.deep()),
            ),
            GrammarItem::Abstraction(p, b) => GrammarItemV::Abstraction(p@, Box::new(b.deep())),
            GrammarItem::Assignment(n, e) => GrammarItemV::Assignment(n@, Box::new(e.deep())),
            GrammarItem::Program(ns) => GrammarItemV::Program(deep_nodes(ns@)),
        }
    }

    #[via_fn]
    proof fn deep_decreases(&self) {
        match self {
            GrammarItem::Program(ns) => {
                assert(decreases_to!(self => ns));
                assert(decreases_to!(ns => ns@));
            },
            _ => {},
        }
    }
}

/// The views of a sequence of AST nodes.
pub open spec fn deep_nodes(ns: Seq<ParseNode>) -> Seq<ParseNodeV>
    decreases ns,
{
    if ns.len() == 0 {
        Seq::empty()
    } else {
        seq![ns[0].deep()] + deep_nodes(ns.subrange(1, ns.len() as int))
    }
}

pub proof fn lemma_deep_nodes_push(ns: Seq<ParseNode>, n: ParseNode)
    ensures
        deep_nodes(ns.push(n)) == deep_nodes(ns).push(n.deep()),
    decreases ns.len(),
{
    if ns.len() == 0 {
        assert(ns.push(n).subrange(1, 1) =~= Seq::<ParseNode>::empty());
        assert(deep_nodes(Seq::<ParseNode>::empty()) =~= Seq::<ParseNodeV>::empty());
        assert(ns.push(n)[0] == n);
        assert(deep_nodes(ns.push(n)) =~= seq![n.deep()]);
        assert(deep_nodes(ns) =~= Seq::<ParseNodeV>::empty());
        assert(deep_nodes(ns.push(n)) =~= deep_nodes(ns).push(n.deep()));
    } else {
        let tail = ns.subrange(1, ns.len() as int);
        assert(ns.push(n).subrange(1, ns.len() as int + 1) =~= tail.push(n));
        lemma_deep_nodes_push(tail, n);
        assert(ns.push(n)[0] == ns[0]);
        assert(deep_nodes(ns.push(n)) == seq![ns[0].deep()] + deep_nodes(tail).push(n.deep()));
        assert(deep_nodes(ns) == seq![ns[0].deep()] + deep_nodes(tail));
        assert(seq![ns[0].deep()] + deep_nodes(tail).push(n.deep()) =~= (seq![ns[0].deep()]
            + deep_nodes(tail)).push(n.deep()));
    }
}

impl View for GrammarItem {
    type V = GrammarItemV;

    open spec fn view(&self) -> GrammarItemV {
        self.deep()
    }
}

impl ParseNode {
    pub open spec fn deep(&self) -> ParseNodeV
        decreases self,
    {
        ParseNodeV { entry: self.entry.deep(), node_type: self.node_type.deep() }
    }
}

impl View for ParseNode {
    type V = ParseNodeV;

    open spec fn view(&self) -> ParseNodeV {
        self.deep()
    }
}

impl ParseNode {
    pub fn new(grammar: GrammarItem, node_type: Type) -> (n: ParseNode)
        ensures
            n@ == (ParseNodeV { entry: grammar@, node_type: node_type@ }),
    {
        ParseNode { entry: grammar, node_type: node_type }
    }
}

} // verus!
