use lambda::lexer::Lexer;
use lambda::parse_node::{GrammarItem, ParseNode, Type};
use lambda::parser::Parser;
use lambda::render::{is_renderable_expr, render_expr_text};
use lambda::visitor::Visitor;

fn var(name: &str) -> ParseNode {
    ParseNode::new(GrammarItem::Variable(name.to_string()), Type::Unknown)
}

fn app(f: ParseNode, a: ParseNode) -> ParseNode {
    ParseNode::new(
        GrammarItem::Application(Box::new(f), Box::new(a)),
        Type::Unknown,
    )
}

fn abs(param: &str, body: ParseNode) -> ParseNode {
    ParseNode::new(
        GrammarItem::Abstraction(param.to_string(), Box::new(body)),
        Type::Unknown,
    )
}

fn lit(v: i32) -> ParseNode {
    ParseNode::new(GrammarItem::LiteralInt(v), Type::Unknown)
}

#[test]
fn render_parse_round_trip_concrete() {
    let tree = app(app(var("a"), abs("x", var("x"))), lit(42));
    let text = render_expr_text(&tree).unwrap();
    assert_eq!(text, r#"( a ( \ x . x ) ) 42"#);

    let lexer = Lexer::new(text.as_str());
    let mut parser = Parser::new(lexer);
    let reparsed = parser.parse_expr();
    assert_eq!(Ok(tree), reparsed);
    assert!(parser.is_empty());
}

#[test]
fn render_parse_round_trip_abstraction_chain() {
    let tree = abs("a", abs("b", app(var("a"), lit(0))));
    let text = render_expr_text(&tree).unwrap();

    let lexer = Lexer::new(text.as_str());
    let mut parser = Parser::new(lexer);
    assert_eq!(Ok(tree), parser.parse_expr());
    assert!(parser.is_empty());
}

#[test]
fn render_rejects_non_expressions() {
    let negative = lit(-1);
    assert!(!is_renderable_expr(&negative));
    assert_eq!(render_expr_text(&negative), None);

    let program = ParseNode::new(GrammarItem::Program(vec![var("a")]), Type::Unknown);
    assert!(!is_renderable_expr(&program));
    assert_eq!(render_expr_text(&program), None);

    let bad_name = var("Xyz");
    assert!(!is_renderable_expr(&bad_name));
    assert_eq!(render_expr_text(&bad_name), None);
}

struct CountingVisitor {
    variables: usize,
    applications: usize,
}

impl Visitor<usize> for CountingVisitor {
    fn visit_program(&mut self, a: &ParseNode) -> usize {
        if let GrammarItem::Program(children) = &a.entry {
            let mut total = 0;
            for child in children {
                total += self.visit(child);
            }
            total
        } else {
            0
        }
    }

    fn visit_abstraction(&mut self, a: &ParseNode) -> usize {
        if let GrammarItem::Abstraction(_, body) = &a.entry {
            self.visit(body)
        } else {
            0
        }
    }

    fn visit_application(&mut self, a: &ParseNode) -> usize {
        if let GrammarItem::Application(f, arg) = &a.entry {
            self.applications += 1;
            self.visit(f) + self.visit(arg)
        } else {
            0
        }
    }

    fn visit_assignment(&mut self, a: &ParseNode) -> usize {
        if let GrammarItem::Assignment(_, value) = &a.entry {
            self.visit(value)
        } else {
            0
        }
    }

    fn visit_literal_int(&mut self, _i: &ParseNode) -> usize {
        0
    }

    fn visit_variable(&mut self, _v: &ParseNode) -> usize {
        self.variables += 1;
        1
    }
}

#[test]
fn visitor_dispatches_per_variant() {
    let lexer = Lexer::new("a b c");
    let mut parser = Parser::new(lexer);
    let tree = parser.parse_expr().unwrap();

    let mut counter = CountingVisitor { variables: 0, applications: 0 };
    let leaves = counter.visit(&tree);
    assert_eq!(leaves, 3);
    assert_eq!(counter.variables, 3);
    assert_eq!(counter.applications, 2);
}
