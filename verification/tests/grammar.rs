use lambda_optimization::lambda::{NamedExpr, NamedExprParser};
use TSPL::Parser;

/// The grammar written with the combinators of the parser library.
struct Combinators<'i> {
    input: &'i str,
    index: usize,
}

impl<'i> Parser<'i> for Combinators<'i> {
    fn input(&mut self) -> &'i str {
        self.input
    }

    fn index(&mut self) -> &mut usize {
        &mut self.index
    }
}

impl<'i> Combinators<'i> {
    fn term(&mut self) -> Result<NamedExpr, String> {
        self.skip_trivia();
        match self.peek_one() {
            Some('λ') => {
                self.consume("λ")?;
                let name = self.take_while(|c| c != '.').to_string();
                self.consume(".")?;
                let body = Box::new(self.term()?);
                Ok(NamedExpr::Lam(name, body, None))
            }
            Some('(') => {
                self.consume("(")?;
                let func = Box::new(self.term()?);
                let argm = Box::new(self.term()?);
                self.consume(")")?;
                Ok(NamedExpr::App(func, argm, None))
            }
            _ => {
                let name = self.parse_name()?;
                Ok(NamedExpr::Var(name, None))
            }
        }
    }
}

fn with_combinators(source: &str) -> Option<NamedExpr> {
    Combinators { input: source, index: 0 }.term().ok()
}

fn with_parser(source: &str) -> Option<NamedExpr> {
    NamedExprParser::new(source).parse().ok()
}

#[test]
fn parser_agrees_with_the_combinators_on_plain_terms() {
    for source in [
        "x",
        "λx.x",
        "(f x)",
        "λa.λb.(a (a b))",
        "λx.(λn.λf.((f n) n) λn.λf.((f n) n))",
        "  ( λf.f\n  λy.( y  y ) ) ",
        "// head\nλlong_name.(long_name other-name)",
        "(λa.a // tail\n b)",
        "λa./b",
        "(a$ b_2)",
    ] {
        let expected = with_combinators(source);
        assert!(expected.is_some(), "{}", source);
        assert_eq!(with_parser(source), expected, "{}", source);
    }
}

#[test]
fn parser_agrees_with_the_combinators_on_broken_terms() {
    for source in ["", "   ", "(", ")", "(f", "(f x", "(f x y)", "λx", "λ", "λx.", "λx.(x", "// only a comment"] {
        assert_eq!(with_combinators(source), None, "{}", source);
        assert_eq!(with_parser(source), None, "{}", source);
    }
}
