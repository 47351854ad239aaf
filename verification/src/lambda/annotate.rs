//! Terms written with the types that a net gave them.

use vstd::prelude::*;
use vstd::string::StringExecFns;

use crate::lambda::{push_lambda, NamedExpr, NamedTerm};
use crate::net::model::NetView;
use crate::net::types::PartialTypeKey;
use crate::net::Net;
use crate::util::texts;

verus! {

impl NamedTerm {
    /// The type handle of the root of the term.
    pub open spec fn key(self) -> Option<PartialTypeKey> {
        match self {
            NamedTerm::Lam(_, _, key) => key,
            NamedTerm::App(_, _, key) => key,
            NamedTerm::Var(_, key) => key,
        }
    }

    /// Every node of the term has a type handle, and the type store `types`
    /// holds it.
    pub open spec fn typed_in(self, types: Set<u64>) -> bool
        decreases self,
    {
        &&& self.key() matches Some(k) && types.contains(k.id)
        &&& match self {
            NamedTerm::Lam(_, body, _) => body.typed_in(types),
            NamedTerm::App(f, v, _) => f.typed_in(types) && v.typed_in(types),
            NamedTerm::Var(_, _) => true,
        }
    }

    /// The type of every lambda of the term is an arrow, under any number
    /// of marks.
    pub open spec fn lambdas_are_arrows(self, net: NetView) -> bool
        decreases self,
    {
        match self {
            NamedTerm::Lam(_, body, key) => net.closed_type(key.unwrap().id).arg_of() is Some
                && body.lambdas_are_arrows(net),
            NamedTerm::App(f, v, _) => f.lambdas_are_arrows(net) && v.lambdas_are_arrows(net),
            NamedTerm::Var(_, _) => true,
        }
    }

    /// How the type of the root of the term is written.
    pub open spec fn annotation(self, net: NetView) -> Seq<char> {
        net.closed_type(self.key().unwrap().id).text()
    }

    /// The term with every sub-term written as `{term : type}`.
    pub open spec fn annotated(self, net: NetView) -> Seq<char>
        decreases self,
    {
        match self {
            NamedTerm::Lam(var, body, _) => "{"@ + seq!['\u{3bb}'] + var + "."@ + body.annotated(net)
                + " : "@ + self.annotation(net) + "}"@,
            NamedTerm::App(f, v, _) => "{("@ + f.annotated(net) + " "@ + v.annotated(net) + ") : "@
                + self.annotation(net) + "}"@,
            NamedTerm::Var(var, _) => "{"@ + var + " : "@ + self.annotation(net) + "}"@,
        }
    }

    /// How the type of the parameter of a lambda is written.
    pub open spec fn parameter_annotation(self, net: NetView) -> Seq<char> {
        net.closed_type(self.key().unwrap().id).arg_of().unwrap().text()
    }

    /// The term with every parameter written as `{name: type}`.
    pub open spec fn variable_annotated(self, net: NetView) -> Seq<char>
        decreases self,
    {
        match self {
            NamedTerm::Lam(var, body, _) => seq!['\u{3bb}'] + "{"@ + var + ": "@
                + self.parameter_annotation(net) + "}."@ + body.variable_annotated(net),
            NamedTerm::App(f, v, _) => "("@ + f.variable_annotated(net) + " "@
                + v.variable_annotated(net) + ")"@,
            NamedTerm::Var(var, _) => var,
        }
    }

    /// One line for every sub-term, inner ones first: the sub-term and its
    /// type.
    pub open spec fn annotated_lines(self, net: NetView) -> Seq<Seq<char>>
        decreases self,
    {
        match self {
            NamedTerm::Lam(var, body, _) => body.annotated_lines(net).push(
                seq!['\u{3bb}'] + var + "."@ + body.text() + " : "@ + self.annotation(net),
            ),
            NamedTerm::App(f, v, _) => (f.annotated_lines(net) + v.annotated_lines(net)).push(
                "("@ + f.text() + " "@ + v.text() + ") : "@ + self.annotation(net),
            ),
            NamedTerm::Var(var, _) => seq![var + ": "@ + self.annotation(net)],
        }
    }

    /// The lines for every lambda and application, inner ones first: for a
    /// lambda its type, then the lambda with its parameter annotated and
    /// its type; for an application the application and its type.
    pub open spec fn variable_annotated_lines(self, net: NetView) -> Seq<Seq<char>>
        decreases self,
    {
        match self {
            NamedTerm::Lam(var, body, _) => body.variable_annotated_lines(net).push(
                self.annotation(net),
            ).push(
                seq!['\u{3bb}'] + "{"@ + var + " : "@ + self.parameter_annotation(net) + "}."@
                    + body.variable_annotated(net) + " : "@ + self.annotation(net),
            ),
            NamedTerm::App(f, v, _) => (f.variable_annotated_lines(net)
                + v.variable_annotated_lines(net)).push(
                "("@ + f.variable_annotated(net) + " "@ + v.variable_annotated(net) + ") : "@
                    + self.annotation(net),
            ),
            NamedTerm::Var(_, _) => Seq::empty(),
        }
    }
}

/// Appends the lines of `more` to `lines`.
fn append_lines(lines: &mut Vec<String>, more: Vec<String>)
    ensures
        texts(final(lines)@) == texts(old(lines)@) + texts(more@),
{
    let mut more = more;
    let ghost a = lines@;
    let ghost b = more@;
    lines.append(&mut more);
    assert(texts(lines@) =~= texts(a) + texts(b));
}

impl NamedExpr {
    /// The type handle of the root of the term, which must have one.
    fn root_key(&self) -> (k: PartialTypeKey)
        requires
            self@.key() is Some,
        ensures
            Some(k) == self@.key(),
    {
        match self {
            NamedExpr::Lam(_, _, type_key) => type_key.unwrap(),
            NamedExpr::App(_, _, type_key) => type_key.unwrap(),
            NamedExpr::Var(_, type_key) => type_key.unwrap(),
        }
    }

    /// Writes the term with every sub-term as `{term : type}`.
    pub fn to_annotated_string(&self, net: &Net) -> (s: String)
        requires
            net.wf(),
            net@.numbered(),
            self@.typed_in(net@.types.dom()),
        ensures
            s@ == self@.annotated(net@),
        decreases self,
    {
        let annotation = net.read_type(self.root_key()).to_string();
        match self {
            NamedExpr::Lam(var, body, _) => {
                let body = body.to_annotated_string(net);
                let mut s = String::from_str("{");
                push_lambda(&mut s);
                s.append(var.as_str());
                s.append(".");
                s.append(body.as_str());
                s.append(" : ");
                s.append(annotation.as_str());
                s.append("}");
                s
            },
            NamedExpr::App(f, v, _) => {
                let f_str = f.to_annotated_string(net);
                let v_str = v.to_annotated_string(net);
                let mut s = String::from_str("{(");
                s.append(f_str.as_str());
                s.append(" ");
                s.append(v_str.as_str());
                s.append(") : ");
                s.append(annotation.as_str());
                s.append("}");
                s
            },
            NamedExpr::Var(var, _) => {
                let mut s = String::from_str("{");
                s.append(var.as_str());
                s.append(" : ");
                s.append(annotation.as_str());
                s.append("}");
                s
            },
        }
    }

    /// Whether the type of every lambda of the term is an arrow, under
    /// any number of marks.
    pub fn has_arrows(&self, net: &Net) -> (b: bool)
        requires
            net.wf(),
            net@.numbered(),
            self@.typed_in(net@.types.dom()),
        ensures
            b == self@.lambdas_are_arrows(net@),
        decreases self,
    {
        match self {
            NamedExpr::Lam(_, body, type_key) => {
                let lambda_type = net.read_type(type_key.unwrap());
                lambda_type.arg().is_some() && body.has_arrows(net)
            },
            NamedExpr::App(f, v, _) => f.has_arrows(net) && v.has_arrows(net),
            NamedExpr::Var(_, _) => true,
        }
    }

    /// Writes the term with every parameter as `{name: type}`.
    pub fn to_variable_annotated_string(&self, net: &Net) -> (s: String)
        requires
            net.wf(),
            net@.numbered(),
            self@.typed_in(net@.types.dom()),
            self@.lambdas_are_arrows(net@),
        ensures
            s@ == self@.variable_annotated(net@),
        decreases self,
    {
        match self {
            NamedExpr::Lam(var, body, type_key) => {
                let body_str = body.to_variable_annotated_string(net);
                let lambda_type = net.read_type(type_key.unwrap());
                let variable_type = lambda_type.arg().unwrap();
                let variable_annotation = variable_type.to_string();
                let mut s = String::new();
                push_lambda(&mut s);
                s.append("{");
                s.append(var.as_str());
                s.append(": ");
                s.append(variable_annotation.as_str());
                s.append("}.");
                s.append(body_str.as_str());
                assert(s@ =~= self@.variable_annotated(net@));
                s
            },
            NamedExpr::App(f, v, _) => {
                let f_str = f.to_variable_annotated_string(net);
                let v_str = v.to_variable_annotated_string(net);
                let mut s = String::from_str("(");
                s.append(f_str.as_str());
                s.append(" ");
                s.append(v_str.as_str());
                s.append(")");
                s
            },
            NamedExpr::Var(var, _) => var.clone(),
        }
    }

    /// The lines that show every sub-term with its type, inner ones first.
    pub fn annotated_terms(&self, net: &Net) -> (lines: Vec<String>)
        requires
            net.wf(),
            net@.numbered(),
            self@.typed_in(net@.types.dom()),
        ensures
            texts(lines@) == self@.annotated_lines(net@),
        decreases self,
    {
        let annotation = net.read_type(self.root_key()).to_string();
        match self {
            NamedExpr::Lam(var, body, _) => {
                let mut lines = body.annotated_terms(net);
                let body_str = body.to_string();
                let mut s = String::new();
                push_lambda(&mut s);
                s.append(var.as_str());
                s.append(".");
                s.append(body_str.as_str());
                s.append(" : ");
                s.append(annotation.as_str());
                let ghost before = lines@;
                lines.push(s);
                proof {
                    assert(s@ =~= seq!['\u{3bb}'] + var@ + "."@ + body@.text() + " : "@
                        + self@.annotation(net@));
                    assert(texts(lines@) =~= texts(before).push(s@));
                }
                lines
            },
            NamedExpr::App(f, v, _) => {
                let mut lines = f.annotated_terms(net);
                append_lines(&mut lines, v.annotated_terms(net));
                let f_str = f.to_string();
                let v_str = v.to_string();
                let mut s = String::from_str("(");
                s.append(f_str.as_str());
                s.append(" ");
                s.append(v_str.as_str());
                s.append(") : ");
                s.append(annotation.as_str());
                let ghost before = lines@;
                lines.push(s);
                proof {
                    assert(texts(lines@) =~= texts(before).push(s@));
                }
                lines
            },
            NamedExpr::Var(var, _) => {
                let mut s = var.clone();
                s.append(": ");
                s.append(annotation.as_str());
                let mut lines: Vec<String> = Vec::new();
                lines.push(s);
                proof {
                    assert(texts(lines@) =~= seq![s@]);
                }
                lines
            },
        }
    }

    /// The lines that show every lambda and application with the types of
    /// the parameters, inner ones first.
    pub fn variable_annotated_terms(&self, net: &Net) -> (lines: Vec<String>)
        requires
            net.wf(),
            net@.numbered(),
            self@.typed_in(net@.types.dom()),
            self@.lambdas_are_arrows(net@),
        ensures
            texts(lines@) == self@.variable_annotated_lines(net@),
        decreases self,
    {
        match self {
            NamedExpr::Lam(var, body, type_key) => {
                let mut lines = body.variable_annotated_terms(net);
                let body_str = body.to_variable_annotated_string(net);
                let lambda_type = net.read_type(type_key.unwrap());
                let annotation = lambda_type.to_string();
                let ghost l0 = lines@;
                lines.push(annotation.clone());
                let variable_type = lambda_type.arg().unwrap();
                let variable_annotation = variable_type.to_string();
                let mut s = String::new();
                push_lambda(&mut s);
                s.append("{");
                s.append(var.as_str());
                s.append(" : ");
                s.append(variable_annotation.as_str());
                s.append("}.");
                s.append(body_str.as_str());
                s.append(" : ");
                s.append(annotation.as_str());
                let ghost l1 = lines@;
                lines.push(s);
                proof {
                    assert(s@ =~= seq!['\u{3bb}'] + "{"@ + var@ + " : "@
                        + self@.parameter_annotation(net@) + "}."@ + body@.variable_annotated(net@)
                        + " : "@ + self@.annotation(net@));
                    assert(texts(l1) =~= texts(l0).push(annotation@));
                    assert(texts(lines@) =~= texts(l1).push(s@));
                }
                lines
            },
            NamedExpr::App(f, v, type_key) => {
                let mut lines = f.variable_annotated_terms(net);
                append_lines(&mut lines, v.variable_annotated_terms(net));
                let f_str = f.to_variable_annotated_string(net);
                let v_str = v.to_variable_annotated_string(net);
                let annotation = net.read_type(type_key.unwrap()).to_string();
                let mut s = String::from_str("(");
                s.append(f_str.as_str());
                s.append(" ");
                s.append(v_str.as_str());
                s.append(") : ");
                s.append(annotation.as_str());
                let ghost before = lines@;
                lines.push(s);
                proof {
                    assert(texts(lines@) =~= texts(before).push(s@));
                }
                lines
            },
            NamedExpr::Var(_var, _type_key) => {
                let lines: Vec<String> = Vec::new();
                proof {
                    assert(texts(lines@) =~= Seq::<Seq<char>>::empty());
                }
                lines
            },
        }
    }
}

} // verus!
