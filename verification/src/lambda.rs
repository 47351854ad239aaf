//! Lambda terms, with names and with de Bruijn indices.

use vstd::prelude::*;
use vstd::string::StringExecFns;

pub mod annotate;
pub mod enumerate;
pub mod parser;

pub use enumerate::{enumerate_terms, enumerate_terms_depth};
pub use parser::NamedExprParser;

use parser::{parse_at, Parsed};

use crate::net::model::NetView;
use crate::net::types::PartialTypeKey;
use crate::util::{decimal, numeral, to_decimal, variable_name};

verus! {

/// A term with de Bruijn indices. Every node has room for the handle of
/// its type.
#[derive(PartialEq, Eq, Debug)]
pub enum Expr {
    Lam(Box<Expr>, Option<PartialTypeKey>),
    App(Box<Expr>, Box<Expr>, Option<PartialTypeKey>),
    Var(usize, Option<PartialTypeKey>),
}

/// A term with named variables.
#[derive(PartialEq, Eq, Debug)]
pub enum NamedExpr {
    Lam(String, Box<NamedExpr>, Option<PartialTypeKey>),
    App(Box<NamedExpr>, Box<NamedExpr>, Option<PartialTypeKey>),
    Var(String, Option<PartialTypeKey>),
}

/// A term with named variables, as a mathematical value.
pub enum NamedTerm {
    Lam(Seq<char>, Box<NamedTerm>, Option<PartialTypeKey>),
    App(Box<NamedTerm>, Box<NamedTerm>, Option<PartialTypeKey>),
    Var(Seq<char>, Option<PartialTypeKey>),
}

/// A binding: a name and the depth of its lambda.
pub type Binding = (Seq<char>, nat);

/// The bindings that a stack of names and depths stands for.
pub open spec fn bindings(stack: Seq<(String, usize)>) -> Seq<Binding> {
    Seq::new(stack.len(), |i: int| (stack[i].0@, stack[i].1 as nat))
}

/// The names that a stack of strings stands for.
pub open spec fn names(stack: Seq<String>) -> Seq<Seq<char>> {
    Seq::new(stack.len(), |i: int| stack[i]@)
}

/// The name `name` has a binding.
pub open spec fn is_bound(env: Seq<Binding>, name: Seq<char>) -> bool {
    exists|i: int| 0 <= i < env.len() && (#[trigger] env[i]).0 == name
}

/// The depth of the innermost binding of `name`.
pub open spec fn depth_of(env: Seq<Binding>, name: Seq<char>) -> nat
    decreases env.len(),
{
    if env.len() == 0 {
        0
    } else if env.last().0 == name {
        env.last().1
    } else {
        depth_of(env.drop_last(), name)
    }
}

impl NamedExpr {
    /// The term as a mathematical value.
    pub open spec fn term(&self) -> NamedTerm
        decreases self,
    {
        match self {
            NamedExpr::Lam(name, body, key) => NamedTerm::Lam(name@, Box::new(body.term()), *key),
            NamedExpr::App(f, v, key) => NamedTerm::App(
                Box::new(f.term()),
                Box::new(v.term()),
                *key,
            ),
            NamedExpr::Var(name, key) => NamedTerm::Var(name@, *key),
        }
    }
}

impl View for NamedExpr {
    type V = NamedTerm;

    open spec fn view(&self) -> NamedTerm {
        self.term()
    }
}

impl NamedTerm {
    /// Every variable is bound, by a lambda of the term or by `env`, at a
    /// depth below its own, and no depth leaves the machine's range.
    pub open spec fn bound_in(self, depth: nat, env: Seq<Binding>) -> bool
        decreases self,
    {
        match self {
            NamedTerm::Lam(name, body, _) => depth < usize::MAX && body.bound_in(
                depth + 1,
                env.push((name, depth)),
            ),
            NamedTerm::App(f, v, _) => f.bound_in(depth, env) && v.bound_in(depth, env),
            NamedTerm::Var(name, _) => is_bound(env, name) && depth_of(env, name) < depth,
        }
    }

    /// The term with de Bruijn indices: a variable becomes the number of
    /// lambdas between it and the one that binds it.
    pub open spec fn debruijn(self, depth: nat, env: Seq<Binding>) -> Expr
        decreases self,
    {
        match self {
            NamedTerm::Lam(name, body, key) => Expr::Lam(
                Box::new(body.debruijn(depth + 1, env.push((name, depth)))),
                key,
            ),
            NamedTerm::App(f, v, key) => Expr::App(
                Box::new(f.debruijn(depth, env)),
                Box::new(v.debruijn(depth, env)),
                key,
            ),
            NamedTerm::Var(name, key) => Expr::Var(
                (depth - depth_of(env, name) - 1) as usize,
                key,
            ),
        }
    }

    /// How the term is written: `λx.body`, `(f v)`, `x`.
    pub open spec fn text(self) -> Seq<char>
        decreases self,
    {
        match self {
            NamedTerm::Lam(name, body, _) => seq!['\u{3bb}'] + name + "."@ + body.text(),
            NamedTerm::App(f, v, _) => "("@ + f.text() + " "@ + v.text() + ")"@,
            NamedTerm::Var(name, _) => name,
        }
    }
}

impl Expr {
    /// The number of nodes of the term.
    pub open spec fn size(self) -> nat
        decreases self,
    {
        match self {
            Expr::Lam(body, _) => 1 + body.size(),
            Expr::App(f, v, _) => 1 + f.size() + v.size(),
            Expr::Var(_, _) => 1,
        }
    }

    /// How often the term uses the variable that index `i` names around
    /// it.
    pub open spec fn occurrences(self, i: nat) -> nat
        decreases self,
    {
        match self {
            Expr::Lam(body, _) => body.occurrences(i + 1),
            Expr::App(f, v, _) => f.occurrences(i) + v.occurrences(i),
            Expr::Var(j, _) => if j == i {
                1
            } else {
                0
            },
        }
    }

    /// The term without its type handles.
    pub open spec fn erased(self) -> Expr
        decreases self,
    {
        match self {
            Expr::Lam(body, _) => Expr::Lam(Box::new(body.erased()), None),
            Expr::App(f, v, _) => Expr::App(Box::new(f.erased()), Box::new(v.erased()), None),
            Expr::Var(i, _) => Expr::Var(i, None),
        }
    }

    /// The type handle of the root of the term.
    pub open spec fn key(self) -> Option<PartialTypeKey> {
        match self {
            Expr::Lam(_, key) => key,
            Expr::App(_, _, key) => key,
            Expr::Var(_, key) => key,
        }
    }

    /// Every node of the term has a type handle, and the type store `types`
    /// holds it.
    pub open spec fn typed_in(self, types: Set<u64>) -> bool
        decreases self,
    {
        &&& self.key() matches Some(k) && types.contains(k.id)
        &&& match self {
            Expr::Lam(body, _) => body.typed_in(types),
            Expr::App(f, v, _) => f.typed_in(types) && v.typed_in(types),
            Expr::Var(_, _) => true,
        }
    }

    /// The type of every lambda of the term is, or will be, an arrow in
    /// the net.
    pub open spec fn lams_bound(self, net: NetView) -> bool
        decreases self,
    {
        match self {
            Expr::Lam(body, key) => net.arrow_bound(key.unwrap().id) && body.lams_bound(net),
            Expr::App(f, v, _) => f.lams_bound(net) && v.lams_bound(net),
            Expr::Var(_, _) => true,
        }
    }

    /// The type of every lambda of the term is an arrow, under any number
    /// of marks.
    pub open spec fn lambdas_are_arrows(self, net: NetView) -> bool
        decreases self,
    {
        match self {
            Expr::Lam(body, key) => net.closed_type(key.unwrap().id).arg_of() is Some
                && body.lambdas_are_arrows(net),
            Expr::App(f, v, _) => f.lambdas_are_arrows(net) && v.lambdas_are_arrows(net),
            Expr::Var(_, _) => true,
        }
    }

    /// The number of lambdas of the term.
    pub open spec fn lams(self) -> nat
        decreases self,
    {
        match self {
            Expr::Lam(body, _) => 1 + body.lams(),
            Expr::App(f, v, _) => f.lams() + v.lams(),
            Expr::Var(_, _) => 0,
        }
    }

    /// Every index points to a lambda of the term or to one of the `n`
    /// around it.
    pub open spec fn closed_under(self, n: nat) -> bool
        decreases self,
    {
        match self {
            Expr::Lam(body, _) => body.closed_under(n + 1),
            Expr::App(f, v, _) => f.closed_under(n) && v.closed_under(n),
            Expr::Var(i, _) => i < n,
        }
    }

    /// The term with names: the lambdas get `a`, `b`, `c`, ... from the
    /// `next` one on, in the order in which they open.
    pub open spec fn named(self, env: Seq<Seq<char>>, next: nat) -> NamedTerm
        decreases self,
    {
        match self {
            Expr::Lam(body, key) => NamedTerm::Lam(
                numeral('a', next),
                Box::new(body.named(env.push(numeral('a', next)), next + 1)),
                key,
            ),
            Expr::App(f, v, key) => NamedTerm::App(
                Box::new(f.named(env, next)),
                Box::new(v.named(env, next + f.lams())),
                key,
            ),
            Expr::Var(i, key) => NamedTerm::Var(env[env.len() - i - 1], key),
        }
    }

    /// How the term is written: `λbody`, `(f v)`, and the index in decimal.
    pub open spec fn text(self) -> Seq<char>
        decreases self,
    {
        match self {
            Expr::Lam(body, _) => seq!['\u{3bb}'] + body.text(),
            Expr::App(f, v, _) => "("@ + f.text() + " "@ + v.text() + ")"@,
            Expr::Var(i, _) => decimal(i as nat),
        }
    }
}

/// Every term has a node.
pub proof fn lemma_size_positive(term: Expr)
    ensures
        term.size() >= 1,
{
}

/// Under more lambdas than the machine can count every term is closed.
pub proof fn lemma_closed_beyond(term: Expr, n: nat)
    requires
        n > usize::MAX,
    ensures
        term.closed_under(n),
    decreases term,
{
    match term {
        Expr::Lam(body, _) => {
            lemma_closed_beyond(*body, n + 1);
        },
        Expr::App(f, v, _) => {
            lemma_closed_beyond(*f, n);
            lemma_closed_beyond(*v, n);
        },
        Expr::Var(_, _) => {},
    }
}

/// Naming a term keeps the type handles where they are.
pub proof fn lemma_named_keeps_types(term: Expr, env: Seq<Seq<char>>, next: nat, net: NetView)
    ensures
        term.typed_in(net.types.dom()) ==> term.named(env, next).typed_in(net.types.dom()),
        term.lambdas_are_arrows(net) ==> term.named(env, next).lambdas_are_arrows(net),
    decreases term,
{
    match term {
        Expr::Lam(body, _) => {
            lemma_named_keeps_types(*body, env.push(numeral('a', next)), next + 1, net);
        },
        Expr::App(f, v, _) => {
            lemma_named_keeps_types(*f, env, next, net);
            lemma_named_keeps_types(*v, env, next + f.lams(), net);
        },
        Expr::Var(_, _) => {},
    }
}

/// A variable is used at most as often as the term has nodes.
pub proof fn lemma_occurrences_le_size(term: Expr, i: nat)
    ensures
        term.occurrences(i) <= term.size(),
    decreases term,
{
    match term {
        Expr::Lam(body, _) => {
            lemma_occurrences_le_size(*body, i + 1);
        },
        Expr::App(f, v, _) => {
            lemma_occurrences_le_size(*f, i);
            lemma_occurrences_le_size(*v, i);
        },
        Expr::Var(_, _) => {},
    }
}

/// The lambda with body `e`.
pub fn lam(e: Expr) -> (r: Expr)
    ensures
        r == Expr::Lam(Box::new(e), None),
{
    Expr::Lam(Box::new(e), None)
}

/// The application of `f` to `v`.
pub fn app(f: Expr, v: Expr) -> (r: Expr)
    ensures
        r == Expr::App(Box::new(f), Box::new(v), None),
{
    Expr::App(Box::new(f), Box::new(v), None)
}

/// The variable with index `i`.
pub fn var(i: usize) -> (r: Expr)
    ensures
        r == Expr::Var(i, None),
{
    Expr::Var(i, None)
}

/// Appends the letter lambda to the text.
pub(crate) fn push_lambda(s: &mut String)
    ensures
        final(s)@ == old(s)@ + seq!['\u{3bb}'],
{
    crate::util::push_char(s, '\u{3bb}');
    assert(old(s)@.push('\u{3bb}') =~= old(s)@ + seq!['\u{3bb}']);
}

impl NamedExpr {
    /// Parses a term from the start of `s`. What follows the term is left
    /// unread.
    pub fn from_string(s: &str) -> (r: Self)
        requires
            parse_at(s@, 0) is Term,
        ensures
            parse_at(s@, 0) matches Parsed::Term(term, _) && r@ == term,
    {
        let mut parser = NamedExprParser::new(s);
        match parser.parse() {
            Ok(t) => t,
            Err(_) => vstd::pervasive::unreached(),
        }
    }

    /// Tells whether every variable is bound: whether `to_debrujin` can be
    /// called with the same arguments.
    pub fn is_bound_in(&self, depth: usize, variables: &mut Vec<(String, usize)>) -> (b: bool)
        ensures
            b == self@.bound_in(depth as nat, bindings(old(variables)@)),
            bindings(final(variables)@) == bindings(old(variables)@),
        decreases self,
    {
        match self {
            NamedExpr::Lam(name, body, _) => {
                if depth == usize::MAX {
                    return false;
                }
                let ghost env = bindings(variables@);
                variables.push((name.clone(), depth));
                assert(bindings(variables@) =~= env.push((name@, depth as nat)));
                let b = body.is_bound_in(depth + 1, variables);
                let ghost inner = variables@;
                variables.pop();
                proof {
                    assert(bindings(inner).len() == env.len() + 1);
                    assert forall|i: int| 0 <= i < env.len() implies bindings(variables@)[i]
                        == env[i] by {
                        assert(bindings(inner)[i] == env.push((name@, depth as nat))[i]);
                    }
                    assert(bindings(variables@) =~= env);
                }
                b
            },
            NamedExpr::App(f, v, _) => {
                let bf = f.is_bound_in(depth, variables);
                let bv = v.is_bound_in(depth, variables);
                bf && bv
            },
            NamedExpr::Var(name, _) => {
                let ghost env = bindings(variables@);
                let mut i = variables.len();
                proof {
                    assert(env.take(i as int) =~= env);
                }
                while i > 0
                    invariant
                        i <= variables.len(),
                        env == bindings(variables@),
                        variables@ == old(variables)@,
                        self@ == NamedTerm::Var(name@, None) || self@ is Var,
                        self@->Var_0 == name@,
                        is_bound(env, name@) == is_bound(env.take(i as int), name@),
                        depth_of(env.take(i as int), name@) == depth_of(env, name@),
                    decreases i,
                {
                    let ghost part = env.take(i as int);
                    proof {
                        assert(part.last() == env[i - 1]);
                        assert(part.drop_last() =~= env.take(i - 1));
                        assert(part.last() == (variables@[i - 1].0@, variables@[i - 1].1 as nat));
                    }
                    if variables[i - 1].0 == *name {
                        proof {
                            assert(part[i - 1].0 == name@);
                            assert(is_bound(part, name@));
                        }
                        return variables[i - 1].1 < depth;
                    }
                    proof {
                        let rest = env.take(i - 1);
                        if is_bound(part, name@) {
                            let k = choose|k: int|
                                0 <= k < part.len() && (#[trigger] part[k]).0 == name@;
                            assert(rest[k] == part[k]);
                        }
                        if is_bound(rest, name@) {
                            let k = choose|k: int|
                                0 <= k < rest.len() && (#[trigger] rest[k]).0 == name@;
                            assert(part[k] == rest[k]);
                        }
                    }
                    i -= 1;
                }
                proof {
                    assert(env.take(0).len() == 0);
                    assert(!is_bound(env.take(0), name@));
                }
                false
            },
        }
    }

    /// Turns the names into de Bruijn indices. `variables` holds the
    /// bindings around the term, innermost last, and `depth` the number of
    /// lambdas around it.
    pub fn to_debrujin(&self, depth: usize, variables: &mut Vec<(String, usize)>) -> (r: Expr)
        requires
            self@.bound_in(depth as nat, bindings(old(variables)@)),
        ensures
            r == self@.debruijn(depth as nat, bindings(old(variables)@)),
            bindings(final(variables)@) == bindings(old(variables)@),
        decreases self,
    {
        match self {
            NamedExpr::Lam(name, body, type_key) => {
                let ghost env = bindings(variables@);
                variables.push((name.clone(), depth));
                assert(bindings(variables@) =~= env.push((name@, depth as nat)));
                let body_debrujin = body.to_debrujin(depth + 1, variables);
                let ghost inner = variables@;
                variables.pop();
                proof {
                    assert(bindings(inner).len() == env.len() + 1);
                    assert forall|i: int| 0 <= i < env.len() implies bindings(variables@)[i]
                        == env[i] by {
                        assert(bindings(inner)[i] == env.push((name@, depth as nat))[i]);
                    }
                    assert(bindings(variables@) =~= env);
                }
                Expr::Lam(Box::new(body_debrujin), *type_key)
            },
            NamedExpr::App(f, v, type_key) => {
                let f_debrujin = f.to_debrujin(depth, variables);
                let v_debrujin = v.to_debrujin(depth, variables);
                Expr::App(Box::new(f_debrujin), Box::new(v_debrujin), *type_key)
            },
            NamedExpr::Var(name, type_key) => {
                let ghost env = bindings(variables@);
                let mut i = variables.len();
                proof {
                    assert(env.take(i as int) =~= env);
                }
                while i > 0
                    invariant
                        i <= variables.len(),
                        env == bindings(variables@),
                        variables@ == old(variables)@,
                        self@ == NamedTerm::Var(name@, *type_key),
                        depth_of(env, name@) < depth,
                        is_bound(env.take(i as int), name@),
                        depth_of(env.take(i as int), name@) == depth_of(env, name@),
                    decreases i,
                {
                    let ghost part = env.take(i as int);
                    proof {
                        assert(part.last() == env[i - 1]);
                        assert(part.drop_last() =~= env.take(i - 1));
                    }
                    if variables[i - 1].0 == *name {
                        let lam_depth = variables[i - 1].1;
                        proof {
                            assert(part.last() == (variables@[i - 1].0@, variables@[i - 1].1 as nat));
                            assert(depth_of(part, name@) == lam_depth);
                        }
                        return Expr::Var(depth - lam_depth - 1, *type_key);
                    }
                    proof {
                        assert(part.last() == (variables@[i - 1].0@, variables@[i - 1].1 as nat));
                        let k = choose|k: int| 0 <= k < part.len() && (#[trigger] part[k]).0 == name@;
                        assert(k < i - 1);
                        assert(env.take(i - 1)[k] == part[k]);
                    }
                    i -= 1;
                }
                proof {
                    assert(false);
                }
                Expr::Var(0, *type_key)
            },
        }
    }

    /// Writes the term.
    pub fn to_string(&self) -> (s: String)
        ensures
            s@ == self@.text(),
        decreases self,
    {
        match self {
            NamedExpr::Lam(var, body, _) => {
                let mut s = String::new();
                push_lambda(&mut s);
                s.append(var.as_str());
                s.append(".");
                s.append(body.to_string().as_str());
                assert(s@ =~= self@.text());
                s
            },
            NamedExpr::App(f, v, _) => {
                let mut s = String::from_str("(");
                s.append(f.to_string().as_str());
                s.append(" ");
                s.append(v.to_string().as_str());
                s.append(")");
                s
            },
            NamedExpr::Var(var, _) => var.clone(),
        }
    }
}

impl Expr {
    /// Parses a closed term from the start of `s` and turns its names into
    /// de Bruijn indices.
    pub fn from_string(s: &str) -> (r: Self)
        requires
            parse_at(s@, 0) matches Parsed::Term(term, _) && term.bound_in(0, Seq::empty()),
        ensures
            parse_at(s@, 0) matches Parsed::Term(term, _) && r == term.debruijn(0, Seq::empty()),
    {
        let mut variables: Vec<(String, usize)> = Vec::new();
        assert(bindings(variables@) =~= Seq::empty());
        NamedExpr::from_string(s).to_debrujin(0, &mut variables)
    }

    /// Tells whether every index points to a lambda of the term or to one
    /// of the `n` around it.
    pub fn is_closed_under(&self, n: usize) -> (b: bool)
        ensures
            b == self.closed_under(n as nat),
        decreases self,
    {
        match self {
            Expr::Lam(body, _) => {
                if n == usize::MAX {
                    proof {
                        lemma_closed_beyond(**body, (n + 1) as nat);
                    }
                    true
                } else {
                    body.is_closed_under(n + 1)
                }
            },
            Expr::App(f, v, _) => f.is_closed_under(n) && v.is_closed_under(n),
            Expr::Var(i, _) => *i < n,
        }
    }

    /// Tells whether the term has at most `limit` nodes.
    pub fn size_within(&self, limit: usize) -> (b: bool)
        ensures
            b == (self.size() <= limit),
    {
        self.count_within(limit).is_some()
    }

    /// The number of nodes of the term, if it is at most `limit`.
    fn count_within(&self, limit: usize) -> (n: Option<usize>)
        ensures
            match n {
                Some(count) => count == self.size() && count <= limit,
                None => self.size() > limit,
            },
        decreases self,
    {
        if limit == 0 {
            proof {
                lemma_size_positive(*self);
            }
            return None;
        }
        match self {
            Expr::Lam(body, _) => match body.count_within(limit - 1) {
                Some(count) => Some(count + 1),
                None => None,
            },
            Expr::App(f, v, _) => match f.count_within(limit - 1) {
                Some(first) => match v.count_within(limit - 1 - first) {
                    Some(second) => Some(first + second + 1),
                    None => None,
                },
                None => None,
            },
            Expr::Var(_, _) => Some(1),
        }
    }

    /// A copy of the term.
    pub fn duplicate(&self) -> (r: Expr)
        ensures
            r == *self,
        decreases self,
    {
        match self {
            Expr::Lam(body, key) => Expr::Lam(Box::new(body.duplicate()), *key),
            Expr::App(f, v, key) => Expr::App(Box::new(f.duplicate()), Box::new(v.duplicate()), *key),
            Expr::Var(i, key) => Expr::Var(*i, *key),
        }
    }

    /// Gives the lambdas the names `a`, `b`, `c`, ...
    pub fn to_named(&self) -> (r: NamedExpr)
        requires
            self.closed_under(0),
            self.lams() <= usize::MAX,
        ensures
            r@ == self.named(Seq::empty(), 0),
    {
        let mut vars: Vec<String> = Vec::new();
        let mut next_variable: usize = 0;
        assert(names(vars@) =~= Seq::empty());
        self.to_named_free_vars(&mut vars, &mut next_variable)
    }

    /// Gives the lambdas names from the `next_variable`-th on. `vars` holds
    /// the names of the lambdas around the term, innermost last.
    pub fn to_named_free_vars(&self, vars: &mut Vec<String>, next_variable: &mut usize) -> (r:
        NamedExpr)
        requires
            self.closed_under(old(vars).len() as nat),
            *old(next_variable) + self.lams() <= usize::MAX,
        ensures
            r@ == self.named(names(old(vars)@), *old(next_variable) as nat),
            names(final(vars)@) == names(old(vars)@),
            *final(next_variable) == *old(next_variable) + self.lams(),
        decreases self,
    {
        match self {
            Expr::Lam(b, type_key) => {
                let ghost env = names(vars@);
                let var = variable_name(*next_variable);
                *next_variable += 1;
                vars.push(var.clone());
                assert(names(vars@) =~= env.push(var@));
                let b_named = b.to_named_free_vars(vars, next_variable);
                let ghost inner = vars@;
                vars.pop();
                proof {
                    assert(names(inner).len() == env.len() + 1);
                    assert forall|i: int| 0 <= i < env.len() implies names(vars@)[i] == env[i] by {
                        assert(names(inner)[i] == env.push(var@)[i]);
                    }
                    assert(names(vars@) =~= env);
                }
                NamedExpr::Lam(var, Box::new(b_named), *type_key)
            },
            Expr::App(f, v, type_key) => {
                let f_named = f.to_named_free_vars(vars, next_variable);
                let v_named = v.to_named_free_vars(vars, next_variable);
                NamedExpr::App(Box::new(f_named), Box::new(v_named), *type_key)
            },
            Expr::Var(i, type_key) => {
                let var = vars[vars.len() - *i - 1].clone();
                NamedExpr::Var(var, *type_key)
            },
        }
    }

    /// Writes the term.
    pub fn to_string(&self) -> (s: String)
        ensures
            s@ == self.text(),
        decreases self,
    {
        match self {
            Expr::Lam(body, _) => {
                let mut s = String::new();
                push_lambda(&mut s);
                s.append(body.to_string().as_str());
                assert(s@ =~= self.text());
                s
            },
            Expr::App(fun, arg, _) => {
                let mut s = String::from_str("(");
                s.append(fun.to_string().as_str());
                s.append(" ");
                s.append(arg.to_string().as_str());
                s.append(")");
                s
            },
            Expr::Var(i, _) => to_decimal(*i),
        }
    }
}

} // verus!
