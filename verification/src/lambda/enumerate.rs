//! The enumeration of terms by depth: every term of a depth is listed,
//! and each once.

use vstd::prelude::*;

use crate::lambda::{app, lam, Expr};

verus! {

/// The variables with the indices below `n`.
pub open spec fn vars_upto(n: nat) -> Seq<Expr> {
    Seq::new(n, |i: int| Expr::Var(i as usize, None))
}

/// The lambdas over the terms `bodies`.
pub open spec fn lams_of(bodies: Seq<Expr>) -> Seq<Expr> {
    Seq::new(bodies.len(), |i: int| Expr::Lam(Box::new(bodies[i]), None))
}

/// The applications of the term `fun` to each of the terms `args`.
pub open spec fn apps_of(fun: Expr, args: Seq<Expr>) -> Seq<Expr> {
    Seq::new(args.len(), |j: int| Expr::App(Box::new(fun), Box::new(args[j]), None))
}

/// The applications of every term of `funs` to every term of `args`:
/// function after function, and for each function argument after
/// argument.
pub open spec fn all_apps(funs: Seq<Expr>, args: Seq<Expr>) -> Seq<Expr>
    decreases funs.len(),
{
    if funs.len() == 0 {
        Seq::empty()
    } else {
        all_apps(funs.drop_last(), args) + apps_of(funs.last(), args)
    }
}

/// The applications of depth `depth` whose function has a depth below
/// `upto`.
pub open spec fn apps_upto(depth: nat, lambda_depth: nat, upto: nat) -> Seq<Expr>
    decreases depth, upto,
{
    if upto <= 1 || upto > depth {
        Seq::empty()
    } else {
        apps_upto(depth, lambda_depth, (upto - 1) as nat) + all_apps(
            terms_at((upto - 1) as nat, lambda_depth),
            terms_at((depth - (upto - 1)) as nat, lambda_depth),
        )
    }
}

/// The terms of depth `depth` under `lambda_depth` lambdas: at depth 1 the
/// variables; above it the lambdas over the terms one less deep, then,
/// for every split of the depth, the applications of every term of the
/// one part to every term of the other.
pub open spec fn terms_at(depth: nat, lambda_depth: nat) -> Seq<Expr>
    decreases depth, depth + 1,
{
    if depth <= 1 {
        vars_upto(lambda_depth)
    } else {
        lams_of(terms_at((depth - 1) as nat, lambda_depth + 1)) + apps_upto(
            depth,
            lambda_depth,
            depth,
        )
    }
}

/// The closed terms of the depths from `start` up to, not including,
/// `end`.
pub open spec fn terms_between(start: nat, end: nat) -> Seq<Expr>
    decreases end,
{
    if end <= start {
        Seq::empty()
    } else {
        terms_between(start, (end - 1) as nat) + terms_at((end - 1) as nat, 0)
    }
}

impl Expr {
    /// The depth of the term as the enumeration counts it: the number of
    /// its variables and lambdas.
    pub open spec fn depth(self) -> nat
        decreases self,
    {
        match self {
            Expr::Lam(body, _) => 1 + body.depth(),
            Expr::App(f, v, _) => f.depth() + v.depth(),
            Expr::Var(_, _) => 1,
        }
    }
}

/// Every term has a variable.
pub proof fn lemma_depth_positive(t: Expr)
    ensures
        t.depth() >= 1,
    decreases t,
{
    match t {
        Expr::Lam(body, _) => {},
        Expr::App(f, v, _) => {
            lemma_depth_positive(*f);
        },
        Expr::Var(_, _) => {},
    }
}

/// The application of a member of `funs` to a member of `args` is among
/// the applications of the one to the other.
pub proof fn lemma_all_apps_has(funs: Seq<Expr>, args: Seq<Expr>, p: int, q: int)
    requires
        0 <= p < funs.len(),
        0 <= q < args.len(),
    ensures
        all_apps(funs, args).contains(Expr::App(Box::new(funs[p]), Box::new(args[q]), None)),
    decreases funs.len(),
{
    let before = all_apps(funs.drop_last(), args);
    let row = apps_of(funs.last(), args);
    let x = Expr::App(Box::new(funs[p]), Box::new(args[q]), None);
    if p < funs.len() - 1 {
        lemma_all_apps_has(funs.drop_last(), args, p, q);
        let k = choose|k: int| 0 <= k < before.len() && before[k] == x;
        assert((before + row)[k] == x);
    } else {
        assert(row[q] == x);
        assert((before + row)[before.len() + q] == x);
    }
}

/// The applications whose function has the depth `d` are among the
/// applications whose function has a depth below `upto`, if `d` is.
pub proof fn lemma_apps_upto_has(depth: nat, lambda_depth: nat, upto: nat, d: nat, x: Expr)
    requires
        1 <= d < upto <= depth,
        all_apps(terms_at(d, lambda_depth), terms_at((depth - d) as nat, lambda_depth)).contains(x),
    ensures
        apps_upto(depth, lambda_depth, upto).contains(x),
    decreases upto,
{
    let before = apps_upto(depth, lambda_depth, (upto - 1) as nat);
    let row = all_apps(
        terms_at((upto - 1) as nat, lambda_depth),
        terms_at((depth - (upto - 1)) as nat, lambda_depth),
    );
    if d < upto - 1 {
        lemma_apps_upto_has(depth, lambda_depth, (upto - 1) as nat, d, x);
        let k = choose|k: int| 0 <= k < before.len() && before[k] == x;
        assert((before + row)[k] == x);
    } else {
        let k = choose|k: int| 0 <= k < row.len() && row[k] == x;
        assert((before + row)[before.len() + k] == x);
    }
}

/// The enumeration is complete: every term without type handles that is
/// closed under the lambdas around it is among the terms of its depth.
pub proof fn lemma_every_term_is_enumerated(t: Expr, lambda_depth: nat)
    requires
        t.closed_under(lambda_depth),
        t.erased() == t,
    ensures
        terms_at(t.depth(), lambda_depth).contains(t),
    decreases t,
{
    lemma_depth_positive(t);
    match t {
        Expr::Var(i, _) => {
            assert(vars_upto(lambda_depth)[i as int] == t);
        },
        Expr::Lam(body, _) => {
            lemma_depth_positive(*body);
            lemma_every_term_is_enumerated(*body, lambda_depth + 1);
            let bodies = terms_at(body.depth(), lambda_depth + 1);
            let lams = lams_of(bodies);
            let rest = apps_upto(t.depth(), lambda_depth, t.depth());
            let k = choose|k: int| 0 <= k < bodies.len() && bodies[k] == *body;
            assert(lams[k] == t);
            assert((lams + rest)[k] == t);
        },
        Expr::App(f, v, _) => {
            lemma_depth_positive(*f);
            lemma_depth_positive(*v);
            lemma_every_term_is_enumerated(*f, lambda_depth);
            lemma_every_term_is_enumerated(*v, lambda_depth);
            let funs = terms_at(f.depth(), lambda_depth);
            let args = terms_at(v.depth(), lambda_depth);
            let p = choose|p: int| 0 <= p < funs.len() && funs[p] == *f;
            let q = choose|q: int| 0 <= q < args.len() && args[q] == *v;
            lemma_all_apps_has(funs, args, p, q);
            lemma_apps_upto_has(t.depth(), lambda_depth, t.depth(), f.depth(), t);
            let lams = lams_of(terms_at((t.depth() - 1) as nat, lambda_depth + 1));
            let rest = apps_upto(t.depth(), lambda_depth, t.depth());
            let k = choose|k: int| 0 <= k < rest.len() && rest[k] == t;
            assert((lams + rest)[lams.len() + k] == t);
        },
    }
}

/// Every application of the enumeration has the depth that it is listed
/// under, and a function of a smaller depth than `upto`.
pub proof fn lemma_apps_depth(depth: nat, lambda_depth: nat, upto: nat, i: int)
    requires
        0 <= i < apps_upto(depth, lambda_depth, upto).len(),
    ensures
        apps_upto(depth, lambda_depth, upto)[i].depth() == depth,
        apps_upto(depth, lambda_depth, upto)[i] matches Expr::App(f, _, _) && 1 <= f.depth()
            < upto,
    decreases depth, upto,
{
    if !(upto <= 1 || upto > depth) {
        let before = apps_upto(depth, lambda_depth, (upto - 1) as nat);
        let funs = terms_at((upto - 1) as nat, lambda_depth);
        let args = terms_at((depth - (upto - 1)) as nat, lambda_depth);
        if i < before.len() {
            lemma_apps_depth(depth, lambda_depth, (upto - 1) as nat, i);
        } else {
            let (p, q) = lemma_all_apps(funs, args, i - before.len());
            lemma_terms_depth((upto - 1) as nat, lambda_depth, p);
            lemma_terms_depth((depth - (upto - 1)) as nat, lambda_depth, q);
        }
    }
}

/// Every term of the enumeration has the depth that it is listed under.
pub proof fn lemma_terms_depth(depth: nat, lambda_depth: nat, i: int)
    requires
        depth >= 1,
        0 <= i < terms_at(depth, lambda_depth).len(),
    ensures
        terms_at(depth, lambda_depth)[i].depth() == depth,
    decreases depth, depth + 1,
{
    if depth > 1 {
        let lams = lams_of(terms_at((depth - 1) as nat, lambda_depth + 1));
        if i < lams.len() {
            lemma_terms_depth((depth - 1) as nat, lambda_depth + 1, i);
        } else {
            lemma_apps_depth(depth, lambda_depth, depth, i - lams.len());
        }
    }
}

/// The applications of different functions to different arguments are
/// different.
pub proof fn lemma_all_apps_once(funs: Seq<Expr>, args: Seq<Expr>)
    requires
        funs.no_duplicates(),
        args.no_duplicates(),
    ensures
        all_apps(funs, args).no_duplicates(),
    decreases funs.len(),
{
    if funs.len() > 0 {
        let init = funs.drop_last();
        let before = all_apps(init, args);
        let row = apps_of(funs.last(), args);
        lemma_all_apps_once(init, args);
        assert forall|i: int, j: int| 0 <= i < before.len() && 0 <= j < row.len() implies before[i]
            != row[j] by {
            let (p, q) = lemma_all_apps(init, args, i);
            assert(init[p] == funs[p]);
        }
        vstd::seq_lib::lemma_no_dup_in_concat(before, row);
    }
}

/// No application of the enumeration is listed twice.
pub proof fn lemma_apps_once(depth: nat, lambda_depth: nat, upto: nat)
    requires
        depth + lambda_depth <= usize::MAX,
    ensures
        apps_upto(depth, lambda_depth, upto).no_duplicates(),
    decreases depth, upto,
{
    if !(upto <= 1 || upto > depth) {
        let before = apps_upto(depth, lambda_depth, (upto - 1) as nat);
        let funs = terms_at((upto - 1) as nat, lambda_depth);
        let args = terms_at((depth - (upto - 1)) as nat, lambda_depth);
        let row = all_apps(funs, args);
        lemma_apps_once(depth, lambda_depth, (upto - 1) as nat);
        lemma_terms_once((upto - 1) as nat, lambda_depth);
        lemma_terms_once((depth - (upto - 1)) as nat, lambda_depth);
        lemma_all_apps_once(funs, args);
        assert forall|i: int, j: int| 0 <= i < before.len() && 0 <= j < row.len() implies before[i]
            != row[j] by {
            lemma_apps_depth(depth, lambda_depth, (upto - 1) as nat, i);
            let (p, q) = lemma_all_apps(funs, args, j);
            lemma_terms_depth((upto - 1) as nat, lambda_depth, p);
        }
        vstd::seq_lib::lemma_no_dup_in_concat(before, row);
    }
}

/// No term of the enumeration is listed twice.
pub proof fn lemma_terms_once(depth: nat, lambda_depth: nat)
    requires
        depth + lambda_depth <= usize::MAX,
    ensures
        terms_at(depth, lambda_depth).no_duplicates(),
    decreases depth, depth + 1,
{
    if depth > 1 {
        let bodies = terms_at((depth - 1) as nat, lambda_depth + 1);
        let lams = lams_of(bodies);
        let apps = apps_upto(depth, lambda_depth, depth);
        lemma_terms_once((depth - 1) as nat, lambda_depth + 1);
        lemma_apps_once(depth, lambda_depth, depth);
        assert forall|i: int, j: int| 0 <= i < lams.len() && 0 <= j < apps.len() implies lams[i]
            != apps[j] by {
            lemma_apps_depth(depth, lambda_depth, depth, j);
        }
        vstd::seq_lib::lemma_no_dup_in_concat(lams, apps);
    }
}

/// Every closed term of the enumeration has one of the depths that were
/// asked for.
pub proof fn lemma_enumerated_depth(start: nat, end: nat, i: int)
    requires
        start >= 1,
        0 <= i < terms_between(start, end).len(),
    ensures
        start <= terms_between(start, end)[i].depth() < end,
    decreases end,
{
    if end > start {
        let before = terms_between(start, (end - 1) as nat);
        if i < before.len() {
            lemma_enumerated_depth(start, (end - 1) as nat, i);
        } else {
            lemma_terms_depth((end - 1) as nat, 0, i - before.len());
        }
    }
}

/// No closed term of the enumeration is listed twice.
pub proof fn lemma_enumerated_once(start: nat, end: nat)
    requires
        start >= 1,
        end <= usize::MAX,
    ensures
        terms_between(start, end).no_duplicates(),
    decreases end,
{
    if end > start {
        let before = terms_between(start, (end - 1) as nat);
        let last = terms_at((end - 1) as nat, 0);
        lemma_enumerated_once(start, (end - 1) as nat);
        lemma_terms_once((end - 1) as nat, 0);
        assert forall|i: int, j: int| 0 <= i < before.len() && 0 <= j < last.len() implies before[i]
            != last[j] by {
            lemma_enumerated_depth(start, (end - 1) as nat, i);
            lemma_terms_depth((end - 1) as nat, 0, j);
        }
        vstd::seq_lib::lemma_no_dup_in_concat(before, last);
    }
}

/// Every closed term without type handles whose depth was asked for is
/// among the closed terms of the enumeration.
pub proof fn lemma_every_closed_term_is_enumerated(t: Expr, start: nat, end: nat)
    requires
        t.closed_under(0),
        t.erased() == t,
        start <= t.depth() < end,
    ensures
        terms_between(start, end).contains(t),
    decreases end,
{
    let before = terms_between(start, (end - 1) as nat);
    let last = terms_at((end - 1) as nat, 0);
    if t.depth() < end - 1 {
        lemma_every_closed_term_is_enumerated(t, start, (end - 1) as nat);
        let k = choose|k: int| 0 <= k < before.len() && before[k] == t;
        assert((before + last)[k] == t);
    } else {
        lemma_every_term_is_enumerated(t, 0);
        let k = choose|k: int| 0 <= k < last.len() && last[k] == t;
        assert((before + last)[before.len() + k] == t);
    }
}

/// The most nodes of a term of depth `depth`.
pub open spec fn most_nodes(depth: nat) -> nat {
    if depth <= 1 {
        1
    } else {
        (2 * depth - 1) as nat
    }
}

/// Every member of the applications of some terms to others is the
/// application of one of the first to one of the second.
pub proof fn lemma_all_apps(funs: Seq<Expr>, args: Seq<Expr>, i: int) -> (at: (int, int))
    requires
        0 <= i < all_apps(funs, args).len(),
    ensures
        0 <= at.0 < funs.len(),
        0 <= at.1 < args.len(),
        all_apps(funs, args)[i] == Expr::App(Box::new(funs[at.0]), Box::new(args[at.1]), None),
    decreases funs.len(),
{
    let before = all_apps(funs.drop_last(), args);
    if i < before.len() {
        lemma_all_apps(funs.drop_last(), args, i)
    } else {
        (funs.len() - 1, i - before.len())
    }
}

/// Every application of the enumeration is closed under the lambdas
/// around it, and has no more nodes than its depth allows.
pub proof fn lemma_apps_are_closed(depth: nat, lambda_depth: nat, upto: nat, i: int)
    requires
        0 <= i < apps_upto(depth, lambda_depth, upto).len(),
    ensures
        apps_upto(depth, lambda_depth, upto)[i].closed_under(lambda_depth),
        apps_upto(depth, lambda_depth, upto)[i].size() <= most_nodes(depth),
    decreases depth, upto,
{
    if !(upto <= 1 || upto > depth) {
        let before = apps_upto(depth, lambda_depth, (upto - 1) as nat);
        let funs = terms_at((upto - 1) as nat, lambda_depth);
        let args = terms_at((depth - (upto - 1)) as nat, lambda_depth);
        if i < before.len() {
            lemma_apps_are_closed(depth, lambda_depth, (upto - 1) as nat, i);
        } else {
            let (p, q) = lemma_all_apps(funs, args, i - before.len());
            lemma_terms_are_closed((upto - 1) as nat, lambda_depth, p);
            lemma_terms_are_closed((depth - (upto - 1)) as nat, lambda_depth, q);
        }
    }
}

/// Every term of the enumeration is closed under the lambdas around it,
/// and has no more nodes than its depth allows.
pub proof fn lemma_terms_are_closed(depth: nat, lambda_depth: nat, i: int)
    requires
        0 <= i < terms_at(depth, lambda_depth).len(),
    ensures
        terms_at(depth, lambda_depth)[i].closed_under(lambda_depth),
        terms_at(depth, lambda_depth)[i].size() <= most_nodes(depth),
    decreases depth, depth + 1,
{
    if depth > 1 {
        let lams = lams_of(terms_at((depth - 1) as nat, lambda_depth + 1));
        if i < lams.len() {
            lemma_terms_are_closed((depth - 1) as nat, lambda_depth + 1, i);
        } else {
            lemma_apps_are_closed(depth, lambda_depth, depth, i - lams.len());
        }
    }
}

/// Every closed term of the enumeration can be given to inference: it is
/// closed, and has no more nodes than its depth allows.
pub proof fn lemma_enumerated_terms_are_closed(start: nat, end: nat, i: int)
    requires
        0 <= i < terms_between(start, end).len(),
    ensures
        terms_between(start, end)[i].closed_under(0),
        terms_between(start, end)[i].size() <= most_nodes(end),
    decreases end,
{
    if end > start {
        let before = terms_between(start, (end - 1) as nat);
        if i < before.len() {
            lemma_enumerated_terms_are_closed(start, (end - 1) as nat, i);
        } else {
            lemma_terms_are_closed((end - 1) as nat, 0, i - before.len());
        }
    }
}

/// The terms of depth `depth` under `lambda_depth` lambdas.
pub fn enumerate_terms_depth(depth: usize, lambda_depth: usize) -> (r: Vec<Expr>)
    requires
        depth >= 1,
        depth + lambda_depth <= usize::MAX,
    ensures
        r@ == terms_at(depth as nat, lambda_depth as nat),
    decreases depth,
{
    let mut result: Vec<Expr> = Vec::new();
    if depth == 1 {
        let mut i: usize = 0;
        assert(result@ =~= vars_upto(0));
        while i < lambda_depth
            invariant
                i <= lambda_depth,
                result@ == vars_upto(i as nat),
            decreases lambda_depth - i,
        {
            result.push(Expr::Var(i, None));
            assert(result@ =~= vars_upto((i + 1) as nat));
            i += 1;
        }
        result
    } else {
        let bodies = enumerate_terms_depth(depth - 1, lambda_depth + 1);
        let ghost inner = bodies@;
        assert(result@ =~= lams_of(inner.take(0)));
        for e in it: bodies
            invariant
                it.seq() == inner,
                result@ == lams_of(inner.take(it.index() as int)),
        {
            result.push(lam(e));
            assert(result@ =~= lams_of(inner.take(it.index() + 1)));
        }
        assert(inner.take(inner.len() as int) =~= inner);
        let ghost lams = result@;
        let mut d: usize = 1;
        assert(result@ =~= lams + apps_upto(depth as nat, lambda_depth as nat, 1));
        while d < depth
            invariant
                1 <= d <= depth,
                depth + lambda_depth <= usize::MAX,
                result@ == lams + apps_upto(depth as nat, lambda_depth as nat, d as nat),
            decreases depth - d,
        {
            let funs = enumerate_terms_depth(d, lambda_depth);
            let args = enumerate_terms_depth(depth - d, lambda_depth);
            let ghost before = result@;
            let ghost fs = funs@;
            let ghost xs = args@;
            assert(result@ =~= before + all_apps(fs.take(0), xs));
            let mut i: usize = 0;
            while i < funs.len()
                invariant
                    i <= funs.len(),
                    funs@ == fs,
                    args@ == xs,
                    result@ == before + all_apps(fs.take(i as int), xs),
                decreases funs.len() - i,
            {
                let ghost row = result@;
                let mut j: usize = 0;
                assert(result@ =~= row + apps_of(fs[i as int], xs.take(0)));
                while j < args.len()
                    invariant
                        j <= args.len(),
                        i < funs.len(),
                        funs@ == fs,
                        args@ == xs,
                        result@ == row + apps_of(fs[i as int], xs.take(j as int)),
                    decreases args.len() - j,
                {
                    result.push(app(funs[i].duplicate(), args[j].duplicate()));
                    assert(result@ =~= row + apps_of(fs[i as int], xs.take(j + 1)));
                    j += 1;
                }
                proof {
                    assert(xs.take(xs.len() as int) =~= xs);
                    assert(fs.take(i + 1).drop_last() =~= fs.take(i as int));
                    assert(fs.take(i + 1).last() == fs[i as int]);
                    assert(result@ =~= before + all_apps(fs.take(i + 1), xs));
                }
                i += 1;
            }
            proof {
                assert(fs.take(fs.len() as int) =~= fs);
                assert(result@ =~= lams + (apps_upto(depth as nat, lambda_depth as nat, d as nat)
                    + all_apps(fs, xs)));
            }
            d += 1;
        }
        result
    }
}

/// The closed terms of the depths from `start` up to, not including,
/// `end`, depth after depth.
pub fn enumerate_terms(start: usize, end: usize) -> (r: Vec<Expr>)
    requires
        start != 0,
    ensures
        r@ == terms_between(start as nat, end as nat),
{
    let mut result: Vec<Expr> = Vec::new();
    let mut i: usize = start;
    if end <= start {
        return result;
    }
    while i < end
        invariant
            1 <= start <= i <= end,
            result@ == terms_between(start as nat, i as nat),
        decreases end - i,
    {
        let mut terms = enumerate_terms_depth(i, 0);
        result.append(&mut terms);
        i += 1;
    }
    result
}

} // verus!
