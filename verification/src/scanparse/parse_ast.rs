//! The surface parse tree: functions of typed arguments, a sequence of
//! assignment statements, and a return expression, with nestable
//! expressions that still refer to identifiers by name.
//!
//! The specification functions here say which parse trees the SSA builder
//! accepts: every identifier must be bound — by an argument, an earlier
//! assignment, or an enclosing comprehension's index variable — and the
//! size functions bound how many arena keys a conversion mints.

use vstd::prelude::*;

use crate::ast::{Bop, Type, Uop};

verus! {

/// A surface program.
#[derive(Debug)]
pub struct Program {
    pub fundefs: Vec<Fundef>,
}

/// A surface function definition.  `ret_expr` is `None` when the body
/// ended without a return statement; the SSA builder reports that as an
/// error for this function alone.
#[derive(Debug)]
pub struct Fundef {
    pub id: String,
    pub args: Vec<(Type, String)>,
    pub ret_type: Type,
    pub body: Vec<Stmt>,
    pub ret_expr: Option<Expr>,
}

/// A surface statement: re-binding a name to an expression.
#[derive(Debug)]
pub enum Stmt {
    Assign { lhs: String, expr: Expr },
}

/// The name a comprehension binds its index variable to.
#[derive(Debug, PartialEq, Eq)]
pub struct IndexVector(pub String);

/// A surface expression.
#[derive(Debug)]
pub enum Expr {
    Tensor { iv: IndexVector, expr: Box<Expr>, lb: Box<Expr>, ub: Box<Expr> },
    Binary { l: Box<Expr>, r: Box<Expr>, op: Bop },
    Unary { r: Box<Expr>, op: Uop },
    Identifier(String),
    Bool(bool),
    U32(u32),
}

/// How many arena keys converting this expression to SSA form mints: one
/// per evaluated node, one more per comprehension for its index variable,
/// none for a bare identifier.
pub open spec fn expr_size(e: Expr) -> nat
    decreases e,
{
    match e {
        Expr::Tensor { iv: _, expr, lb, ub } => 2 + expr_size(*expr) + expr_size(*lb) + expr_size(
            *ub,
        ),
        Expr::Binary { l, r, op: _ } => 1 + expr_size(*l) + expr_size(*r),
        Expr::Unary { r, op: _ } => 1 + expr_size(*r),
        Expr::Identifier(_) => 0,
        Expr::Bool(_) => 1,
        Expr::U32(_) => 1,
    }
}

/// Fresh synthetic names minted for this expression: one per evaluated
/// node; a comprehension's index variable keeps its surface name, and a
/// bare identifier mints nothing.
pub open spec fn expr_name_count(e: Expr) -> nat
    decreases e,
{
    match e {
        Expr::Tensor { iv: _, expr, lb, ub } => 1 + expr_name_count(*expr) + expr_name_count(*lb)
            + expr_name_count(*ub),
        Expr::Binary { l, r, op: _ } => 1 + expr_name_count(*l) + expr_name_count(*r),
        Expr::Unary { r, op: _ } => 1 + expr_name_count(*r),
        Expr::Identifier(_) => 0,
        Expr::Bool(_) => 1,
        Expr::U32(_) => 1,
    }
}

/// Keys minted by a sequence of statements.
pub open spec fn stmts_size(stmts: Seq<Stmt>) -> nat
    decreases stmts.len(),
{
    if stmts.len() == 0 {
        0
    } else {
        stmts_size(stmts.drop_last()) + (match stmts.last() {
            Stmt::Assign { lhs: _, expr } => expr_size(expr),
        })
    }
}

/// Keys minted by converting a whole function definition.
pub open spec fn fundef_size(f: Fundef) -> nat {
    stmts_size(f.body@) + (match f.ret_expr {
        Some(e) => expr_size(e),
        None => 0,
    })
}

/// Every identifier of the expression is bound in the environment; a
/// comprehension's bounds may not use its own index variable, but its body
/// may.
pub open spec fn expr_ids_bound(e: Expr, env: Set<Seq<char>>) -> bool
    decreases e,
{
    match e {
        Expr::Tensor { iv, expr, lb, ub } => {
            &&& expr_ids_bound(*lb, env)
            &&& expr_ids_bound(*ub, env)
            &&& expr_ids_bound(*expr, env.insert(iv.0@))
        },
        Expr::Binary { l, r, op: _ } => expr_ids_bound(*l, env) && expr_ids_bound(*r, env),
        Expr::Unary { r, op: _ } => expr_ids_bound(*r, env),
        Expr::Identifier(x) => env.contains(x@),
        Expr::Bool(_) => true,
        Expr::U32(_) => true,
    }
}

/// The environment after a statement: the assigned name becomes bound.
pub open spec fn env_after_stmt(env: Set<Seq<char>>, s: Stmt) -> Set<Seq<char>> {
    match s {
        Stmt::Assign { lhs, expr: _ } => env.insert(lhs@),
    }
}

/// The environment after a sequence of statements.
pub open spec fn env_after_stmts(env: Set<Seq<char>>, stmts: Seq<Stmt>) -> Set<Seq<char>>
    decreases stmts.len(),
{
    if stmts.len() == 0 {
        env
    } else {
        env_after_stmt(env_after_stmts(env, stmts.drop_last()), stmts.last())
    }
}

/// Every statement's expression is bound in the environment current when
/// the statement runs.
pub open spec fn stmts_ids_bound(stmts: Seq<Stmt>, env: Set<Seq<char>>) -> bool
    decreases stmts.len(),
{
    if stmts.len() == 0 {
        true
    } else {
        stmts_ids_bound(stmts.drop_last(), env) && (match stmts.last() {
            Stmt::Assign { lhs: _, expr } => expr_ids_bound(
                expr,
                env_after_stmts(env, stmts.drop_last()),
            ),
        })
    }
}

/// The environment a function body starts in: its argument names.
pub open spec fn args_env(args: Seq<(Type, String)>) -> Set<Seq<char>> {
    Set::new(|x: Seq<char>| exists|i: int| 0 <= i < args.len() && (#[trigger] args[i]).1@ == x)
}

/// The SSA builder accepts this function: a return expression is present
/// and every identifier use is bound when reached.
pub open spec fn fundef_ids_bound(f: Fundef) -> bool {
    &&& stmts_ids_bound(f.body@, args_env(f.args@))
    &&& match f.ret_expr {
        Some(e) => expr_ids_bound(e, env_after_stmts(args_env(f.args@), f.body@)),
        None => true,
    }
}


/// The keys a conversion would mint, as a run-time value; `None` when the
/// count does not fit a machine word (conversion must then be refused, as
/// its key counter could not hold the keys).
pub fn checked_expr_size(e: &Expr) -> (r: Option<usize>)
    ensures
        match r {
            Some(n) => n as nat == expr_size(*e),
            None => expr_size(*e) > usize::MAX,
        },
    decreases *e,
{
    match e {
        Expr::Identifier(_) => Some(0),
        Expr::Bool(_) => Some(1),
        Expr::U32(_) => Some(1),
        Expr::Unary { r, op: _ } => {
            match checked_expr_size(r) {
                Some(n) => {
                    if n < usize::MAX {
                        Some(n + 1)
                    } else {
                        None
                    }
                },
                None => None,
            }
        },
        Expr::Binary { l, r, op: _ } => {
            match (checked_expr_size(l), checked_expr_size(r)) {
                (Some(a), Some(b)) => {
                    if a <= usize::MAX - b && a + b < usize::MAX {
                        Some(a + b + 1)
                    } else {
                        None
                    }
                },
                _ => None,
            }
        },
        Expr::Tensor { iv: _, expr, lb, ub } => {
            match (checked_expr_size(expr), checked_expr_size(lb), checked_expr_size(ub)) {
                (Some(a), Some(b), Some(c)) => {
                    if a <= usize::MAX - b && a + b <= usize::MAX - c && a + b + c
                        <= usize::MAX - 2 {
                        Some(a + b + c + 2)
                    } else {
                        None
                    }
                },
                _ => None,
            }
        },
    }
}

/// The keys converting a whole function would mint, as a run-time value;
/// `None` when the count does not fit a machine word.
pub fn checked_fundef_size(f: &Fundef) -> (r: Option<usize>)
    ensures
        match r {
            Some(n) => n as nat == fundef_size(*f),
            None => fundef_size(*f) > usize::MAX,
        },
{
    let mut total: usize = 0;
    let mut i: usize = 0;
    while i < f.body.len()
        invariant
            i <= f.body@.len(),
            total as nat == stmts_size(f.body@.take(i as int)),
        decreases f.body@.len() - i,
    {
        proof {
            assert(f.body@.take(i + 1).drop_last() =~= f.body@.take(i as int));
            assert(f.body@.take(i + 1).last() == f.body@[i as int]);
        }
        let Stmt::Assign { lhs: _, expr } = &f.body[i];
        let n = match checked_expr_size(expr) {
            Some(n) => n,
            None => {
                proof {
                    lemma_stmts_size_at_least(f.body@, i as int);
                }
                return None;
            },
        };
        if total > usize::MAX - n {
            proof {
                lemma_stmts_size_at_least(f.body@, i as int);
            }
            return None;
        }
        total = total + n;
        i = i + 1;
    }
    proof {
        assert(f.body@.take(f.body@.len() as int) =~= f.body@);
    }
    match &f.ret_expr {
        Some(e) => {
            let n = match checked_expr_size(e) {
                Some(n) => n,
                None => {
                    return None;
                },
            };
            if total > usize::MAX - n {
                None
            } else {
                Some(total + n)
            }
        },
        None => Some(total),
    }
}

/// A statement sequence mints at least what its prefix plus the next
/// statement mint.
proof fn lemma_stmts_size_at_least(stmts: Seq<Stmt>, i: int)
    requires
        0 <= i < stmts.len(),
    ensures
        stmts_size(stmts) >= stmts_size(stmts.take(i)) + (match stmts[i] {
            Stmt::Assign { lhs: _, expr } => expr_size(expr),
        }),
    decreases stmts.len(),
{
    if i == stmts.len() - 1 {
        assert(stmts.take(i) =~= stmts.drop_last());
        assert(stmts.last() == stmts[i]);
    } else {
        assert(stmts.drop_last().take(i) =~= stmts.take(i));
        assert(stmts.drop_last()[i] == stmts[i]);
        lemma_stmts_size_at_least(stmts.drop_last(), i);
    }
}

} // verus!
