//! The undo-SSA pass: reconstructs a nested expression tree from a typed
//! program, for human inspection.
//!
//! Every reference is inlined recursively: an argument or index variable
//! becomes a bare identifier, a defined local becomes its defining
//! expression with the operands inlined in turn.  Each function comes back
//! as one assignment statement binding the returned value's name, followed
//! by a literal return of that name.

use vstd::prelude::*;

use crate::ast::{
    ref_below, ref_measure, resolvable, stack_find_key, stack_find_ssa, wf_fundef, wf_program,
    ArgOrVar, Avis, Block, Expr, Fundef, Program, Type, TypedAst,
};
use crate::scanparse::parse_ast;
use crate::traverse::ScopeStack;

verus! {

/// The name a reference goes by in the reconstructed tree.
pub open spec fn name_of(
    stack: Seq<Block<TypedAst>>,
    args: Seq<Avis<TypedAst>>,
    r: ArgOrVar,
) -> Seq<char> {
    match r {
        ArgOrVar::Arg(i) => if i < args.len() {
            args[i as int].name@
        } else {
            Seq::empty()
        },
        ArgOrVar::Var(k) | ArgOrVar::Iv(k) => match stack_find_key(stack, k.0 as nat) {
            Some(a) => a.name@,
            None => Seq::empty(),
        },
    }
}

/// The shape of a reconstructed expression: literal leaves, identifier
/// spellings, and operator nesting.
pub enum InlineTree {
    Bool(bool),
    U32(u32),
    Ident(Seq<char>),
    /// A reference to an enclosing comprehension's index variable (which
    /// one, the scope lookup determines; the key-erased shape does not).
    IndexRef,
    /// A defined local: its recorded name and the shape of its recorded
    /// definition.
    Named(Seq<char>, Box<InlineTree>),
    Binary(Box<InlineTree>, Box<InlineTree>, crate::ast::Bop),
    Unary(Box<InlineTree>, crate::ast::Uop),
    Tensor(Seq<char>, Box<InlineTree>, Box<InlineTree>, Box<InlineTree>),
}

/// The shape of a surface expression.
pub open spec fn tree_of(e: parse_ast::Expr) -> InlineTree
    decreases e,
{
    match e {
        parse_ast::Expr::Bool(v) => InlineTree::Bool(v),
        parse_ast::Expr::U32(v) => InlineTree::U32(v),
        parse_ast::Expr::Identifier(x) => InlineTree::Ident(x@),
        parse_ast::Expr::Binary { l, r, op } => InlineTree::Binary(
            Box::new(tree_of(*l)),
            Box::new(tree_of(*r)),
            op,
        ),
        parse_ast::Expr::Unary { r, op } => InlineTree::Unary(Box::new(tree_of(*r)), op),
        parse_ast::Expr::Tensor { iv, expr, lb, ub } => InlineTree::Tensor(
            iv.0@,
            Box::new(tree_of(*expr)),
            Box::new(tree_of(*lb)),
            Box::new(tree_of(*ub)),
        ),
    }
}

/// The fully inlined shape a reference stands for: identifiers for
/// arguments and index variables, the recursively inlined definition for a
/// local.
pub open spec fn inline_of(
    stack: Seq<Block<TypedAst>>,
    args: Seq<Avis<TypedAst>>,
    r: ArgOrVar,
) -> InlineTree
    decreases ref_measure(r), 1nat,
{
    match r {
        ArgOrVar::Arg(_) | ArgOrVar::Iv(_) => InlineTree::Ident(name_of(stack, args, r)),
        ArgOrVar::Var(k) => match stack_find_ssa(stack, k.0 as nat) {
            Some(e) => inline_expr_of(stack, args, e, k.0 as nat),
            None => InlineTree::Bool(false),
        },
    }
}

/// The inlined shape of a defining expression at key `k`.
pub open spec fn inline_expr_of(
    stack: Seq<Block<TypedAst>>,
    args: Seq<Avis<TypedAst>>,
    e: Expr<TypedAst>,
    k: nat,
) -> InlineTree
    decreases k + 1, 0nat,
{
    match e {
        Expr::Bool(v) => InlineTree::Bool(v),
        Expr::U32(v) => InlineTree::U32(v),
        Expr::Binary(b) => if ref_below(b.l, k) && ref_below(b.r, k) {
            InlineTree::Binary(
                Box::new(inline_of(stack, args, b.l)),
                Box::new(inline_of(stack, args, b.r)),
                b.op,
            )
        } else {
            InlineTree::Bool(false)
        },
        Expr::Unary(u) => if ref_below(u.r, k) {
            InlineTree::Unary(Box::new(inline_of(stack, args, u.r)), u.op)
        } else {
            InlineTree::Bool(false)
        },
        Expr::Tensor(t) => if ref_below(t.lb, k) && ref_below(t.ub, k) && ref_below(
            t.body.ret,
            k,
        ) {
            let pushed = stack.push(t.body);
            InlineTree::Tensor(
                name_of(pushed, args, ArgOrVar::Iv(t.iv.0)),
                Box::new(inline_of(pushed, args, t.body.ret)),
                Box::new(inline_of(stack, args, t.lb)),
                Box::new(inline_of(stack, args, t.ub)),
            )
        } else {
            InlineTree::Bool(false)
        },
    }
}


/// The names of a function's argument records, in order.
pub open spec fn avis_names<Ast: crate::ast::AstConfig>(args: Seq<Avis<Ast>>) -> Seq<Seq<char>> {
    args.map_values(|a: Avis<Ast>| a.name@)
}

/// The key-erased shape of the graph a reference stands for, in either
/// typestate: literal values, argument and binder names, operators and
/// operand order — everything but the keys.  Equality of these shapes is
/// what "structurally isomorphic with fresh keys" means for the
/// typestate-changing rewrite.
pub open spec fn graph_tree<Ast: crate::ast::AstConfig>(
    stack: Seq<Block<Ast>>,
    argnames: Seq<Seq<char>>,
    r: ArgOrVar,
) -> InlineTree
    decreases ref_measure(r), 1nat,
{
    match r {
        ArgOrVar::Arg(i) => InlineTree::Ident(
            if i < argnames.len() {
                argnames[i as int]
            } else {
                Seq::empty()
            },
        ),
        ArgOrVar::Iv(_) => InlineTree::IndexRef,
        ArgOrVar::Var(k) => match (
            stack_find_key(stack, k.0 as nat),
            stack_find_ssa(stack, k.0 as nat),
        ) {
            (Some(a), Some(e)) => InlineTree::Named(
                a.name@,
                Box::new(graph_expr_tree(stack, argnames, e, k.0 as nat)),
            ),
            _ => InlineTree::Bool(false),
        },
    }
}

/// The key-erased shape of a definition at key `k`.
pub open spec fn graph_expr_tree<Ast: crate::ast::AstConfig>(
    stack: Seq<Block<Ast>>,
    argnames: Seq<Seq<char>>,
    e: Expr<Ast>,
    k: nat,
) -> InlineTree
    decreases k + 1, 0nat,
{
    match e {
        Expr::Bool(v) => InlineTree::Bool(v),
        Expr::U32(v) => InlineTree::U32(v),
        Expr::Binary(b) => if ref_below(b.l, k) && ref_below(b.r, k) {
            InlineTree::Binary(
                Box::new(graph_tree(stack, argnames, b.l)),
                Box::new(graph_tree(stack, argnames, b.r)),
                b.op,
            )
        } else {
            InlineTree::Bool(false)
        },
        Expr::Unary(u) => if ref_below(u.r, k) {
            InlineTree::Unary(Box::new(graph_tree(stack, argnames, u.r)), u.op)
        } else {
            InlineTree::Bool(false)
        },
        Expr::Tensor(t) => if ref_below(t.lb, k) && ref_below(t.ub, k) && ref_below(
            t.body.ret,
            k,
        ) {
            let pushed = stack.push(t.body);
            InlineTree::Tensor(
                if t.body.local_vars@.dom().contains(t.iv.0.0 as nat) {
                    t.body.local_vars@[t.iv.0.0 as nat].name@
                } else {
                    Seq::empty()
                },
                Box::new(graph_tree(pushed, argnames, t.body.ret)),
                Box::new(graph_tree(stack, argnames, t.lb)),
                Box::new(graph_tree(stack, argnames, t.ub)),
            )
        } else {
            InlineTree::Bool(false)
        },
    }
}

/// The shape is unchanged by stack changes that leave every key below the
/// bound looking the same.
pub proof fn lemma_graph_tree_agree<Ast: crate::ast::AstConfig>(
    s1: Seq<Block<Ast>>,
    s2: Seq<Block<Ast>>,
    argnames: Seq<Seq<char>>,
    r: ArgOrVar,
    bound: nat,
)
    requires
        ref_measure(r) <= bound,
        forall|k: nat| k < bound ==> #[trigger] crate::traverse::finds_agree(s1, s2, k),
    ensures
        graph_tree(s1, argnames, r) == graph_tree(s2, argnames, r),
    decreases ref_measure(r), 1nat,
{
    match r {
        ArgOrVar::Var(k) => {
            assert(crate::traverse::finds_agree(s1, s2, k.0 as nat));
            match stack_find_ssa(s1, k.0 as nat) {
                Some(e) => {
                    if stack_find_key(s1, k.0 as nat) is Some {
                        lemma_graph_expr_tree_agree(s1, s2, argnames, e, k.0 as nat, bound);
                    }
                },
                None => {},
            }
        },
        _ => {},
    }
}

/// Companion to [`lemma_graph_tree_agree`] for whole definitions.
pub proof fn lemma_graph_expr_tree_agree<Ast: crate::ast::AstConfig>(
    s1: Seq<Block<Ast>>,
    s2: Seq<Block<Ast>>,
    argnames: Seq<Seq<char>>,
    e: Expr<Ast>,
    k: nat,
    bound: nat,
)
    requires
        k <= bound,
        forall|k2: nat| k2 < bound ==> #[trigger] crate::traverse::finds_agree(s1, s2, k2),
    ensures
        graph_expr_tree(s1, argnames, e, k) == graph_expr_tree(s2, argnames, e, k),
    decreases k + 1, 0nat,
{
    match e {
        Expr::Binary(b) => {
            if ref_below(b.l, k) && ref_below(b.r, k) {
                lemma_graph_tree_agree(s1, s2, argnames, b.l, bound);
                lemma_graph_tree_agree(s1, s2, argnames, b.r, bound);
            }
        },
        Expr::Unary(u) => {
            if ref_below(u.r, k) {
                lemma_graph_tree_agree(s1, s2, argnames, u.r, bound);
            }
        },
        Expr::Tensor(t) => {
            if ref_below(t.lb, k) && ref_below(t.ub, k) && ref_below(t.body.ret, k) {
                lemma_graph_tree_agree(s1, s2, argnames, t.lb, bound);
                lemma_graph_tree_agree(s1, s2, argnames, t.ub, bound);
                let p1 = s1.push(t.body);
                let p2 = s2.push(t.body);
                assert forall|k2: nat|
                    k2 < bound implies #[trigger] crate::traverse::finds_agree(p1, p2, k2) by {
                    crate::traverse::lemma_push_preserves_agree(s1, s2, t.body, k2);
                }
                lemma_graph_tree_agree(p1, p2, argnames, t.body.ret, bound);
            }
        },
        _ => {},
    }
}

/// The undo-SSA pass.
pub struct UndoSsa;

impl UndoSsa {
    pub fn new() -> (r: Self) {
        UndoSsa
    }

    /// Inline one reference.
    fn inline_expr<'a>(
        &mut self,
        scopes: &mut ScopeStack<'a, TypedAst>,
        args: &Vec<Avis<TypedAst>>,
        r: ArgOrVar,
    ) -> (out: parse_ast::Expr)
        requires
            resolvable(old(scopes)@, r, ref_measure(r), args@.len() as nat),
        ensures
            final(scopes)@ == old(scopes)@,
            tree_of(out) == inline_of(old(scopes)@, args@, r),
        decreases ref_measure(r), 1nat,
    {
        match r {
            ArgOrVar::Arg(i) => parse_ast::Expr::Identifier(args[i].name.clone()),
            ArgOrVar::Iv(k) => {
                match scopes.find_key(k) {
                    Some(a) => parse_ast::Expr::Identifier(a.name.clone()),
                    None => {
                        proof {
                            assert(false);
                        }
                        parse_ast::Expr::Bool(false)
                    },
                }
            },
            ArgOrVar::Var(k) => {
                let e = match scopes.find_ssa(k) {
                    Some(e) => e,
                    None => {
                        proof {
                            assert(false);
                        }
                        return parse_ast::Expr::Bool(false);
                    },
                };
                self.inline_def(scopes, args, e, Ghost(k.0 as nat))
            },
        }
    }

    /// Inline one defining expression.
    fn inline_def<'a>(
        &mut self,
        scopes: &mut ScopeStack<'a, TypedAst>,
        args: &Vec<Avis<TypedAst>>,
        e: &'a Expr<TypedAst>,
        Ghost(k): Ghost<nat>,
    ) -> (out: parse_ast::Expr)
        requires
            crate::ast::expr_resolvable(old(scopes)@, *e, k, args@.len() as nat),
        ensures
            final(scopes)@ == old(scopes)@,
            tree_of(out) == inline_expr_of(old(scopes)@, args@, *e, k),
        decreases k + 1, 0nat,
    {
        match e {
            Expr::Bool(v) => parse_ast::Expr::Bool(*v),
            Expr::U32(v) => parse_ast::Expr::U32(*v),
            Expr::Binary(b) => {
                let l = self.inline_expr(scopes, args, b.l);
                let rr = self.inline_expr(scopes, args, b.r);
                parse_ast::Expr::Binary { l: Box::new(l), r: Box::new(rr), op: b.op }
            },
            Expr::Unary(u) => {
                let rr = self.inline_expr(scopes, args, u.r);
                parse_ast::Expr::Unary { r: Box::new(rr), op: u.op }
            },
            Expr::Tensor(t) => {
                let lb = self.inline_expr(scopes, args, t.lb);
                let ub = self.inline_expr(scopes, args, t.ub);
                scopes.push_scope(&t.body);
                let ivname = match scopes.find_key(t.iv.0) {
                    Some(a) => a.name.clone(),
                    None => {
                        proof {
                            assert(false);
                        }
                        String::new()
                    },
                };
                let body = self.inline_expr(scopes, args, t.body.ret);
                let _ = scopes.pop_scope();
                proof {
                    assert(scopes@ =~= old(scopes)@);
                }
                parse_ast::Expr::Tensor {
                    iv: parse_ast::IndexVector(ivname),
                    expr: Box::new(body),
                    lb: Box::new(lb),
                    ub: Box::new(ub),
                }
            },
        }
    }

    /// Reconstruct a whole typed program as surface syntax.
    pub fn trav_program(&mut self, program: &Program<TypedAst>) -> (out: parse_ast::Program)
        requires
            wf_program(*program),
        ensures
            out.fundefs@.len() == program.fundefs@.len(),
            forall|i: int|
                0 <= i < out.fundefs@.len() ==> fundef_undone(
                    #[trigger] out.fundefs@[i],
                    program.fundefs@[i],
                ),
    {
        let mut fundefs: Vec<parse_ast::Fundef> = Vec::new();
        let mut i: usize = 0;
        while i < program.fundefs.len()
            invariant
                wf_program(*program),
                i <= program.fundefs@.len(),
                fundefs@.len() == i as int,
                forall|j: int|
                    0 <= j < i ==> fundef_undone(#[trigger] fundefs@[j], program.fundefs@[j]),
            decreases program.fundefs@.len() - i,
        {
            let f = &program.fundefs[i];
            proof {
                assert(wf_fundef(program.fundefs@[i as int]));
            }
            let u = self.trav_fundef(f);
            fundefs.push(u);
            i = i + 1;
        }
        parse_ast::Program { fundefs }
    }

    /// Reconstruct one typed function.
    fn trav_fundef<'a>(&mut self, f: &'a Fundef<TypedAst>) -> (out: parse_ast::Fundef)
        requires
            wf_fundef(*f),
        ensures
            fundef_undone(out, *f),
    {
        let mut args: Vec<(Type, String)> = Vec::new();
        let mut i: usize = 0;
        while i < f.args.len()
            invariant
                i <= f.args@.len(),
                args@.len() == i as int,
                forall|j: int|
                    0 <= j < i ==> (#[trigger] args@[j]).0 == f.args@[j].ty && args@[j].1@
                        == f.args@[j].name@,
            decreases f.args@.len() - i,
        {
            let a = &f.args[i];
            args.push((a.ty.clone(), a.name.clone()));
            i = i + 1;
        }
        let mut scopes: ScopeStack<TypedAst> = ScopeStack::new();
        scopes.push_scope(&f.block);
        proof {
            assert(scopes@ =~= seq![f.block]);
            assert(resolvable(
                scopes@,
                f.block.ret,
                ref_measure(f.block.ret),
                f.args@.len() as nat,
            )) by {
                assert(resolvable(
                    seq![f.block],
                    f.block.ret,
                    f.block.local_vars.next_key(),
                    f.args@.len() as nat,
                ));
            }
        }
        let lhs = match f.block.ret {
            ArgOrVar::Arg(ii) => f.args[ii].name.clone(),
            ArgOrVar::Var(k) | ArgOrVar::Iv(k) => {
                match scopes.find_key(k) {
                    Some(a) => a.name.clone(),
                    None => {
                        proof {
                            assert(false);
                        }
                        String::new()
                    },
                }
            },
        };
        let lhs2 = lhs.clone();
        let ret_ty = match f.block.ret {
            ArgOrVar::Arg(ii) => f.args[ii].ty.clone(),
            ArgOrVar::Var(k) | ArgOrVar::Iv(k) => {
                match scopes.find_key(k) {
                    Some(a) => a.ty.clone(),
                    None => {
                        proof {
                            assert(false);
                        }
                        Type {
                            basetype: crate::ast::BaseType::U32,
                            shp: crate::ast::Shape::Scalar,
                        }
                    },
                }
            },
        };
        let expr = self.inline_expr(&mut scopes, &f.args, f.block.ret);
        parse_ast::Fundef {
            id: f.name.clone(),
            args,
            ret_type: ret_ty,
            body: vec![parse_ast::Stmt::Assign { lhs, expr }],
            ret_expr: Some(parse_ast::Expr::Identifier(lhs2)),
        }
    }
}

/// The reconstruction contract for one function.
pub open spec fn fundef_undone(u: parse_ast::Fundef, f: Fundef<TypedAst>) -> bool {
    let stack = seq![f.block];
    &&& u.id@ == f.name@
    &&& u.args@.len() == f.args@.len()
    &&& forall|i: int|
        0 <= i < u.args@.len() ==> (#[trigger] u.args@[i]).0 == f.args@[i].ty && u.args@[i].1@
            == f.args@[i].name@
    &&& u.ret_type == ref_ty_of(f)
    &&& u.body@.len() == 1
    &&& match u.body@[0] {
        parse_ast::Stmt::Assign { lhs, expr } => lhs@ == name_of(stack, f.args@, f.block.ret)
            && tree_of(expr) == inline_of(stack, f.args@, f.block.ret),
    }
    &&& match u.ret_expr {
        Some(parse_ast::Expr::Identifier(x)) => x@ == name_of(stack, f.args@, f.block.ret),
        _ => false,
    }
}

/// The recorded type of the returned reference.
pub open spec fn ref_ty_of(f: Fundef<TypedAst>) -> Type {
    match f.block.ret {
        ArgOrVar::Arg(i) => if i < f.args@.len() {
            f.args@[i as int].ty
        } else {
            Type { basetype: crate::ast::BaseType::U32, shp: crate::ast::Shape::Scalar }
        },
        ArgOrVar::Var(k) | ArgOrVar::Iv(k) => match stack_find_key(seq![f.block], k.0 as nat) {
            Some(a) => a.ty,
            None => Type { basetype: crate::ast::BaseType::U32, shp: crate::ast::Shape::Scalar },
        },
    }
}

} // verus!
