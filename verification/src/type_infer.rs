//! Type inference: a rewrite from the untyped SSA representation into the
//! typed one.
//!
//! Inference is driven from each function's return reference and recurses
//! through the reference graph, not statement order.  An argument has its
//! declared type (its absence is an error); an index variable has the
//! scalar index type `u32`; a local's type is inferred bottom-up from its
//! defining expression by the rules of [`binary_rule`], [`unary_rule`] and
//! the comprehension rule (one dimension deeper than the body).  Operand
//! unification is exact: both operands of a binary operator must have the
//! same type, arithmetic and ordering need the numeric base type, logical
//! negation the boolean one, and a comprehension's bounds must be scalar
//! `u32`; anything else is a [`InferenceError::TypeMismatch`].
//!
//! The output is a fully disjoint typed program: fresh arenas, fresh keys,
//! minted in traversal order under the same one-counter-per-function
//! discipline as SSA construction — old and new keys are never mixed.  A
//! value referenced from several places is re-inferred (and re-minted) at
//! each reference; this walk is deliberately unmemoized.

use vstd::prelude::*;

use crate::arena::{Arena, Key, SecondaryArena};
use crate::ast::{
    args_coherent, block_ivs_declared, block_ssa_unique, expr_ivs_declared, expr_resolvable,
    expr_ssa_unique, ref_below, ref_measure, resolvable, stack_find_key, stack_find_ssa,
    wf_fundef, wf_program, ArgOrVar, Avis, BaseType, Binary, Block, Expr, Fundef, IndexVector,
    Program, Shape, Tensor, Type, TypedAst, Unary, UntypedAst,
};
use crate::traverse::{
    block_agrees_at, finds_agree, lemma_agree_update_last, lemma_expr_resolvable_agree,
    lemma_find_push_fresh, lemma_finds_agree_pointwise, lemma_resolvable_agree,
    lemma_resolvable_widen, ScopeStack,
};
use crate::undo_ssa::{
    avis_names, graph_expr_tree, graph_tree, lemma_graph_expr_tree_agree, lemma_graph_tree_agree,
    InlineTree,
};

verus! {

/// An error of type inference, fatal for the whole compilation.
#[derive(Clone, Copy, Debug, PartialEq, Eq, Structural)]
pub enum InferenceError {
    /// A function argument carries no declared type — an internal
    /// invariant violation of IR construction.
    MissingArgumentType,
    /// Operand types do not unify under the typing rules, or a
    /// comprehension bound is not a scalar `u32`.
    TypeMismatch,
    /// The typed arena's key counter is exhausted (the unmemoized walk
    /// re-mints shared values per reference).
    CapacityExceeded,
}

/// The scalar index type.
pub open spec fn u32_scalar() -> Type {
    Type { basetype: BaseType::U32, shp: Shape::Scalar }
}

/// The typing rule for binary operators: operands must have the same
/// type; arithmetic and ordering need the numeric base type and keep it;
/// comparison yields the boolean base type with the operand shape.  The
/// numeric requirement on the ordering operators is this design's
/// unification choice: the rules table alone would admit any matching
/// operands, but ordering two booleans has no meaning this language
/// defines, so it is a type mismatch.
pub open spec fn binary_rule(op: crate::ast::Bop, tl: Type, tr: Type) -> Option<Type> {
    if tl != tr {
        None
    } else {
        match op {
            crate::ast::Bop::Add | crate::ast::Bop::Sub | crate::ast::Bop::Mul
                | crate::ast::Bop::Div => if tl.basetype == BaseType::U32 {
                Some(tr)
            } else {
                None
            },
            crate::ast::Bop::Eq | crate::ast::Bop::Ne => Some(
                Type { basetype: BaseType::Bool, shp: tr.shp },
            ),
            crate::ast::Bop::Lt | crate::ast::Bop::Le | crate::ast::Bop::Gt
                | crate::ast::Bop::Ge => if tl.basetype == BaseType::U32 {
                Some(Type { basetype: BaseType::Bool, shp: tr.shp })
            } else {
                None
            },
        }
    }
}

/// The typing rule for unary operators: negation needs and keeps the
/// numeric base type, logical not needs and keeps the boolean one.
pub open spec fn unary_rule(op: crate::ast::Uop, t: Type) -> Option<Type> {
    match op {
        crate::ast::Uop::Neg => if t.basetype == BaseType::U32 {
            Some(t)
        } else {
            None
        },
        crate::ast::Uop::Not => if t.basetype == BaseType::Bool {
            Some(t)
        } else {
            None
        },
    }
}

/// The type of a reference in an untyped scope stack: the declared type
/// of an argument, the scalar index type of an index variable, and for a
/// local the type of its defining expression; `None` is a type error.
pub open spec fn ref_ty(
    stack: Seq<Block<UntypedAst>>,
    args: Seq<Avis<UntypedAst>>,
    r: ArgOrVar,
) -> Option<Type>
    decreases ref_measure(r), 1nat,
{
    match r {
        ArgOrVar::Arg(i) => if i < args.len() {
            args[i as int].ty
        } else {
            None
        },
        ArgOrVar::Iv(_) => Some(u32_scalar()),
        ArgOrVar::Var(k) => match stack_find_ssa(stack, k.0 as nat) {
            Some(e) => expr_ty(stack, args, e, k.0 as nat),
            None => None,
        },
    }
}

/// The type of a defining expression at key `k`, by the rules table; a
/// comprehension's bounds must be scalar `u32` and its result is a vector
/// one dimension deeper than its body.
pub open spec fn expr_ty(
    stack: Seq<Block<UntypedAst>>,
    args: Seq<Avis<UntypedAst>>,
    e: Expr<UntypedAst>,
    k: nat,
) -> Option<Type>
    decreases k + 1, 0nat,
{
    match e {
        Expr::Bool(_) => Some(Type { basetype: BaseType::Bool, shp: Shape::Scalar }),
        Expr::U32(_) => Some(u32_scalar()),
        Expr::Binary(b) => if ref_below(b.l, k) && ref_below(b.r, k) {
            match (ref_ty(stack, args, b.l), ref_ty(stack, args, b.r)) {
                (Some(tl), Some(tr)) => binary_rule(b.op, tl, tr),
                _ => None,
            }
        } else {
            None
        },
        Expr::Unary(u) => if ref_below(u.r, k) {
            match ref_ty(stack, args, u.r) {
                Some(t) => unary_rule(u.op, t),
                _ => None,
            }
        } else {
            None
        },
        Expr::Tensor(t) => if ref_below(t.lb, k) && ref_below(t.ub, k) && ref_below(
            t.body.ret,
            k,
        ) {
            let pushed = stack.push(t.body);
            match (ref_ty(stack, args, t.lb), ref_ty(stack, args, t.ub), ref_ty(
                pushed,
                args,
                t.body.ret,
            )) {
                (Some(tl), Some(tu), Some(tb)) => if tl == u32_scalar() && tu == u32_scalar() {
                    Some(Type { basetype: tb.basetype, shp: Shape::Vector(Box::new(tb.shp)) })
                } else {
                    None
                },
                _ => None,
            }
        } else {
            None
        },
    }
}

/// The declared type of a function's return reference, read off the typed
/// representation.
pub open spec fn fundef_ret_ty(g: Fundef<TypedAst>) -> Option<Type> {
    match g.block.ret {
        ArgOrVar::Arg(i) => if i < g.args@.len() {
            Some(g.args@[i as int].ty)
        } else {
            None
        },
        ArgOrVar::Var(k) | ArgOrVar::Iv(k) => match stack_find_key(seq![g.block], k.0 as nat) {
            Some(a) => Some(a.ty),
            None => None,
        },
    }
}

/// How many typed keys rebuilding this reference mints: one per local it
/// reaches plus one per comprehension's index variable — counted per
/// visit, since the unmemoized walk re-mints a shared value at every
/// reference to it.
pub open spec fn ref_mints(stack: Seq<Block<UntypedAst>>, r: ArgOrVar) -> nat
    decreases ref_measure(r), 1nat,
{
    match r {
        ArgOrVar::Arg(_) => 0,
        ArgOrVar::Iv(_) => 0,
        ArgOrVar::Var(k) => match stack_find_ssa(stack, k.0 as nat) {
            Some(e) => 1 + expr_mints(stack, e, k.0 as nat),
            None => 0,
        },
    }
}

/// Typed keys minted while rebuilding a definition at key `k`.
pub open spec fn expr_mints(stack: Seq<Block<UntypedAst>>, e: Expr<UntypedAst>, k: nat) -> nat
    decreases k + 1, 0nat,
{
    match e {
        Expr::Bool(_) => 0,
        Expr::U32(_) => 0,
        Expr::Binary(b) => if ref_below(b.l, k) && ref_below(b.r, k) {
            ref_mints(stack, b.l) + ref_mints(stack, b.r)
        } else {
            0
        },
        Expr::Unary(u) => if ref_below(u.r, k) {
            ref_mints(stack, u.r)
        } else {
            0
        },
        Expr::Tensor(t) => if ref_below(t.lb, k) && ref_below(t.ub, k) && ref_below(
            t.body.ret,
            k,
        ) {
            ref_mints(stack, t.lb) + ref_mints(stack, t.ub) + 1 + ref_mints(
                stack.push(t.body),
                t.body.ret,
            )
        } else {
            0
        },
    }
}

/// Typed keys minted while inferring a whole function.
pub open spec fn fundef_mints(f: Fundef<UntypedAst>) -> nat {
    ref_mints(seq![f.block], f.block.ret)
}

// ---------------------------------------------------------------------------
// The inference state: typed arenas under construction.
// ---------------------------------------------------------------------------

/// One typed scope under construction.
pub struct TScope {
    pub vars: Arena<Avis<TypedAst>>,
    pub ssa: SecondaryArena<Expr<TypedAst>>,
    /// The first key this scope may mint.
    pub start: usize,
    /// The typed key of the index variable this scope declares, if it is a
    /// comprehension body.
    pub iv: Option<Key>,
    /// The untyped key that index variable had before the rewrite.
    pub old_iv: Option<Key>,
}

/// The inference pass: the typed scope being rebuilt, the suspended
/// enclosing typed scopes, and the typed argument records of the function
/// at hand.
pub struct TypeInfer {
    pub cur: TScope,
    pub outer: Vec<TScope>,
    pub args: Vec<Avis<TypedAst>>,
    /// The untyped argument records, kept for specification purposes.
    pub uargs: Ghost<Seq<Avis<UntypedAst>>>,
}

/// The typed scope as a block (the return reference is filled in on
/// packaging).
pub open spec fn t_block(s: TScope) -> Block<TypedAst> {
    Block { local_vars: s.vars, local_ssa: s.ssa, ret: ArgOrVar::Arg(0) }
}

/// All typed scopes, outermost first, the current one last.
pub open spec fn t_scopes(c: TypeInfer) -> Seq<TScope> {
    c.outer@.push(c.cur)
}

/// The typed scope stack as blocks.
pub open spec fn t_stack(scopes: Seq<TScope>) -> Seq<Block<TypedAst>> {
    scopes.map_values(|s: TScope| t_block(s))
}

/// The next typed key to be minted.
pub open spec fn t_next(c: TypeInfer) -> nat {
    c.cur.vars.next_key()
}

/// The declared index variable of a typed scope, as the model sees it.
pub open spec fn t_scope_iv(s: TScope) -> Option<nat> {
    match s.iv {
        Some(k) => Some(k.0 as nat),
        None => None,
    }
}

/// Per-scope invariant of the typed output.
pub open spec fn t_scope_inv(s: TScope) -> bool {
    &&& block_ssa_unique(t_block(s))
    &&& block_ivs_declared(t_block(s), t_scope_iv(s))
    &&& s.start <= s.vars.next_key()
    &&& forall|k: nat| #[trigger] s.vars@.dom().contains(k) ==> s.start <= k
    &&& (s.iv is Some) == (s.old_iv is Some)
}

/// The inference invariant: typed scopes nest with disjoint key ranges,
/// every recorded index variable resolves in the typed stack with its
/// role, and the typed argument records mirror the untyped ones.
pub open spec fn t_inv(c: TypeInfer) -> bool {
    let scopes = t_scopes(c);
    &&& t_scope_inv(c.cur)
    &&& forall|i: int| 0 <= i < c.outer@.len() ==> t_scope_inv(#[trigger] c.outer@[i])
    &&& forall|i: int|
        0 <= i < c.outer@.len() ==> (#[trigger] c.outer@[i].vars.next_key()) <= (if i + 1
            < c.outer@.len() {
            c.outer@[i + 1].start as nat
        } else {
            c.cur.start as nat
        })
    &&& forall|i: int|
        0 <= i < scopes.len() ==> match (#[trigger] scopes[i]).iv {
            Some(nk) => nk.0 < scopes[i].vars.next_key() && resolvable(
                t_stack(scopes),
                ArgOrVar::Iv(nk),
                (nk.0 + 1) as nat,
                c.args@.len() as nat,
            ) && (match stack_find_key(t_stack(scopes), nk.0 as nat) {
                Some(a) => a.ty == u32_scalar(),
                None => false,
            }),
            None => true,
        }
    &&& c.args@.len() == c.uargs@.len()
    &&& forall|i: int|
        0 <= i < c.args@.len() ==> {
            &&& (#[trigger] c.args@[i]).key == ArgOrVar::Arg(i as usize)
            &&& Some(c.args@[i].ty) == c.uargs@[i].ty
            &&& c.args@[i].name@ == c.uargs@[i].name@
        }
}

/// The input scope stack is aligned with the typed scopes under
/// construction: same depth, the outermost scope (a function body)
/// declares no index variable, and every index variable an inner scope
/// declares is the one recorded for that level.
pub open spec fn aligned(stack: Seq<Block<UntypedAst>>, scopes: Seq<TScope>) -> bool {
    &&& scopes.len() == stack.len()
    &&& stack.len() >= 1
    &&& forall|k: nat| #[trigger]
        stack[0].local_vars@.dom().contains(k) ==> !(stack[0].local_vars@[k].key
            matches ArgOrVar::Iv(_))
    &&& forall|j: int, k: nat|
        1 <= j < stack.len() && #[trigger] stack[j].local_vars@.dom().contains(k) ==> (stack[j].local_vars@[k].key matches ArgOrVar::Iv(kk) ==> scopes[j].old_iv == Some(kk))
    &&& forall|j: int, k: nat|
        0 <= j < stack.len() && #[trigger] stack[j].local_ssa@.dom().contains(k)
            ==> expr_ivs_declared(stack[j].local_ssa@[k]) && expr_ssa_unique(
            stack[j].local_ssa@[k],
        )
}

/// Between two inference states of equal depth: every level keeps its
/// start and recorded index variables, and its arena contents look the
/// same at every key below `bound`.
pub open spec fn t_levels_preserved(a: TypeInfer, b: TypeInfer, bound: nat) -> bool {
    let sa = t_scopes(a);
    let sb = t_scopes(b);
    &&& sa.len() == sb.len()
    &&& forall|i: int|
        0 <= i < sa.len() ==> (#[trigger] sb[i]).start == sa[i].start && sb[i].iv == sa[i].iv
            && sb[i].old_iv == sa[i].old_iv
    &&& forall|i: int, k: nat|
        0 <= i < sa.len() && k < bound ==> #[trigger] block_agrees_at(
            t_block(sa[i]),
            t_block(sb[i]),
            k,
        )
}

proof fn lemma_t_levels_trans(a: TypeInfer, b: TypeInfer, c: TypeInfer, bound: nat)
    requires
        t_levels_preserved(a, b, bound),
        t_levels_preserved(b, c, bound),
    ensures
        t_levels_preserved(a, c, bound),
{
    let sa = t_scopes(a);
    let sb = t_scopes(b);
    let sc = t_scopes(c);
    assert forall|i: int, k: nat|
        0 <= i < sa.len() && k < bound implies #[trigger] block_agrees_at(
        t_block(sa[i]),
        t_block(sc[i]),
        k,
    ) by {
        assert(block_agrees_at(t_block(sa[i]), t_block(sb[i]), k));
        assert(block_agrees_at(t_block(sb[i]), t_block(sc[i]), k));
    }
}

proof fn lemma_t_levels_narrow(a: TypeInfer, b: TypeInfer, bound1: nat, bound2: nat)
    requires
        t_levels_preserved(a, b, bound1),
        bound2 <= bound1,
    ensures
        t_levels_preserved(a, b, bound2),
{
}

proof fn lemma_t_levels_to_agree(a: TypeInfer, b: TypeInfer, bound: nat)
    requires
        t_levels_preserved(a, b, bound),
    ensures
        forall|k: nat|
            k < bound ==> #[trigger] finds_agree(t_stack(t_scopes(a)), t_stack(t_scopes(b)), k),
{
    let sa = t_scopes(a);
    let sb = t_scopes(b);
    assert forall|k: nat| k < bound implies #[trigger] finds_agree(
        t_stack(sa),
        t_stack(sb),
        k,
    ) by {
        assert forall|i: int| 0 <= i < t_stack(sa).len() implies block_agrees_at(
            #[trigger] t_stack(sa)[i],
            t_stack(sb)[i],
            k,
        ) by {
            assert(t_stack(sa)[i] == t_block(sa[i]));
            assert(t_stack(sb)[i] == t_block(sb[i]));
            assert(block_agrees_at(t_block(sa[i]), t_block(sb[i]), k));
        }
        lemma_finds_agree_pointwise(t_stack(sa), t_stack(sb), k);
    }
}

proof fn lemma_t_lift_ref(a: TypeInfer, b: TypeInfer, r: ArgOrVar, nargs: nat)
    requires
        t_levels_preserved(a, b, ref_measure(r)),
        resolvable(t_stack(t_scopes(a)), r, ref_measure(r), nargs),
    ensures
        resolvable(t_stack(t_scopes(b)), r, ref_measure(r), nargs),
{
    lemma_t_levels_to_agree(a, b, ref_measure(r));
    lemma_resolvable_agree(
        t_stack(t_scopes(a)),
        t_stack(t_scopes(b)),
        r,
        ref_measure(r),
        nargs,
    );
}

/// Every suspended typed scope's counter stands at or below the current
/// scope's start.
proof fn lemma_t_outer_below_cur_start(c: TypeInfer, i: int)
    requires
        t_inv(c),
        0 <= i < c.outer@.len(),
    ensures
        c.outer@[i].vars.next_key() <= c.cur.start,
    decreases c.outer@.len() - i,
{
    if i + 1 < c.outer@.len() {
        lemma_t_outer_below_cur_start(c, i + 1);
    }
}

/// A found identifier record lives in some scope of the stack.
proof fn lemma_find_key_level<Ast: crate::ast::AstConfig>(stack: Seq<Block<Ast>>, k: nat)
    requires
        stack_find_key(stack, k) is Some,
    ensures
        exists|j: int|
            0 <= j < stack.len() && (#[trigger] stack[j]).local_vars@.dom().contains(k) && stack[j].local_vars@[k] == stack_find_key(stack, k)->0,
    decreases stack.len(),
{
    if stack.last().local_vars@.dom().contains(k) {
        assert(stack[stack.len() - 1].local_vars@.dom().contains(k));
    } else {
        lemma_find_key_level(stack.drop_last(), k);
        let j = choose|j: int|
            0 <= j < stack.drop_last().len() && (#[trigger] stack.drop_last()[j]).local_vars@.dom().contains(k) && stack.drop_last()[j].local_vars@[k]
                == stack_find_key(stack.drop_last(), k)->0;
        assert(stack[j] == stack.drop_last()[j]);
        assert(stack[j].local_vars@.dom().contains(k));
    }
}

/// A found definition lives in some scope of the stack.
proof fn lemma_find_ssa_level<Ast: crate::ast::AstConfig>(stack: Seq<Block<Ast>>, k: nat)
    requires
        stack_find_ssa(stack, k) is Some,
    ensures
        exists|j: int|
            0 <= j < stack.len() && (#[trigger] stack[j]).local_ssa@.dom().contains(k) && stack[j].local_ssa@[k] == stack_find_ssa(stack, k)->0,
    decreases stack.len(),
{
    if stack.last().local_ssa@.dom().contains(k) {
        assert(stack[stack.len() - 1].local_ssa@.dom().contains(k));
    } else {
        lemma_find_ssa_level(stack.drop_last(), k);
        let j = choose|j: int|
            0 <= j < stack.drop_last().len() && (#[trigger] stack.drop_last()[j]).local_ssa@.dom().contains(k) && stack.drop_last()[j].local_ssa@[k]
                == stack_find_ssa(stack.drop_last(), k)->0;
        assert(stack[j] == stack.drop_last()[j]);
        assert(stack[j].local_ssa@.dom().contains(k));
    }
}

/// The net effect of a comprehension bracket on the typed output — push a
/// scope, fill it, pop it — preserves every enclosing level below the
/// counter at entry.
proof fn lemma_t_bracket(v2: TypeInfer, v4: TypeInfer, v5: TypeInfer, v6: TypeInfer)
    requires
        v4.outer@ == v2.outer@.push(v2.cur),
        t_levels_preserved(v4, v5, t_next(v4)),
        next_ok_t(v2, v4),
        v6.outer@ == v5.outer@.drop_last(),
        v6.cur.start == v5.outer@.last().start,
        v6.cur.ssa == v5.outer@.last().ssa,
        v6.cur.vars@ == v5.outer@.last().vars@,
        v6.cur.iv == v5.outer@.last().iv,
        v6.cur.old_iv == v5.outer@.last().old_iv,
    ensures
        t_levels_preserved(v2, v6, t_next(v2)),
{
    let n = v2.outer@.len() as int;
    assert(t_scopes(v4).len() == t_scopes(v5).len());
    assert(v5.outer@.len() == n + 1);
    assert(t_scopes(v6).len() == t_scopes(v2).len());
    assert forall|i: int| 0 <= i < t_scopes(v2).len() implies (#[trigger] t_scopes(v6)[i]).start
        == t_scopes(v2)[i].start && t_scopes(v6)[i].iv == t_scopes(v2)[i].iv && t_scopes(v6)[i].old_iv == t_scopes(v2)[i].old_iv by {
        if i < n {
            assert(t_scopes(v6)[i] == v6.outer@[i]);
            assert(v6.outer@[i] == v5.outer@[i]);
            assert(t_scopes(v5)[i] == v5.outer@[i]);
            assert(t_scopes(v4)[i] == v4.outer@[i]);
            assert(v4.outer@[i] == v2.outer@[i]);
            assert(t_scopes(v2)[i] == v2.outer@[i]);
            assert(t_scopes(v5)[i].start == t_scopes(v4)[i].start);
            assert(t_scopes(v5)[i].iv == t_scopes(v4)[i].iv);
            assert(t_scopes(v5)[i].old_iv == t_scopes(v4)[i].old_iv);
        } else {
            assert(t_scopes(v6)[i] == v6.cur);
            assert(t_scopes(v2)[i] == v2.cur);
            assert(v5.outer@.last() == v5.outer@[n]);
            assert(t_scopes(v5)[n] == v5.outer@[n]);
            assert(t_scopes(v4)[n] == v4.outer@[n]);
            assert(v4.outer@[n] == v2.cur);
            assert(t_scopes(v5)[n].start == t_scopes(v4)[n].start);
            assert(t_scopes(v5)[n].iv == t_scopes(v4)[n].iv);
            assert(t_scopes(v5)[n].old_iv == t_scopes(v4)[n].old_iv);
        }
    }
    assert forall|i: int, k: nat|
        0 <= i < t_scopes(v2).len() && k < t_next(v2) implies #[trigger] block_agrees_at(
        t_block(t_scopes(v2)[i]),
        t_block(t_scopes(v6)[i]),
        k,
    ) by {
        if i < n {
            assert(t_scopes(v6)[i] == v5.outer@[i]);
            assert(t_scopes(v5)[i] == v5.outer@[i]);
            assert(t_scopes(v4)[i] == v2.outer@[i]);
            assert(t_scopes(v2)[i] == v2.outer@[i]);
            assert(block_agrees_at(t_block(t_scopes(v4)[i]), t_block(t_scopes(v5)[i]), k));
        } else {
            assert(t_scopes(v6)[i] == v6.cur);
            assert(t_scopes(v2)[i] == v2.cur);
            assert(v5.outer@.last() == v5.outer@[n]);
            assert(t_scopes(v5)[n] == v5.outer@[n]);
            assert(t_scopes(v4)[n] == v2.cur);
            assert(block_agrees_at(t_block(t_scopes(v4)[n]), t_block(t_scopes(v5)[n]), k));
            assert(block_agrees_at(t_block(v5.outer@[n]), t_block(v6.cur), k));
        }
    }
}

/// The entry counter does not exceed the counter after entering a nested
/// scope.
pub open spec fn next_ok_t(v2: TypeInfer, v4: TypeInfer) -> bool {
    t_next(v2) <= t_next(v4)
}

/// Lookup results are identical between two stacks that differ only in
/// their last block, when the last blocks hold the same entries at `k`.
proof fn lemma_find_eq_update_last<Ast: crate::ast::AstConfig>(
    s1: Seq<Block<Ast>>,
    s2: Seq<Block<Ast>>,
    k: nat,
)
    requires
        s1.len() == s2.len(),
        s1.len() > 0,
        s1.drop_last() == s2.drop_last(),
        s1.last().local_vars@.dom().contains(k) == s2.last().local_vars@.dom().contains(k),
        s1.last().local_vars@.dom().contains(k) ==> s1.last().local_vars@[k]
            == s2.last().local_vars@[k],
        s1.last().local_ssa@.dom().contains(k) == s2.last().local_ssa@.dom().contains(k),
        s1.last().local_ssa@.dom().contains(k) ==> s1.last().local_ssa@[k]
            == s2.last().local_ssa@[k],
    ensures
        stack_find_key(s1, k) == stack_find_key(s2, k),
        stack_find_ssa(s1, k) == stack_find_ssa(s2, k),
{
}


/// The type an already-typed stack records for a reference.
pub open spec fn t_shallow(
    stack: Seq<Block<TypedAst>>,
    args: Seq<Avis<TypedAst>>,
    r: ArgOrVar,
) -> Option<Type> {
    match r {
        ArgOrVar::Arg(i) => if i < args.len() {
            Some(args[i as int].ty)
        } else {
            None
        },
        ArgOrVar::Var(k) | ArgOrVar::Iv(k) => match stack_find_key(stack, k.0 as nat) {
            Some(a) => Some(a.ty),
            None => None,
        },
    }
}

/// Inference succeeds on a function exactly when every argument carries a
/// declared type and the return reference's graph types under the rules.
pub open spec fn fundef_typable(f: Fundef<UntypedAst>) -> bool {
    &&& forall|i: int| 0 <= i < f.args@.len() ==> (#[trigger] f.args@[i]).ty is Some
    &&& ref_ty(seq![f.block], f.args@, f.block.ret) is Some
}

/// How an inferred function relates to its untyped original: same name,
/// one typed argument record per declared argument, and the return
/// reference typed as the rules compute it from the original.
pub open spec fn infer_matches(g: Fundef<TypedAst>, f: Fundef<UntypedAst>) -> bool {
    &&& g.name@ == f.name@
    &&& g.args@.len() == f.args@.len()
    &&& forall|i: int|
        0 <= i < g.args@.len() ==> {
            &&& (#[trigger] g.args@[i]).name@ == f.args@[i].name@
            &&& Some(g.args@[i].ty) == f.args@[i].ty
            &&& g.args@[i].key == ArgOrVar::Arg(i as usize)
        }
    &&& fundef_ret_ty(g) == ref_ty(seq![f.block], f.args@, f.block.ret)
    &&& graph_tree(seq![g.block], avis_names(f.args@), g.block.ret) == graph_tree(
        seq![f.block],
        avis_names(f.args@),
        f.block.ret,
    )
}

impl TypeInfer {
    /// A fresh inference pass.
    pub fn new() -> (r: Self)
        ensures
            t_inv(r),
            r.outer@.len() == 0,
            r.args@.len() == 0,
    {
        let r = TypeInfer {
            cur: TScope {
                vars: Arena::new(),
                ssa: SecondaryArena::new(),
                start: 0,
                iv: None,
                old_iv: None,
            },
            outer: Vec::new(),
            args: Vec::new(),
            uargs: Ghost(Seq::empty()),
        };
        r
    }

    /// Mint a typed identifier carrying the inferred type and record its
    /// definition in the typed scope being rebuilt.
    fn t_mint(&mut self, name: String, ty: Type, e: Expr<TypedAst>) -> (r: Result<
        ArgOrVar,
        InferenceError,
    >)
        requires
            t_inv(*old(self)),
            expr_resolvable(
                t_stack(t_scopes(*old(self))),
                e,
                t_next(*old(self)),
                old(self).args@.len() as nat,
            ),
            expr_ssa_unique(e),
            expr_ivs_declared(e),
        ensures
            final(self).args == old(self).args,
            final(self).uargs == old(self).uargs,
            match r {
                Ok(rr) => {
                    &&& t_inv(*final(self))
                    &&& t_levels_preserved(*old(self), *final(self), t_next(*old(self)))
                    &&& rr == ArgOrVar::Var(Key(t_next(*old(self)) as usize))
                    &&& t_next(*final(self)) == t_next(*old(self)) + 1
                    &&& ref_below(rr, t_next(*final(self)))
                    &&& resolvable(
                        t_stack(t_scopes(*final(self))),
                        rr,
                        ref_measure(rr),
                        old(self).args@.len() as nat,
                    )
                    &&& t_shallow(
                        t_stack(t_scopes(*final(self))),
                        final(self).args@,
                        rr,
                    ) == Some(ty)
                    &&& final(self).cur.vars@[t_next(*old(self))].name@ == name@
                    &&& stack_find_ssa(
                        t_stack(t_scopes(*final(self))),
                        t_next(*old(self)),
                    ) == Some(e)
                    &&& stack_find_key(
                        t_stack(t_scopes(*final(self))),
                        t_next(*old(self)),
                    ) == Some(final(self).cur.vars@[t_next(*old(self))])
                },
                Err(er) => er == InferenceError::CapacityExceeded && *final(self) == *old(self)
                    && t_next(*old(self)) == usize::MAX,
            },
    {
        let next = self.cur.vars.peek_next_key();
        if next == usize::MAX {
            return Err(InferenceError::CapacityExceeded);
        }
        let key = Key(next);
        let avis = Avis { name, ty, key: ArgOrVar::Var(key) };
        self.cur.vars.insert(avis);
        self.cur.ssa.insert(key, e);
        proof {
            let news = t_scopes(*self);
            let olds = t_scopes(*old(self));
            let nk = next as nat;
            let nargs = self.args@.len() as nat;
            assert(news.drop_last() =~= olds.drop_last());
            assert(t_stack(news).drop_last() =~= t_stack(olds).drop_last());
            assert forall|k: nat| k < nk implies #[trigger] finds_agree(
                t_stack(olds),
                t_stack(news),
                k,
            ) by {
                lemma_agree_update_last(t_stack(olds), t_stack(news), k);
            }
            assert(stack_find_key(t_stack(news), nk) == Some(self.cur.vars@[nk]));
            assert(stack_find_ssa(t_stack(news), nk) == Some(e));
            lemma_expr_resolvable_agree(t_stack(olds), t_stack(news), e, nk, nargs);
            assert(resolvable(t_stack(news), ArgOrVar::Var(key), nk + 1, nargs));
            let oldb = t_block(old(self).cur);
            let newb = t_block(self.cur);
            assert forall|k: nat| #[trigger]
                newb.local_ssa@.dom().contains(k) implies newb.local_vars@.dom().contains(
                k,
            ) by {
                if k != nk {
                    assert(oldb.local_ssa@.dom().contains(k));
                }
            }
            assert forall|k: nat| #[trigger] newb.local_vars@.dom().contains(k) implies {
                ||| (newb.local_vars@[k].key == ArgOrVar::Var(Key(k as usize))
                    && newb.local_ssa@.dom().contains(k))
                ||| (newb.local_vars@[k].key == ArgOrVar::Iv(Key(k as usize))
                    && !newb.local_ssa@.dom().contains(k))
            } by {
                if k != nk {
                    assert(oldb.local_vars@.dom().contains(k));
                }
            }
            assert forall|k: nat| #[trigger] newb.local_vars@.dom().contains(k) implies k
                < newb.local_vars.next_key() by {
                if k != nk {
                    assert(oldb.local_vars@.dom().contains(k));
                }
            }
            assert forall|k: nat| #[trigger]
                newb.local_ssa@.dom().contains(k) implies expr_ssa_unique(
                newb.local_ssa@[k],
            ) by {
                if k != nk {
                    assert(oldb.local_ssa@.dom().contains(k));
                }
            }
            assert(block_ssa_unique(newb));
            assert forall|k: nat| #[trigger] newb.local_vars@.dom().contains(k) implies (
            newb.local_vars@[k].key matches ArgOrVar::Iv(_) ==> Some(k) == t_scope_iv(
                self.cur,
            )) by {
                if k != nk {
                    assert(oldb.local_vars@.dom().contains(k));
                }
            }
            assert forall|k: nat| #[trigger]
                newb.local_ssa@.dom().contains(k) implies expr_ivs_declared(
                newb.local_ssa@[k],
            ) by {
                if k != nk {
                    assert(oldb.local_ssa@.dom().contains(k));
                }
            }
            assert(block_ivs_declared(newb, t_scope_iv(self.cur)));
            assert forall|i: int|
                0 <= i < news.len() implies match (#[trigger] news[i]).iv {
                Some(nk2) => nk2.0 < news[i].vars.next_key() && resolvable(
                    t_stack(news),
                    ArgOrVar::Iv(nk2),
                    (nk2.0 + 1) as nat,
                    nargs,
                ) && (match stack_find_key(t_stack(news), nk2.0 as nat) {
                    Some(a) => a.ty == u32_scalar(),
                    None => false,
                }),
                None => true,
            } by {
                assert(news[i].iv == olds[i].iv);
                match news[i].iv {
                    Some(nk2) => {
                        assert(olds[i].vars.next_key() <= news[i].vars.next_key());
                        assert(nk2.0 + 1 <= nk) by {
                            if i < news.len() - 1 {
                                lemma_t_outer_below_cur_start(*old(self), i);
                            }
                        }
                        lemma_resolvable_agree(
                            t_stack(olds),
                            t_stack(news),
                            ArgOrVar::Iv(nk2),
                            (nk2.0 + 1) as nat,
                            nargs,
                        );
                        lemma_find_eq_update_last(
                            t_stack(olds),
                            t_stack(news),
                            nk2.0 as nat,
                        );
                    },
                    None => {},
                }
            }
            assert forall|i: int, k: nat|
                0 <= i < olds.len() && k < nk implies #[trigger] block_agrees_at(
                t_block(olds[i]),
                t_block(news[i]),
                k,
            ) by {
                if i < olds.len() - 1 {
                    assert(news[i] == olds[i]);
                }
            }
            assert(t_levels_preserved(*old(self), *self, nk));
        }
        Ok(ArgOrVar::Var(key))
    }

    /// Enter a comprehension body: push a fresh typed scope that continues
    /// the key counter, and mint the typed index variable in it.
    fn t_enter_body(&mut self, old_iv: Key, name: String) -> (r: Result<Key, InferenceError>)
        requires
            t_inv(*old(self)),
        ensures
            final(self).args == old(self).args,
            final(self).uargs == old(self).uargs,
            match r {
                Ok(nk) => {
                    &&& t_inv(*final(self))
                    &&& nk.0 == t_next(*old(self))
                    &&& t_next(*final(self)) == t_next(*old(self)) + 1
                    &&& final(self).outer@ == old(self).outer@.push(old(self).cur)
                    &&& final(self).cur.start == t_next(*old(self))
                    &&& final(self).cur.iv == Some(nk)
                    &&& final(self).cur.old_iv == Some(old_iv)
                    &&& final(self).cur.ssa@ == Map::<nat, Expr<TypedAst>>::empty()
                    &&& final(self).cur.vars@.dom().contains(nk.0 as nat)
                    &&& final(self).cur.vars@[nk.0 as nat].key == ArgOrVar::Iv(nk)
                    &&& final(self).cur.vars@[nk.0 as nat].name@ == name@
                    &&& forall|k: nat|
                        k < t_next(*old(self)) ==> #[trigger] finds_agree(
                            t_stack(t_scopes(*old(self))),
                            t_stack(t_scopes(*final(self))),
                            k,
                        )
                },
                Err(er) => er == InferenceError::CapacityExceeded && *final(self) == *old(self)
                    && t_next(*old(self)) == usize::MAX,
            },
    {
        let next = self.cur.vars.peek_next_key();
        if next == usize::MAX {
            return Err(InferenceError::CapacityExceeded);
        }
        let key = Key(next);
        let mut fresh = TScope {
            vars: Arena::new_from(next),
            ssa: SecondaryArena::new(),
            start: next,
            iv: None,
            old_iv: None,
        };
        core::mem::swap(&mut self.cur, &mut fresh);
        self.outer.push(fresh);
        let ghost mid = *self;
        let avis = Avis {
            name,
            ty: Type { basetype: BaseType::U32, shp: Shape::Scalar },
            key: ArgOrVar::Iv(key),
        };
        self.cur.vars.insert(avis);
        self.cur.iv = Some(key);
        self.cur.old_iv = Some(old_iv);
        proof {
            let nargs = self.args@.len() as nat;
            let olds = t_scopes(*old(self));
            let mids = t_scopes(mid);
            let news = t_scopes(*self);
            let nk = next as nat;
            assert(mids =~= olds.push(mid.cur));
            assert(t_stack(mids) =~= t_stack(olds).push(t_block(mid.cur)));
            assert(news.drop_last() =~= mids.drop_last());
            assert(t_stack(news).drop_last() =~= t_stack(mids).drop_last());
            // the fresh scope holds only the new index variable
            let newb = t_block(self.cur);
            assert(newb.local_vars@ =~= Map::<nat, Avis<TypedAst>>::empty().insert(
                nk,
                self.cur.vars@[nk],
            ));
            assert forall|k: nat| k < nk implies #[trigger] finds_agree(
                t_stack(olds),
                t_stack(news),
                k,
            ) by {
                lemma_find_push_fresh(t_stack(olds), t_block(mid.cur), k);
                lemma_agree_update_last(t_stack(mids), t_stack(news), k);
            }
            assert(block_ssa_unique(newb));
            assert(block_ivs_declared(newb, t_scope_iv(self.cur)));
            assert(t_scope_inv(self.cur));
            assert(stack_find_key(t_stack(news), nk) == Some(self.cur.vars@[nk]));
            assert(resolvable(t_stack(news), ArgOrVar::Iv(key), nk + 1, nargs));
            assert forall|i: int|
                0 <= i < news.len() implies match (#[trigger] news[i]).iv {
                Some(nk2) => nk2.0 < news[i].vars.next_key() && resolvable(
                    t_stack(news),
                    ArgOrVar::Iv(nk2),
                    (nk2.0 + 1) as nat,
                    nargs,
                ) && (match stack_find_key(t_stack(news), nk2.0 as nat) {
                    Some(a) => a.ty == u32_scalar(),
                    None => false,
                }),
                None => true,
            } by {
                if i < news.len() - 1 {
                    assert(news[i] == olds[i]);
                    match news[i].iv {
                        Some(nk2) => {
                            assert(nk2.0 + 1 <= nk) by {
                                if i < news.len() - 2 {
                                    lemma_t_outer_below_cur_start(*old(self), i);
                                }
                            }
                            lemma_resolvable_agree(
                                t_stack(olds),
                                t_stack(news),
                                ArgOrVar::Iv(nk2),
                                (nk2.0 + 1) as nat,
                                nargs,
                            );
                            lemma_find_push_fresh(
                                t_stack(olds),
                                t_block(mid.cur),
                                nk2.0 as nat,
                            );
                            assert(t_stack(mids).drop_last() =~= t_stack(news).drop_last());
                            lemma_find_eq_update_last(
                                t_stack(mids),
                                t_stack(news),
                                nk2.0 as nat,
                            );
                            assert(stack_find_key(t_stack(news), nk2.0 as nat) == stack_find_key(
                                t_stack(olds),
                                nk2.0 as nat,
                            ));
                        },
                        None => {},
                    }
                } else {
                    assert(news[i] == self.cur);
                    assert(news[i].iv == Some(key));
                    assert(stack_find_key(t_stack(news), nk) == Some(self.cur.vars@[nk]));
                    assert(self.cur.vars@[nk].ty == u32_scalar());
                }
            }
        }
        Ok(key)
    }

    /// Leave a comprehension body: hand the finished typed scope back and
    /// move the enclosing scope's counter past every key it minted.
    fn t_pop(&mut self) -> (popped: TScope)
        requires
            t_inv(*old(self)),
            old(self).outer@.len() > 0,
        ensures
            t_inv(*final(self)),
            popped == old(self).cur,
            final(self).outer@ == old(self).outer@.drop_last(),
            final(self).cur.start == old(self).outer@.last().start,
            final(self).cur.ssa == old(self).outer@.last().ssa,
            final(self).cur.vars@ == old(self).outer@.last().vars@,
            final(self).cur.iv == old(self).outer@.last().iv,
            final(self).cur.old_iv == old(self).outer@.last().old_iv,
            t_next(*final(self)) == t_next(*old(self)),
            final(self).args == old(self).args,
            final(self).uargs == old(self).uargs,
            forall|k: nat|
                k < old(self).cur.start ==> #[trigger] finds_agree(
                    t_stack(t_scopes(*old(self))),
                    t_stack(t_scopes(*final(self))),
                    k,
                ),
    {
        let mut top = self.outer.pop().unwrap();
        let nk = self.cur.vars.peek_next_key();
        top.vars.advance_to(nk);
        core::mem::swap(&mut self.cur, &mut top);
        let popped = top;
        proof {
            let nargs = self.args@.len() as nat;
            let news = t_scopes(*self);
            let olds = t_scopes(*old(self));
            let ghost mid = olds.drop_last();
            assert(news.drop_last() =~= mid.drop_last());
            assert(olds.drop_last() =~= old(self).outer@);
            assert forall|k: nat| k < old(self).cur.start implies #[trigger] finds_agree(
                t_stack(olds),
                t_stack(news),
                k,
            ) by {
                assert(t_scope_inv(popped));
                assert(!popped.vars@.dom().contains(k));
                assert(!popped.ssa@.dom().contains(k)) by {
                    if popped.ssa@.dom().contains(k) {
                        assert(t_block(popped).local_ssa@.dom().contains(k));
                        assert(t_block(popped).local_vars@.dom().contains(k));
                    }
                }
                assert(t_stack(olds).drop_last() =~= t_stack(mid));
                lemma_find_push_fresh(t_stack(mid), t_block(popped), k);
                assert(t_stack(mid).drop_last() =~= t_stack(news).drop_last());
                lemma_agree_update_last(t_stack(mid), t_stack(news), k);
            }
            assert forall|i: int|
                0 <= i < self.outer@.len() implies (#[trigger] self.outer@[i].vars.next_key())
                    <= (if i + 1 < self.outer@.len() {
                    self.outer@[i + 1].start as nat
                } else {
                    self.cur.start as nat
                }) by {
                assert(self.outer@[i] == old(self).outer@[i]);
            }
            assert(t_scope_inv(self.cur)) by {
                let oldlast = old(self).outer@.last();
                assert(t_scope_inv(oldlast));
                lemma_t_block_grow_next(t_block(oldlast), t_block(self.cur), t_scope_iv(oldlast));
            }
            assert forall|i: int|
                0 <= i < news.len() implies match (#[trigger] news[i]).iv {
                Some(nk2) => nk2.0 < news[i].vars.next_key() && resolvable(
                    t_stack(news),
                    ArgOrVar::Iv(nk2),
                    (nk2.0 + 1) as nat,
                    nargs,
                ) && (match stack_find_key(t_stack(news), nk2.0 as nat) {
                    Some(a) => a.ty == u32_scalar(),
                    None => false,
                }),
                None => true,
            } by {
                assert(news[i].iv == olds[i].iv);
                match news[i].iv {
                    Some(nk2) => {
                        assert(olds[i].vars.next_key() <= news[i].vars.next_key());
                        assert(nk2.0 + 1 <= old(self).cur.start) by {
                            lemma_t_outer_below_cur_start(*old(self), i);
                        }
                        lemma_resolvable_agree(
                            t_stack(olds),
                            t_stack(news),
                            ArgOrVar::Iv(nk2),
                            (nk2.0 + 1) as nat,
                            nargs,
                        );
                        assert(!popped.vars@.dom().contains(nk2.0 as nat));
                        assert(!popped.ssa@.dom().contains(nk2.0 as nat)) by {
                            if popped.ssa@.dom().contains(nk2.0 as nat) {
                                assert(t_block(popped).local_ssa@.dom().contains(nk2.0 as nat));
                                assert(t_block(popped).local_vars@.dom().contains(nk2.0 as nat));
                            }
                        }
                        lemma_find_push_fresh(t_stack(mid), t_block(popped), nk2.0 as nat);
                        assert(t_stack(olds).drop_last() =~= t_stack(mid));
                        assert(t_stack(mid).drop_last() =~= t_stack(news).drop_last());
                        lemma_find_eq_update_last(t_stack(mid), t_stack(news), nk2.0 as nat);
                    },
                    None => {},
                }
            }
        }
        popped
    }
}

/// The per-scope discipline carries over to a typed scope with the same
/// contents whose mint counter has moved forward.
proof fn lemma_t_block_grow_next(b1: Block<TypedAst>, b2: Block<TypedAst>, allowed: Option<nat>)
    requires
        block_ssa_unique(b1),
        block_ivs_declared(b1, allowed),
        b2.local_vars@ == b1.local_vars@,
        b2.local_ssa@ == b1.local_ssa@,
        b1.local_vars.next_key() <= b2.local_vars.next_key(),
    ensures
        block_ssa_unique(b2),
        block_ivs_declared(b2, allowed),
{
    assert forall|k: nat| #[trigger] b2.local_vars@.dom().contains(k) implies k
        < b2.local_vars.next_key() by {
        assert(b1.local_vars@.dom().contains(k));
    }
}



/// Run the binary typing rule on computed operand types.
fn apply_binary_rule(op: crate::ast::Bop, tl: &Type, tr: &Type) -> (r: Option<Type>)
    ensures
        r == binary_rule(op, *tl, *tr),
{
    if !tl.eq_type(tr) {
        None
    } else {
        match op {
            crate::ast::Bop::Add | crate::ast::Bop::Sub | crate::ast::Bop::Mul
                | crate::ast::Bop::Div => {
                match tl.basetype {
                    BaseType::U32 => Some(tr.clone()),
                    BaseType::Bool => None,
                }
            },
            crate::ast::Bop::Eq | crate::ast::Bop::Ne => Some(
                Type { basetype: BaseType::Bool, shp: tr.shp.clone() },
            ),
            crate::ast::Bop::Lt | crate::ast::Bop::Le | crate::ast::Bop::Gt
                | crate::ast::Bop::Ge => {
                match tl.basetype {
                    BaseType::U32 => Some(Type { basetype: BaseType::Bool, shp: tr.shp.clone() }),
                    BaseType::Bool => None,
                }
            },
        }
    }
}

/// Run the unary typing rule on a computed operand type.
fn apply_unary_rule(op: crate::ast::Uop, t: &Type) -> (r: Option<Type>)
    ensures
        r == unary_rule(op, *t),
{
    match op {
        crate::ast::Uop::Neg => match t.basetype {
            BaseType::U32 => Some(t.clone()),
            BaseType::Bool => None,
        },
        crate::ast::Uop::Not => match t.basetype {
            BaseType::Bool => Some(t.clone()),
            BaseType::U32 => None,
        },
    }
}

/// Is this the scalar index type?
fn is_u32_scalar(t: &Type) -> (r: bool)
    ensures
        r == (*t == u32_scalar()),
{
    t.eq_type(&Type { basetype: BaseType::U32, shp: Shape::Scalar })
}

impl TypeInfer {
    /// The typed key recorded for an untyped index-variable key, searching
    /// the scopes innermost first.
    fn lookup_iv(&self, k: Key) -> (r: Option<Key>)
        requires
            t_inv(*self),
        ensures
            match r {
                Some(nk) => exists|i: int|
                    0 <= i < t_scopes(*self).len() && (#[trigger] t_scopes(*self)[i]).old_iv
                        == Some(k) && t_scopes(*self)[i].iv == Some(nk),
                None => forall|i: int|
                    0 <= i < t_scopes(*self).len() ==> (#[trigger] t_scopes(*self)[i]).old_iv
                        != Some(k),
            },
    {
        match self.cur.old_iv {
            Some(ok) => {
                if ok.0 == k.0 {
                    proof {
                        assert(t_scopes(*self)[t_scopes(*self).len() - 1] == self.cur);
                        assert(t_scope_inv(self.cur));
                    }
                    match self.cur.iv {
                        Some(nk) => {
                            proof {
                                let ghost w = t_scopes(*self).len() - 1;
                                assert(t_scopes(*self)[w].old_iv == Some(k));
                                assert(t_scopes(*self)[w].iv == Some(nk));
                            }
                            return Some(nk);
                        },
                        None => {
                            proof {
                                assert(false);
                            }
                            return None;
                        },
                    }
                }
            },
            None => {},
        }
        let mut i: usize = self.outer.len();
        while i > 0
            invariant
                t_inv(*self),
                i <= self.outer@.len(),
                forall|j: int|
                    i <= j < t_scopes(*self).len() ==> (#[trigger] t_scopes(*self)[j]).old_iv
                        != Some(k),
            decreases i,
        {
            i = i - 1;
            proof {
                assert(t_scopes(*self)[i as int] == self.outer@[i as int]);
                assert(t_scope_inv(self.outer@[i as int]));
            }
            match self.outer[i].old_iv {
                Some(ok) => {
                    if ok.0 == k.0 {
                        match self.outer[i].iv {
                            Some(nk) => {
                                proof {
                                    assert(t_scopes(*self)[i as int].old_iv == Some(k));
                                    assert(t_scopes(*self)[i as int].iv == Some(nk));
                                }
                                return Some(nk);
                            },
                            None => {
                                proof {
                                    assert(false);
                                }
                                return None;
                            },
                        }
                    }
                },
                None => {},
            }
        }
        None
    }

    /// Infer the type of a reference and rebuild it over the typed arenas:
    /// an argument keeps its position, an index variable maps to the typed
    /// key of the enclosing comprehension's index variable, and a local is
    /// re-minted with its inferred type and rebuilt definition.
    fn trav_ssa<'a>(
        &mut self,
        scopes: &mut ScopeStack<'a, UntypedAst>,
        r: ArgOrVar,
    ) -> (res: Result<(ArgOrVar, Type), InferenceError>)
        requires
            t_inv(*old(self)),
            resolvable(old(scopes)@, r, ref_measure(r), old(self).args@.len() as nat),
            aligned(old(scopes)@, t_scopes(*old(self))),
        ensures
            final(scopes)@ == old(scopes)@,
            final(self).args == old(self).args,
            final(self).uargs == old(self).uargs,
            t_inv(*final(self)),
            t_levels_preserved(*old(self), *final(self), t_next(*old(self))),
            t_next(*old(self)) <= t_next(*final(self)),
            match res {
                Ok((rr, ty)) => {
                    &&& Some(ty) == ref_ty(old(scopes)@, old(self).uargs@, r)
                    &&& ref_below(rr, t_next(*final(self)))
                    &&& resolvable(
                        t_stack(t_scopes(*final(self))),
                        rr,
                        ref_measure(rr),
                        old(self).args@.len() as nat,
                    )
                    &&& t_shallow(t_stack(t_scopes(*final(self))), final(self).args@, rr) == Some(
                        ty,
                    )
                    &&& t_next(*final(self)) == t_next(*old(self)) + ref_mints(old(scopes)@, r)
                    &&& (r matches ArgOrVar::Arg(_) ==> rr == r)
                    &&& (r matches ArgOrVar::Iv(_) ==> rr matches ArgOrVar::Iv(_))
                    &&& (r matches ArgOrVar::Var(_) ==> rr == ArgOrVar::Var(
                        Key((t_next(*final(self)) - 1) as usize),
                    ))
                    &&& graph_tree(
                        t_stack(t_scopes(*final(self))),
                        avis_names(old(self).uargs@),
                        rr,
                    ) == graph_tree(old(scopes)@, avis_names(old(self).uargs@), r)
                },
                Err(er) => {
                    &&& (er == InferenceError::CapacityExceeded || ref_ty(
                        old(scopes)@,
                        old(self).uargs@,
                        r,
                    ) is None)
                    &&& (er == InferenceError::CapacityExceeded ==> t_next(*old(self)) + ref_mints(
                        old(scopes)@,
                        r,
                    ) > usize::MAX)
                },
            },
        decreases ref_measure(r), 1nat,
    {
        match r {
            ArgOrVar::Arg(i) => {
                proof {
                    assert(t_levels_preserved(*self, *self, t_next(*self)));
                }
                let ty = self.args[i].ty.clone();
                Ok((ArgOrVar::Arg(i), ty))
            },
            ArgOrVar::Iv(k) => {
                proof {
                    assert(t_levels_preserved(*self, *self, t_next(*self)));
                }
                match self.lookup_iv(k) {
                    Some(nk) => {
                        proof {
                            let i = choose|i: int|
                                0 <= i < t_scopes(*self).len() && (#[trigger] t_scopes(*self)[i]).old_iv == Some(k) && t_scopes(*self)[i].iv == Some(nk);
                            assert(nk.0 < t_scopes(*self)[i].vars.next_key());
                            if i < t_scopes(*self).len() - 1 {
                                lemma_t_outer_below_cur_start(*self, i);
                                assert(t_scopes(*self)[i] == self.outer@[i]);
                            }
                            assert(nk.0 < t_next(*self));
                        }
                        Ok((ArgOrVar::Iv(nk), Type { basetype: BaseType::U32, shp: Shape::Scalar }))
                    },
                    None => {
                        proof {
                            let stack = scopes@;
                            lemma_find_key_level(stack, k.0 as nat);
                            let j = choose|j: int|
                                0 <= j < stack.len() && (#[trigger] stack[j]).local_vars@.dom().contains(k.0 as nat) && stack[j].local_vars@[k.0 as nat] == stack_find_key(stack, k.0 as nat)->0;
                            assert(stack[j].local_vars@[k.0 as nat].key == ArgOrVar::Iv(k));
                            assert(j >= 1);
                            assert(t_scopes(*self)[j].old_iv == Some(k));
                            assert(false);
                        }
                        Err(InferenceError::TypeMismatch)
                    },
                }
            },
            ArgOrVar::Var(k) => {
                let e = match scopes.find_ssa(k) {
                    Some(e) => e,
                    None => {
                        proof {
                            assert(false);
                        }
                        return Err(InferenceError::TypeMismatch);
                    },
                };
                let name = match scopes.find_key(k) {
                    Some(a) => a.name.clone(),
                    None => {
                        proof {
                            assert(false);
                        }
                        return Err(InferenceError::TypeMismatch);
                    },
                };
                proof {
                    lemma_find_ssa_level(scopes@, k.0 as nat);
                    let j = choose|j: int|
                        0 <= j < scopes@.len() && (#[trigger] scopes@[j]).local_ssa@.dom().contains(
                            k.0 as nat,
                        ) && scopes@[j].local_ssa@[k.0 as nat] == stack_find_ssa(
                            scopes@,
                            k.0 as nat,
                        )->0;
                    assert(expr_ivs_declared(*e));
                    assert(expr_ssa_unique(*e));
                }
                let ghost v0 = *self;
                let (te, ty) = match self.trav_expr(scopes, e, Ghost(k.0 as nat)) {
                    Ok(p) => p,
                    Err(er) => {
                        return Err(er);
                    },
                };
                let ghost v1 = *self;
                let ghost name_view = name@;
                let ty2 = ty.clone();
                match self.t_mint(name, ty, te) {
                    Ok(rr) => {
                        proof {
                            lemma_t_levels_narrow(v1, *self, t_next(v1), t_next(v0));
                            lemma_t_levels_trans(v0, v1, *self, t_next(v0));
                            let unames = avis_names(self.uargs@);
                            lemma_t_levels_to_agree(v1, *self, t_next(v1));
                            lemma_graph_expr_tree_agree(
                                t_stack(t_scopes(v1)),
                                t_stack(t_scopes(*self)),
                                unames,
                                te,
                                t_next(v1),
                                t_next(v1),
                            );
                            self.cur.vars.lemma_next_key_bound();
                            assert(t_next(v1) < usize::MAX);
                            assert(stack_find_ssa(t_stack(t_scopes(*self)), t_next(v1)) == Some(
                                te,
                            ));
                            // the rebuilt local keeps the original's name
                            assert(stack_find_key(t_stack(t_scopes(*self)), t_next(v1))
                                is Some);
                            assert(stack_find_key(
                                t_stack(t_scopes(*self)),
                                t_next(v1),
                            )->0.name@ == name_view);
                            assert(graph_tree(t_stack(t_scopes(*self)), unames, rr)
                                == InlineTree::Named(
                                name_view,
                                Box::new(graph_expr_tree(
                                    t_stack(t_scopes(*self)),
                                    unames,
                                    te,
                                    t_next(v1),
                                )),
                            ));
                            assert(stack_find_key(old(scopes)@, k.0 as nat)->0.name@
                                == name_view);
                            assert(graph_tree(old(scopes)@, unames, r) == InlineTree::Named(
                                name_view,
                                Box::new(graph_expr_tree(old(scopes)@, unames, *e, k.0 as nat)),
                            ));
                        }
                        Ok((rr, ty2))
                    },
                    Err(er) => {
                        proof {
                            lemma_t_levels_narrow(v0, v1, t_next(v0), t_next(v0));
                        }
                        Err(er)
                    },
                }
            },
        }
    }

    /// Rebuild a defining expression over the typed arenas and infer its
    /// type by the rules table.
    #[verifier::rlimit(100)]
    #[verifier::spinoff_prover]
    fn trav_expr<'a>(
        &mut self,
        scopes: &mut ScopeStack<'a, UntypedAst>,
        e: &'a Expr<UntypedAst>,
        Ghost(k): Ghost<nat>,
    ) -> (res: Result<(Expr<TypedAst>, Type), InferenceError>)
        requires
            t_inv(*old(self)),
            expr_resolvable(old(scopes)@, *e, k, old(self).args@.len() as nat),
            expr_ssa_unique(*e),
            expr_ivs_declared(*e),
            aligned(old(scopes)@, t_scopes(*old(self))),
        ensures
            final(scopes)@ == old(scopes)@,
            final(self).args == old(self).args,
            final(self).uargs == old(self).uargs,
            t_inv(*final(self)),
            t_levels_preserved(*old(self), *final(self), t_next(*old(self))),
            t_next(*old(self)) <= t_next(*final(self)),
            match res {
                Ok((te, ty)) => {
                    &&& Some(ty) == expr_ty(old(scopes)@, old(self).uargs@, *e, k)
                    &&& expr_resolvable(
                        t_stack(t_scopes(*final(self))),
                        te,
                        t_next(*final(self)),
                        old(self).args@.len() as nat,
                    )
                    &&& expr_ssa_unique(te)
                    &&& expr_ivs_declared(te)
                    &&& t_next(*final(self)) == t_next(*old(self)) + expr_mints(
                        old(scopes)@,
                        *e,
                        k,
                    )
                    &&& graph_expr_tree(
                        t_stack(t_scopes(*final(self))),
                        avis_names(old(self).uargs@),
                        te,
                        t_next(*final(self)),
                    ) == graph_expr_tree(old(scopes)@, avis_names(old(self).uargs@), *e, k)
                },
                Err(er) => {
                    &&& (er == InferenceError::CapacityExceeded || expr_ty(
                        old(scopes)@,
                        old(self).uargs@,
                        *e,
                        k,
                    ) is None)
                    &&& (er == InferenceError::CapacityExceeded ==> t_next(*old(self))
                        + expr_mints(old(scopes)@, *e, k) > usize::MAX)
                },
            },
        decreases k + 1, 0nat,
    {
        match e {
            Expr::Bool(v) => {
                proof {
                    assert(t_levels_preserved(*self, *self, t_next(*self)));
                }
                Ok((Expr::Bool(*v), Type { basetype: BaseType::Bool, shp: Shape::Scalar }))
            },
            Expr::U32(v) => {
                proof {
                    assert(t_levels_preserved(*self, *self, t_next(*self)));
                }
                Ok((Expr::U32(*v), Type { basetype: BaseType::U32, shp: Shape::Scalar }))
            },
            Expr::Unary(u) => {
                let ghost v0 = *self;
                proof {
                    assert(resolvable(scopes@, u.r, ref_measure(u.r), self.args@.len() as nat));
                }
                let (rr, rt) = match self.trav_ssa(scopes, u.r) {
                    Ok(p) => p,
                    Err(er) => {
                        return Err(er);
                    },
                };
                match apply_unary_rule(u.op, &rt) {
                    Some(ty) => {
                        proof {
                            lemma_resolvable_widen(
                                t_stack(t_scopes(*self)),
                                rr,
                                ref_measure(rr),
                                t_next(*self),
                                self.args@.len() as nat,
                            );
                            let unames = avis_names(self.uargs@);
                            let te = Expr::<TypedAst>::Unary(
                                crate::ast::Unary { r: rr, op: u.op },
                            );
                            assert(ref_below(rr, t_next(*self)));
                            assert(graph_expr_tree(
                                t_stack(t_scopes(*self)),
                                unames,
                                te,
                                t_next(*self),
                            ) == graph_expr_tree(old(scopes)@, unames, *e, k));
                        }
                        Ok((Expr::Unary(crate::ast::Unary { r: rr, op: u.op }), ty))
                    },
                    None => Err(InferenceError::TypeMismatch),
                }
            },
            Expr::Binary(b) => {
                let ghost v0 = *self;
                proof {
                    assert(resolvable(scopes@, b.l, ref_measure(b.l), self.args@.len() as nat));
                }
                let (ll, lt) = match self.trav_ssa(scopes, b.l) {
                    Ok(p) => p,
                    Err(er) => {
                        return Err(er);
                    },
                };
                let ghost v1 = *self;
                proof {
                    assert(resolvable(scopes@, b.r, ref_measure(b.r), self.args@.len() as nat));
                }
                let (rl, rt) = match self.trav_ssa(scopes, b.r) {
                    Ok(p) => p,
                    Err(er) => {
                        proof {
                            lemma_t_levels_narrow(v1, *self, t_next(v1), t_next(v0));
                            lemma_t_levels_trans(v0, v1, *self, t_next(v0));
                        }
                        return Err(er);
                    },
                };
                let ghost v2 = *self;
                proof {
                    lemma_t_levels_narrow(v1, v2, t_next(v1), ref_measure(ll));
                    lemma_t_lift_ref(v1, v2, ll, self.args@.len() as nat);
                    lemma_resolvable_widen(
                        t_stack(t_scopes(v2)),
                        ll,
                        ref_measure(ll),
                        t_next(v2),
                        self.args@.len() as nat,
                    );
                    lemma_resolvable_widen(
                        t_stack(t_scopes(v2)),
                        rl,
                        ref_measure(rl),
                        t_next(v2),
                        self.args@.len() as nat,
                    );
                    lemma_t_levels_narrow(v1, v2, t_next(v1), t_next(v0));
                    lemma_t_levels_trans(v0, v1, v2, t_next(v0));
                    let unames = avis_names(self.uargs@);
                    lemma_t_levels_to_agree(v1, v2, t_next(v1));
                    lemma_graph_tree_agree(
                        t_stack(t_scopes(v1)),
                        t_stack(t_scopes(v2)),
                        unames,
                        ll,
                        t_next(v1),
                    );
                    let te = Expr::<TypedAst>::Binary(
                        crate::ast::Binary { l: ll, r: rl, op: b.op },
                    );
                    assert(ref_below(ll, t_next(v2)) && ref_below(rl, t_next(v2)));
                    assert(graph_expr_tree(t_stack(t_scopes(v2)), unames, te, t_next(v2))
                        == graph_expr_tree(old(scopes)@, unames, *e, k));
                }
                match apply_binary_rule(b.op, &lt, &rt) {
                    Some(ty) => Ok((Expr::Binary(crate::ast::Binary { l: ll, r: rl, op: b.op }), ty)),
                    None => Err(InferenceError::TypeMismatch),
                }
            },
            Expr::Tensor(t) => {
                let ghost v0 = *self;
                let nargs = self.args.len();
                proof {
                    assert(resolvable(scopes@, t.lb, ref_measure(t.lb), self.args@.len() as nat));
                }
                let (lr, lt) = match self.trav_ssa(scopes, t.lb) {
                    Ok(p) => p,
                    Err(er) => {
                        return Err(er);
                    },
                };
                let ghost v1 = *self;
                proof {
                    assert(resolvable(scopes@, t.ub, ref_measure(t.ub), self.args@.len() as nat));
                }
                let (ur, ut) = match self.trav_ssa(scopes, t.ub) {
                    Ok(p) => p,
                    Err(er) => {
                        proof {
                            lemma_t_levels_narrow(v1, *self, t_next(v1), t_next(v0));
                            lemma_t_levels_trans(v0, v1, *self, t_next(v0));
                        }
                        return Err(er);
                    },
                };
                let ghost v2 = *self;
                proof {
                    lemma_t_levels_narrow(v1, v2, t_next(v1), ref_measure(lr));
                    lemma_t_lift_ref(v1, v2, lr, self.args@.len() as nat);
                    lemma_t_levels_narrow(v1, v2, t_next(v1), t_next(v0));
                    lemma_t_levels_trans(v0, v1, v2, t_next(v0));
                }
                if !is_u32_scalar(&lt) || !is_u32_scalar(&ut) {
                    return Err(InferenceError::TypeMismatch);
                }
                // enter the comprehension body, on the input and the output
                scopes.push_scope(&t.body);
                proof {
                    assert(scopes@.last() == t.body);
                    assert(scopes@.drop_last() =~= old(scopes)@);
                    assert(stack_find_key(scopes@, t.iv.0.0 as nat) == Some(
                        t.body.local_vars@[t.iv.0.0 as nat],
                    ));
                }
                let iv_name = match scopes.find_key(t.iv.0) {
                    Some(a) => a.name.clone(),
                    None => {
                        proof {
                            assert(false);
                        }
                        let _ = scopes.pop_scope();
                        return Err(InferenceError::TypeMismatch);
                    },
                };
                let ghost iv_name_view = iv_name@;
                proof {
                    assert(t.body.local_vars@[t.iv.0.0 as nat].name@ == iv_name_view);
                }
                let new_iv = match self.t_enter_body(t.iv.0, iv_name) {
                    Ok(nk) => nk,
                    Err(er) => {
                        let _ = scopes.pop_scope();
                        proof {
                            assert(scopes@ =~= old(scopes)@);
                        }
                        return Err(er);
                    },
                };
                let ghost v4 = *self;
                proof {
                    // the pushed scopes stay aligned
                    assert(aligned(scopes@, t_scopes(v4))) by {
                        let st = scopes@;
                        let ts = t_scopes(v4);
                        assert(st.drop_last() =~= old(scopes)@);
                        assert(ts.drop_last() =~= t_scopes(v2));
                        assert(block_ivs_declared(t.body, Some(t.iv.0.0 as nat)));
                        assert forall|j: int, k2: nat|
                            1 <= j < st.len() && #[trigger] st[j].local_vars@.dom().contains(
                                k2,
                            ) implies (st[j].local_vars@[k2].key matches ArgOrVar::Iv(kk)
                            ==> ts[j].old_iv == Some(kk)) by {
                            if j < st.len() - 1 {
                                assert(st[j] == old(scopes)@[j]);
                                assert(ts[j] == t_scopes(v2)[j]);
                            } else {
                                assert(st[j] == t.body);
                                assert(ts[j] == v4.cur);
                                if st[j].local_vars@[k2].key matches ArgOrVar::Iv(kk) {
                                    assert(Some(k2) == Some(t.iv.0.0 as nat));
                                    assert(block_ssa_unique(t.body));
                                    assert(st[j].local_vars@[k2].key == ArgOrVar::Iv(
                                        Key(k2 as usize),
                                    ));
                                }
                            }
                        }
                        assert forall|j: int, k2: nat|
                            0 <= j < st.len() && #[trigger] st[j].local_ssa@.dom().contains(
                                k2,
                            ) implies expr_ivs_declared(st[j].local_ssa@[k2]) && expr_ssa_unique(
                            st[j].local_ssa@[k2],
                        ) by {
                            if j < st.len() - 1 {
                                assert(st[j] == old(scopes)@[j]);
                            } else {
                                assert(st[j] == t.body);
                                assert(block_ivs_declared(t.body, Some(t.iv.0.0 as nat)));
                                assert(block_ssa_unique(t.body));
                            }
                        }
                        assert(st[0] == old(scopes)@[0]);
                    }
                    assert(resolvable(
                        scopes@,
                        t.body.ret,
                        ref_measure(t.body.ret),
                        self.args@.len() as nat,
                    ));
                }
                let (br, bt) = match self.trav_ssa(scopes, t.body.ret) {
                    Ok(p) => p,
                    Err(er) => {
                        let ghost v5e = *self;
                        let _ = self.t_pop();
                        let _ = scopes.pop_scope();
                        proof {
                            assert(scopes@ =~= old(scopes)@);
                            lemma_t_bracket(v2, v4, v5e, *self);
                            lemma_t_levels_trans(v0, v2, *self, t_next(v0));
                        }
                        return Err(er);
                    },
                };
                let ghost v5 = *self;
                let popped = self.t_pop();
                let _ = scopes.pop_scope();
                let ghost v6 = *self;
                proof {
                    assert(scopes@ =~= old(scopes)@);
                    lemma_t_bracket(v2, v4, v5, v6);
                    lemma_t_levels_trans(v0, v2, v6, t_next(v0));
                }
                let body_block = Block { local_vars: popped.vars, local_ssa: popped.ssa, ret: br };
                let te = Expr::Tensor(
                    Tensor { body: body_block, iv: IndexVector(new_iv), lb: lr, ub: ur },
                );
                let ty = Type { basetype: bt.basetype, shp: Shape::Vector(Box::new(bt.shp)) };
                proof {
                    let nargsn = self.args@.len() as nat;
                    let n6 = t_next(v6);
                    let body = body_block;
                    // the bounds still resolve after the bracket
                    lemma_t_levels_narrow(v2, v6, t_next(v2), ref_measure(lr));
                    lemma_t_lift_ref(v2, v6, lr, nargsn);
                    lemma_resolvable_widen(
                        t_stack(t_scopes(v6)),
                        lr,
                        ref_measure(lr),
                        n6,
                        nargsn,
                    );
                    lemma_t_levels_narrow(v2, v6, t_next(v2), ref_measure(ur));
                    lemma_t_lift_ref(v2, v6, ur, nargsn);
                    lemma_resolvable_widen(
                        t_stack(t_scopes(v6)),
                        ur,
                        ref_measure(ur),
                        n6,
                        nargsn,
                    );
                    // the packaged body block carries the typed index variable
                    let ivk = new_iv.0 as nat;
                    let nlvl = v4.outer@.len() as int;
                    assert(t_scopes(v4)[nlvl] == v4.cur);
                    assert(t_scopes(v5)[nlvl] == v5.cur);
                    assert(v4.cur.vars@.dom().contains(ivk));
                    assert(v4.cur.vars@[ivk].key == ArgOrVar::Iv(new_iv));
                    assert(block_agrees_at(t_block(v4.cur), t_block(v5.cur), ivk));
                    assert(body.local_vars@.dom().contains(ivk));
                    assert(body.local_vars@[ivk].key == ArgOrVar::Iv(new_iv));
                    // the body's return reference resolves with the packaged
                    // body pushed back on
                    let s5 = t_stack(t_scopes(v5));
                    let s6b = t_stack(t_scopes(v6)).push(body);
                    assert(s6b.last() == body);
                    assert(s6b.drop_last() =~= t_stack(t_scopes(v6)));
                    assert(stack_find_key(s6b, ivk) == Some(body.local_vars@[ivk]));
                    assert(s5.len() == s6b.len());
                    let nout = v2.outer@.len() as int;
                    assert forall|k2: nat| k2 < ref_measure(br) implies #[trigger] finds_agree(
                        s5,
                        s6b,
                        k2,
                    ) by {
                        assert forall|i: int| 0 <= i < s5.len() implies block_agrees_at(
                            #[trigger] s5[i],
                            s6b[i],
                            k2,
                        ) by {
                            if i < nout {
                                assert(s5[i] == t_block(t_scopes(v5)[i]));
                                assert(t_scopes(v5)[i] == v5.outer@[i]);
                                assert(s6b[i] == t_stack(t_scopes(v6))[i]);
                                assert(t_scopes(v6)[i] == v6.outer@[i]);
                                assert(v6.outer@[i] == v5.outer@[i]);
                            } else if i == nout {
                                assert(s5[i] == t_block(t_scopes(v5)[i]));
                                assert(t_scopes(v5)[nout] == v5.outer@[nout]);
                                assert(v5.outer@.last() == v5.outer@[nout]);
                                assert(s6b[i] == t_stack(t_scopes(v6))[i]);
                                assert(t_scopes(v6)[nout] == v6.cur);
                                assert(v6.cur.vars@ == v5.outer@[nout].vars@);
                            } else {
                                assert(i == nlvl);
                                assert(s5[i] == t_block(t_scopes(v5)[i]));
                                assert(t_scopes(v5)[i] == v5.cur);
                                assert(s6b[i] == body);
                            }
                        }
                        lemma_finds_agree_pointwise(s5, s6b, k2);
                    }
                    lemma_resolvable_agree(s5, s6b, br, ref_measure(br), nargsn);
                    lemma_resolvable_widen(s6b, br, ref_measure(br), n6, nargsn);
                    assert(block_ssa_unique(body)) by {
                        assert(t_scope_inv(v5.cur));
                        assert(block_ssa_unique(t_block(v5.cur)));
                        assert(body.local_vars == v5.cur.vars);
                        assert(body.local_ssa == v5.cur.ssa);
                    }
                    assert(v4.cur.iv == Some(new_iv));
                    assert(v5.cur.iv == Some(new_iv)) by {
                        assert(t_scopes(v5)[nlvl].iv == t_scopes(v4)[nlvl].iv);
                    }
                    assert(block_ivs_declared(body, Some(new_iv.0 as nat))) by {
                        assert(t_scope_inv(v5.cur));
                        assert(t_scope_iv(v5.cur) == Some(new_iv.0 as nat));
                        assert(block_ivs_declared(t_block(v5.cur), t_scope_iv(v5.cur)));
                        assert(body.local_vars == v5.cur.vars);
                        assert(body.local_ssa == v5.cur.ssa);
                    }
                    assert(expr_resolvable(t_stack(t_scopes(v6)), te, n6, nargsn));
                    assert(expr_ssa_unique(te));
                    assert(expr_ivs_declared(te));
                    // the rebuilt comprehension has the same key-erased shape
                    let unames = avis_names(self.uargs@);
                    lemma_t_levels_to_agree(v1, v2, t_next(v1));
                    lemma_graph_tree_agree(
                        t_stack(t_scopes(v1)),
                        t_stack(t_scopes(v2)),
                        unames,
                        lr,
                        t_next(v1),
                    );
                    lemma_t_levels_to_agree(v2, v6, t_next(v2));
                    lemma_graph_tree_agree(
                        t_stack(t_scopes(v2)),
                        t_stack(t_scopes(v6)),
                        unames,
                        lr,
                        t_next(v2),
                    );
                    lemma_graph_tree_agree(
                        t_stack(t_scopes(v2)),
                        t_stack(t_scopes(v6)),
                        unames,
                        ur,
                        t_next(v2),
                    );
                    lemma_graph_tree_agree(s5, s6b, unames, br, ref_measure(br));
                    assert(body.local_vars@[new_iv.0 as nat].name@ == iv_name_view);
                    assert(scopes@ =~= old(scopes)@);
                    assert(graph_expr_tree(t_stack(t_scopes(v6)), unames, te, n6)
                        == graph_expr_tree(old(scopes)@, unames, *e, k)) by {
                        assert(graph_tree(s6b, unames, br) == graph_tree(
                            old(scopes)@.push(t.body),
                            unames,
                            t.body.ret,
                        ));
                        assert(t.body.local_vars@[t.iv.0.0 as nat].name@ == iv_name_view);
                        assert(ref_below(lr, n6) && ref_below(ur, n6) && ref_below(br, n6));
                        assert(ref_below(t.lb, k) && ref_below(t.ub, k) && ref_below(
                            t.body.ret,
                            k,
                        ));
                    }
                }
                Ok((te, ty))
            },
        }
    }
}


impl TypeInfer {
    /// Infer a whole function: convert its arguments (each must carry a
    /// declared type), then rebuild the reference graph from the return
    /// reference into a fresh typed arena.
    pub fn trav_fundef<'a>(&mut self, f: &'a Fundef<UntypedAst>) -> (res: Result<
        Fundef<TypedAst>,
        InferenceError,
    >)
        requires
            wf_fundef(*f),
        ensures
            match res {
                Ok(g) => {
                    &&& wf_fundef(g)
                    &&& infer_matches(g, *f)
                    &&& g.block.local_vars.next_key() == fundef_mints(*f)
                    &&& (match f.block.ret {
                        ArgOrVar::Arg(_) => g.block.ret == f.block.ret,
                        ArgOrVar::Var(_) => g.block.ret == ArgOrVar::Var(
                            Key((fundef_mints(*f) - 1) as usize),
                        ),
                        ArgOrVar::Iv(_) => g.block.ret matches ArgOrVar::Iv(_),
                    })
                },
                Err(er) => {
                    &&& (er == InferenceError::CapacityExceeded ==> fundef_mints(*f)
                        > usize::MAX)
                    &&& (er != InferenceError::CapacityExceeded ==> !fundef_typable(*f))
                },
            },
            (res is Ok) == (fundef_typable(*f) && fundef_mints(*f) <= usize::MAX),
    {
        self.cur = TScope {
            vars: Arena::new(),
            ssa: SecondaryArena::new(),
            start: 0,
            iv: None,
            old_iv: None,
        };
        self.outer = Vec::new();
        self.args = Vec::new();
        self.uargs = Ghost(f.args@);
        let ghost uargs = f.args@;
        let mut i: usize = 0;
        while i < f.args.len()
            invariant
                self.outer@.len() == 0,
                self.cur.vars@ == Map::<nat, Avis<TypedAst>>::empty(),
                self.cur.ssa@ == Map::<nat, Expr<TypedAst>>::empty(),
                self.cur.iv is None,
                self.cur.old_iv is None,
                self.cur.start == 0,
                t_next(*self) == 0,
                self.uargs@ == uargs,
                uargs == f.args@,
                wf_fundef(*f),
                i <= f.args@.len(),
                self.args@.len() == i as int,
                forall|j: int|
                    0 <= j < i ==> {
                        &&& (#[trigger] self.args@[j]).key == ArgOrVar::Arg(j as usize)
                        &&& Some(self.args@[j].ty) == uargs[j].ty
                        &&& self.args@[j].name@ == uargs[j].name@
                    },
                forall|j: int| 0 <= j < i ==> (#[trigger] uargs[j]).ty is Some,
            decreases f.args@.len() - i,
        {
            let a = &f.args[i];
            match &a.ty {
                Some(t) => {
                    self.args.push(
                        Avis { name: a.name.clone(), ty: t.clone(), key: ArgOrVar::Arg(i) },
                    );
                },
                None => {
                    proof {
                        assert(!fundef_typable(*f));
                    }
                    return Err(InferenceError::MissingArgumentType);
                },
            }
            i = i + 1;
        }
        proof {
            assert(t_inv(*self)) by {
                assert(t_scope_inv(self.cur));
                assert(t_scopes(*self) =~= seq![self.cur]);
            }
        }
        let mut scopes: ScopeStack<UntypedAst> = ScopeStack::new();
        scopes.push_scope(&f.block);
        proof {
            assert(scopes@ =~= seq![f.block]);
            assert(aligned(scopes@, t_scopes(*self))) by {
                assert(scopes@[0] == f.block);
                assert(block_ivs_declared(f.block, None));
                assert(block_ssa_unique(f.block));
                assert forall|k2: nat| #[trigger] f.block.local_vars@.dom().contains(
                    k2,
                ) implies !(f.block.local_vars@[k2].key matches ArgOrVar::Iv(_)) by {}
            }
            assert(resolvable(
                scopes@,
                f.block.ret,
                ref_measure(f.block.ret),
                self.args@.len() as nat,
            )) by {
                assert(resolvable(
                    seq![f.block],
                    f.block.ret,
                    f.block.local_vars.next_key(),
                    f.args@.len() as nat,
                ));
            }
        }
        let ghost v0 = *self;
        proof {
            assert(scopes@ =~= seq![f.block]);
            assert(t_next(v0) == 0);
        }
        let (rv, rty) = match self.trav_ssa(&mut scopes, f.block.ret) {
            Ok(p) => p,
            Err(er) => {
                proof {
                    assert(ref_mints(seq![f.block], f.block.ret) == fundef_mints(*f));
                    if er == InferenceError::CapacityExceeded {
                        assert(fundef_mints(*f) > usize::MAX);
                    } else {
                        assert(ref_ty(seq![f.block], f.args@, f.block.ret) is None);
                        assert(!fundef_typable(*f));
                    }
                }
                return Err(er);
            },
        };
        let ghost v1 = *self;
        proof {
            assert(t_next(v1) == fundef_mints(*f)) by {
                assert(ref_mints(seq![f.block], f.block.ret) == fundef_mints(*f));
            }
            v1.cur.vars.lemma_next_key_bound();
            assert(fundef_mints(*f) <= usize::MAX);
            assert(fundef_typable(*f)) by {
                assert(ref_ty(seq![f.block], f.args@, f.block.ret) is Some);
            }
        }
        let mut donecur = TScope {
            vars: Arena::new(),
            ssa: SecondaryArena::new(),
            start: 0,
            iv: None,
            old_iv: None,
        };
        core::mem::swap(&mut self.cur, &mut donecur);
        let mut args: Vec<Avis<TypedAst>> = Vec::new();
        core::mem::swap(&mut self.args, &mut args);
        let block = Block { local_vars: donecur.vars, local_ssa: donecur.ssa, ret: rv };
        let g = Fundef { name: f.name.clone(), args, block };
        proof {
            let nargs = g.args@.len() as nat;
            assert(t_scopes(v0).len() == 1);
            assert(t_scopes(v1).len() == 1);
            assert(t_scopes(v0)[0] == v0.cur);
            assert(t_scopes(v1)[0] == v1.cur);
            assert(donecur == v1.cur);
            assert(donecur.iv is None);
            assert(t_scope_inv(donecur));
            // the packaged block keeps the per-scope discipline
            assert(block_ssa_unique(g.block)) by {
                assert(block_ssa_unique(t_block(donecur)));
                assert(g.block.local_vars == donecur.vars);
                assert(g.block.local_ssa == donecur.ssa);
            }
            assert(block_ivs_declared(g.block, None::<nat>)) by {
                assert(block_ivs_declared(t_block(donecur), t_scope_iv(donecur)));
                assert(g.block.local_vars == donecur.vars);
                assert(g.block.local_ssa == donecur.ssa);
            }
            // the rebuilt return reference resolves in the packaged block
            let sold = seq![t_block(donecur)];
            let snew = seq![g.block];
            assert(t_stack(t_scopes(v1)) =~= sold);
            assert forall|k2: nat| k2 < ref_measure(rv) implies #[trigger] finds_agree(
                sold,
                snew,
                k2,
            ) by {
                assert(sold.drop_last() =~= snew.drop_last());
                lemma_agree_update_last(sold, snew, k2);
            }
            lemma_resolvable_agree(sold, snew, rv, ref_measure(rv), nargs);
            assert(ref_below(rv, g.block.local_vars.next_key()));
            lemma_resolvable_widen(snew, rv, ref_measure(rv), g.block.local_vars.next_key(), nargs);
            assert(wf_fundef(g));
            // the rebuilt program has the same key-erased shape
            let unames = avis_names(f.args@);
            assert(avis_names(v1.uargs@) == unames);
            lemma_graph_tree_agree(sold, snew, unames, rv, ref_measure(rv));
            assert(graph_tree(seq![g.block], unames, g.block.ret) == graph_tree(
                seq![f.block],
                unames,
                f.block.ret,
            )) by {
                assert(snew == seq![g.block]);
                assert(graph_tree(t_stack(t_scopes(v1)), unames, rv) == graph_tree(
                    scopes@,
                    unames,
                    f.block.ret,
                ));
                assert(scopes@ =~= seq![f.block]);
            }
            // the recorded return type is the one the rules compute
            assert(fundef_ret_ty(g) == ref_ty(seq![f.block], f.args@, f.block.ret)) by {
                assert(Some(rty) == ref_ty(seq![f.block], f.args@, f.block.ret));
                assert(t_shallow(t_stack(t_scopes(v1)), v1.args@, rv) == Some(rty));
                match rv {
                    ArgOrVar::Arg(i) => {
                        assert(g.args@ == v1.args@);
                    },
                    ArgOrVar::Var(kk) | ArgOrVar::Iv(kk) => {
                        assert(sold.drop_last() =~= snew.drop_last());
                        lemma_find_eq_update_last(sold, snew, kk.0 as nat);
                        assert(stack_find_key(snew, kk.0 as nat) == stack_find_key(
                            sold,
                            kk.0 as nat,
                        ));
                    },
                }
            }
            assert(infer_matches(g, *f));
            assert(fundef_typable(*f));
        }
        Ok(g)
    }

    /// Infer a whole program; each function gets fresh, disjoint typed
    /// arenas.  An inference error aborts the compilation.
    pub fn trav_program<'a>(&mut self, p: &'a Program<UntypedAst>) -> (res: Result<
        Program<TypedAst>,
        InferenceError,
    >)
        requires
            wf_program(*p),
        ensures
            match res {
                Ok(q) => {
                    &&& wf_program(q)
                    &&& q.fundefs@.len() == p.fundefs@.len()
                    &&& forall|i: int|
                        0 <= i < q.fundefs@.len() ==> infer_matches(
                            #[trigger] q.fundefs@[i],
                            p.fundefs@[i],
                        )
                },
                Err(er) => exists|i: int|
                    {
                        &&& 0 <= i < p.fundefs@.len()
                        &&& !(fundef_typable(#[trigger] p.fundefs@[i]) && fundef_mints(
                            p.fundefs@[i],
                        ) <= usize::MAX)
                        &&& (forall|j: int|
                            0 <= j < i ==> fundef_typable(#[trigger] p.fundefs@[j])
                                && fundef_mints(p.fundefs@[j]) <= usize::MAX)
                        &&& (er == InferenceError::CapacityExceeded ==> fundef_mints(
                            p.fundefs@[i],
                        ) > usize::MAX)
                        &&& (er != InferenceError::CapacityExceeded ==> !fundef_typable(
                            p.fundefs@[i],
                        ))
                    },
            },
            (res is Ok) == (forall|i: int|
                0 <= i < p.fundefs@.len() ==> fundef_typable(#[trigger] p.fundefs@[i])
                    && fundef_mints(p.fundefs@[i]) <= usize::MAX),
    {
        let mut out: Program<TypedAst> = Program::new();
        let mut i: usize = 0;
        while i < p.fundefs.len()
            invariant
                wf_program(*p),
                i <= p.fundefs@.len(),
                out.fundefs@.len() == i as int,
                forall|j: int|
                    0 <= j < i ==> infer_matches(#[trigger] out.fundefs@[j], p.fundefs@[j])
                        && wf_fundef(out.fundefs@[j]),
                forall|j: int|
                    0 <= j < i ==> fundef_typable(#[trigger] p.fundefs@[j]) && fundef_mints(
                        p.fundefs@[j],
                    ) <= usize::MAX,
            decreases p.fundefs@.len() - i,
        {
            let g = match self.trav_fundef(&p.fundefs[i]) {
                Ok(g) => g,
                Err(er) => {
                    proof {
                        assert(!(fundef_typable(p.fundefs@[i as int]) && fundef_mints(
                            p.fundefs@[i as int],
                        ) <= usize::MAX));
                        // this is the least failing function: everything
                        // before it was inferred
                        assert(forall|j: int|
                            0 <= j < i ==> fundef_typable(#[trigger] p.fundefs@[j])
                                && fundef_mints(p.fundefs@[j]) <= usize::MAX);
                    }
                    return Err(er);
                },
            };
            out.fundefs.push(g);
            i = i + 1;
        }
        Ok(out)
    }
}

} // verus!
