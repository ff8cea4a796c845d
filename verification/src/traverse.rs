//! The scope-threading machinery shared by every pass over the IR.
//!
//! [`ScopeStack`] is the one lexical-scope representation used uniformly by
//! type inference, code generation, and diagnostics: a stack of borrowed
//! [`Block`]s, pushed on entering a function body or a comprehension body
//! and popped on leaving, searched innermost to outermost.  The lemmas
//! below relate the executable lookups to the specification-level lookup
//! of [`crate::ast`], and show that resolvability of a reference graph is
//! unaffected by stack changes that leave every key below a bound looking
//! the same — which is what push, pop, and fresh insertion do.

use vstd::prelude::*;

use crate::arena::Key;
use crate::ast::{
    resolvable, expr_resolvable, ref_measure, stack_find_key, stack_find_ssa, ArgOrVar, AstConfig,
    Avis, Block, Expr,
};

verus! {

/// A visitor that folds a node into an output value.
pub trait Visit<In> {
    type Out;

    fn visit(&mut self, node: In) -> Self::Out;
}

/// A stack of lexical scopes, innermost last.
pub struct ScopeStack<'a, Ast: AstConfig> {
    scopes: Vec<&'a Block<Ast>>,
}

impl<'a, Ast: AstConfig> View for ScopeStack<'a, Ast> {
    type V = Seq<Block<Ast>>;

    closed spec fn view(&self) -> Seq<Block<Ast>> {
        self.scopes@.map_values(|b: &'a Block<Ast>| *b)
    }
}

/// Depth of a key seen from the innermost scope: zero if the innermost
/// scope declares it, one more per scope further out.
pub open spec fn stack_key_depth<Ast: AstConfig>(stack: Seq<Block<Ast>>, k: nat) -> Option<nat>
    decreases stack.len(),
{
    if stack.len() == 0 {
        None
    } else if stack.last().local_vars@.dom().contains(k) {
        Some(0)
    } else {
        match stack_key_depth(stack.drop_last(), k) {
            Some(d) => Some(d + 1),
            None => None,
        }
    }
}

impl<'a, Ast: AstConfig> ScopeStack<'a, Ast> {
    /// An empty scope stack.
    pub fn new() -> (r: Self)
        ensures
            r@ == Seq::<Block<Ast>>::empty(),
    {
        let r = ScopeStack { scopes: Vec::new() };
        proof {
            assert(r@ =~= Seq::<Block<Ast>>::empty());
        }
        r
    }

    /// Enter a scope: it becomes the innermost.
    pub fn push_scope(&mut self, b: &'a Block<Ast>)
        ensures
            final(self)@ == old(self)@.push(*b),
    {
        self.scopes.push(b);
        proof {
            assert(self@ =~= old(self)@.push(*b));
        }
    }

    /// Leave the innermost scope and hand it back.
    pub fn pop_scope(&mut self) -> (r: &'a Block<Ast>)
        requires
            old(self)@.len() > 0,
        ensures
            *r == old(self)@.last(),
            final(self)@ == old(self)@.drop_last(),
    {
        let r = self.scopes.pop().unwrap();
        proof {
            assert(self@ =~= old(self)@.drop_last());
        }
        r
    }

    /// How many scopes are live.
    pub fn len(&self) -> (n: usize)
        ensures
            n == self@.len(),
    {
        self.scopes.len()
    }

    /// Search the stack, innermost to outermost, for the identifier record
    /// of a key; the first match wins.
    pub fn find_key(&self, key: Key) -> (r: Option<&'a Avis<Ast>>)
        ensures
            match r {
                Some(a) => stack_find_key(self@, key.0 as nat) == Some(*a),
                None => stack_find_key(self@, key.0 as nat) is None,
            },
    {
        let mut i: usize = self.scopes.len();
        proof {
            assert(self@.take(i as int) =~= self@);
        }
        while i > 0
            invariant
                i <= self@.len(),
                self@.len() == self.scopes@.len(),
                stack_find_key(self@, key.0 as nat) == stack_find_key(
                    self@.take(i as int),
                    key.0 as nat,
                ),
            decreases i,
        {
            i = i - 1;
            proof {
                assert(self@.take(i + 1).last() == self@[i as int]);
                assert(self@.take(i + 1).drop_last() =~= self@.take(i as int));
            }
            match self.scopes[i].local_vars.get(key) {
                Some(a) => {
                    return Some(a);
                },
                None => {},
            }
        }
        proof {
            assert(self@.take(0) =~= Seq::<Block<Ast>>::empty());
        }
        None
    }

    /// Search the stack, innermost to outermost, for the SSA definition of
    /// a key; the first match wins.
    pub fn find_ssa(&self, key: Key) -> (r: Option<&'a Expr<Ast>>)
        ensures
            match r {
                Some(e) => stack_find_ssa(self@, key.0 as nat) == Some(*e),
                None => stack_find_ssa(self@, key.0 as nat) is None,
            },
    {
        let mut i: usize = self.scopes.len();
        proof {
            assert(self@.take(i as int) =~= self@);
        }
        while i > 0
            invariant
                i <= self@.len(),
                self@.len() == self.scopes@.len(),
                stack_find_ssa(self@, key.0 as nat) == stack_find_ssa(
                    self@.take(i as int),
                    key.0 as nat,
                ),
            decreases i,
        {
            i = i - 1;
            proof {
                assert(self@.take(i + 1).last() == self@[i as int]);
                assert(self@.take(i + 1).drop_last() =~= self@.take(i as int));
            }
            match self.scopes[i].local_ssa.get(key) {
                Some(e) => {
                    return Some(e);
                },
                None => {},
            }
        }
        proof {
            assert(self@.take(0) =~= Seq::<Block<Ast>>::empty());
        }
        None
    }

    /// Nesting depth at which a key is declared, innermost scope being
    /// depth zero.
    pub fn depth(&self, key: Key) -> (r: Option<usize>)
        ensures
            match r {
                Some(d) => stack_key_depth(self@, key.0 as nat) == Some(d as nat),
                None => stack_key_depth(self@, key.0 as nat) is None,
            },
    {
        let mut i: usize = self.scopes.len();
        proof {
            assert(self@.take(i as int) =~= self@);
        }
        while i > 0
            invariant
                i <= self@.len(),
                self@.len() == self.scopes@.len(),
                match stack_key_depth(self@.take(i as int), key.0 as nat) {
                    Some(inner) => stack_key_depth(self@, key.0 as nat) == Some(
                        (inner + self@.len() - i) as nat,
                    ),
                    None => stack_key_depth(self@, key.0 as nat) is None,
                },
            decreases i,
        {
            i = i - 1;
            proof {
                assert(self@.take(i + 1).last() == self@[i as int]);
                assert(self@.take(i + 1).drop_last() =~= self@.take(i as int));
            }
            if self.scopes[i].local_vars.get(key).is_some() {
                return Some(self.scopes.len() - 1 - i);
            }
        }
        proof {
            assert(self@.take(0) =~= Seq::<Block<Ast>>::empty());
        }
        None
    }

    /// Resolve a tagged reference: an argument positionally in the current
    /// function's argument list, a variable or index vector through the
    /// scope stack.
    pub fn find_id<'b>(&self, args: &'b Vec<Avis<Ast>>, id: ArgOrVar) -> (r: Option<&'b Avis<Ast>>) where 'a: 'b
        ensures
            match id {
                ArgOrVar::Arg(i) => match r {
                    Some(a) => i < args@.len() && *a == args@[i as int],
                    None => i >= args@.len(),
                },
                ArgOrVar::Var(k) | ArgOrVar::Iv(k) => match r {
                    Some(a) => stack_find_key(self@, k.0 as nat) == Some(*a),
                    None => stack_find_key(self@, k.0 as nat) is None,
                },
            },
    {
        match id {
            ArgOrVar::Arg(i) => {
                if i < args.len() {
                    Some(&args[i])
                } else {
                    None
                }
            },
            ArgOrVar::Var(k) => self.find_key(k),
            ArgOrVar::Iv(k) => self.find_key(k),
        }
    }
}

// ---------------------------------------------------------------------------
// Stability of lookup and resolvability under scope-stack changes.
// ---------------------------------------------------------------------------

/// Two stacks look the same at key `k`: lookup finds records with the same
/// role reference (the metadata value may differ, e.g. a type annotation
/// filled in later), and the very same definition.
pub open spec fn finds_agree<Ast: AstConfig>(
    s1: Seq<Block<Ast>>,
    s2: Seq<Block<Ast>>,
    k: nat,
) -> bool {
    &&& match (stack_find_key(s1, k), stack_find_key(s2, k)) {
        (Some(a1), Some(a2)) => a1.key == a2.key && a1.name@ == a2.name@,
        (None, None) => true,
        _ => false,
    }
    &&& stack_find_ssa(s1, k) == stack_find_ssa(s2, k)
}

/// Pushing the same scope on two stacks preserves agreement at a key.
pub proof fn lemma_push_preserves_agree<Ast: AstConfig>(
    s1: Seq<Block<Ast>>,
    s2: Seq<Block<Ast>>,
    b: Block<Ast>,
    k: nat,
)
    requires
        finds_agree(s1, s2, k),
    ensures
        finds_agree(s1.push(b), s2.push(b), k),
{
    assert(s1.push(b).drop_last() =~= s1);
    assert(s2.push(b).drop_last() =~= s2);
}

/// A resolvable reference stays resolvable on a stack that looks the same
/// at every key below the bound.
pub proof fn lemma_resolvable_agree<Ast: AstConfig>(
    s1: Seq<Block<Ast>>,
    s2: Seq<Block<Ast>>,
    r: ArgOrVar,
    bound: nat,
    nargs: nat,
)
    requires
        resolvable(s1, r, bound, nargs),
        forall|k: nat| k < bound ==> #[trigger] finds_agree(s1, s2, k),
    ensures
        resolvable(s2, r, bound, nargs),
    decreases ref_measure(r), 1nat,
{
    match r {
        ArgOrVar::Arg(_) => {},
        ArgOrVar::Iv(k) => {
            assert(finds_agree(s1, s2, k.0 as nat));
        },
        ArgOrVar::Var(k) => {
            assert(finds_agree(s1, s2, k.0 as nat));
            let e = stack_find_ssa(s1, k.0 as nat)->0;
            lemma_expr_resolvable_agree(s1, s2, e, k.0 as nat, nargs);
        },
    }
}

/// Companion to [`lemma_resolvable_agree`] for whole definitions.
pub proof fn lemma_expr_resolvable_agree<Ast: AstConfig>(
    s1: Seq<Block<Ast>>,
    s2: Seq<Block<Ast>>,
    e: Expr<Ast>,
    k: nat,
    nargs: nat,
)
    requires
        expr_resolvable(s1, e, k, nargs),
        forall|k2: nat| k2 < k ==> #[trigger] finds_agree(s1, s2, k2),
    ensures
        expr_resolvable(s2, e, k, nargs),
    decreases k + 1, 0nat,
{
    match e {
        Expr::Bool(_) => {},
        Expr::U32(_) => {},
        Expr::Binary(b) => {
            lemma_resolvable_agree(s1, s2, b.l, k, nargs);
            lemma_resolvable_agree(s1, s2, b.r, k, nargs);
        },
        Expr::Unary(u) => {
            lemma_resolvable_agree(s1, s2, u.r, k, nargs);
        },
        Expr::Tensor(t) => {
            lemma_resolvable_agree(s1, s2, t.lb, k, nargs);
            lemma_resolvable_agree(s1, s2, t.ub, k, nargs);
            let p1 = s1.push(t.body);
            let p2 = s2.push(t.body);
            assert forall|k2: nat| k2 < k implies #[trigger] finds_agree(p1, p2, k2) by {
                lemma_push_preserves_agree(s1, s2, t.body, k2);
            }
            assert(p1.drop_last() =~= s1);
            assert(p2.drop_last() =~= s2);
            lemma_resolvable_agree(p1, p2, t.body.ret, k, nargs);
        },
    }
}

/// A resolvable reference stays resolvable under a larger bound.
pub proof fn lemma_resolvable_widen<Ast: AstConfig>(
    stack: Seq<Block<Ast>>,
    r: ArgOrVar,
    bound1: nat,
    bound2: nat,
    nargs: nat,
)
    requires
        resolvable(stack, r, bound1, nargs),
        bound1 <= bound2,
    ensures
        resolvable(stack, r, bound2, nargs),
{
}

/// A key that no live scope declares does not resolve: once the scope that
/// declared it has been popped, a reference to it is dead.
pub proof fn lemma_undeclared_key_unresolvable<Ast: AstConfig>(stack: Seq<Block<Ast>>, k: nat)
    requires
        forall|i: int|
            0 <= i < stack.len() ==> !(#[trigger] stack[i]).local_vars@.dom().contains(k),
    ensures
        stack_find_key(stack, k) is None,
    decreases stack.len(),
{
    if stack.len() > 0 {
        assert(stack.last() == stack[stack.len() - 1]);
        lemma_undeclared_key_unresolvable(stack.drop_last(), k);
    }
}

/// A key bound inside a comprehension body — its index variable, or any
/// local the body defines — resolves while that body's scope is the
/// innermost, and is unresolvable once the scope has been popped, provided
/// no enclosing scope declares the key (which the one-counter minting
/// discipline guarantees: nested keys are fresh).
pub proof fn lemma_scope_exit_unresolvable<Ast: AstConfig>(
    stack: Seq<Block<Ast>>,
    body: Block<Ast>,
    k: nat,
)
    requires
        body.local_vars@.dom().contains(k),
        forall|i: int|
            0 <= i < stack.len() ==> !(#[trigger] stack[i]).local_vars@.dom().contains(k),
    ensures
        stack_find_key(stack.push(body), k) == Some(body.local_vars@[k]),
        stack_find_key(stack, k) is None,
{
    lemma_undeclared_key_unresolvable(stack, k);
}


/// Two blocks look the same at key `k`: same declaration there (with the
/// same role reference; other metadata such as a type annotation may
/// differ) and the same definition.
pub open spec fn block_agrees_at<Ast: AstConfig>(b1: Block<Ast>, b2: Block<Ast>, k: nat) -> bool {
    &&& b1.local_vars@.dom().contains(k) == b2.local_vars@.dom().contains(k)
    &&& (b1.local_vars@.dom().contains(k) ==> b1.local_vars@[k].key == b2.local_vars@[k].key
        && b1.local_vars@[k].name@ == b2.local_vars@[k].name@)
    &&& b1.local_ssa@.dom().contains(k) == b2.local_ssa@.dom().contains(k)
    &&& (b1.local_ssa@.dom().contains(k) ==> b1.local_ssa@[k] == b2.local_ssa@[k])
}

/// Lookup at `k` agrees between two stacks that differ only in their last
/// block, provided the two last blocks look the same at `k`.
pub proof fn lemma_agree_update_last<Ast: AstConfig>(
    s1: Seq<Block<Ast>>,
    s2: Seq<Block<Ast>>,
    k: nat,
)
    requires
        s1.len() == s2.len(),
        s1.len() > 0,
        s1.drop_last() == s2.drop_last(),
        block_agrees_at(s1.last(), s2.last(), k),
    ensures
        finds_agree(s1, s2, k),
{
}

/// Lookup at `k` agrees between two stacks of equal depth whose blocks all
/// look the same at `k`.
pub proof fn lemma_finds_agree_pointwise<Ast: AstConfig>(
    s1: Seq<Block<Ast>>,
    s2: Seq<Block<Ast>>,
    k: nat,
)
    requires
        s1.len() == s2.len(),
        forall|i: int| 0 <= i < s1.len() ==> block_agrees_at(#[trigger] s1[i], s2[i], k),
    ensures
        finds_agree(s1, s2, k),
    decreases s1.len(),
{
    if s1.len() > 0 {
        assert(block_agrees_at(s1[s1.len() - 1], s2[s2.len() - 1], k));
        assert forall|i: int| 0 <= i < s1.drop_last().len() implies block_agrees_at(
            #[trigger] s1.drop_last()[i],
            s2.drop_last()[i],
            k,
        ) by {
            assert(s1[i] == s1.drop_last()[i]);
        }
        lemma_finds_agree_pointwise(s1.drop_last(), s2.drop_last(), k);
    }
}

/// Pushing a block that does not declare `k` leaves lookup at `k` alone.
pub proof fn lemma_find_push_fresh<Ast: AstConfig>(s: Seq<Block<Ast>>, b: Block<Ast>, k: nat)
    requires
        !b.local_vars@.dom().contains(k),
        !b.local_ssa@.dom().contains(k),
    ensures
        stack_find_key(s.push(b), k) == stack_find_key(s, k),
        stack_find_ssa(s.push(b), k) == stack_find_ssa(s, k),
{
    assert(s.push(b).drop_last() =~= s);
}

} // verus!
