//! The SSA intermediate representation.
//!
//! One generic node family is parameterized by a typestate marker
//! ([`AstConfig`]): before type inference every identifier carries an
//! `Option<Type>` ([`UntypedAst`]), afterwards a concrete [`Type`]
//! ([`TypedAst`]).  Node shapes are shared across the two phases.
//!
//! Identifiers live in per-scope arenas; expressions refer to identifiers
//! only through [`ArgOrVar`] references, never by direct node-to-node
//! links.  The specification functions at the bottom of this module define
//! lexical lookup over a stack of scopes (innermost first, first match
//! wins) and the well-formedness of the reference graph: every reference
//! points below the key of the definition that contains it, so walking the
//! graph from a function's return reference terminates.

use vstd::prelude::*;

use crate::arena::{Arena, Key, SecondaryArena};

verus! {

/// A scalar base type of the surface language.
#[derive(Clone, Copy, Debug, PartialEq, Eq, Structural)]
pub enum BaseType {
    U32,
    Bool,
}

/// The shape of a value: a scalar, or a vector one dimension deeper than
/// its element shape.
#[derive(Debug, PartialEq, Eq)]
pub enum Shape {
    Scalar,
    Vector(Box<Shape>),
}

/// A value type: base type plus shape.
#[derive(Debug, PartialEq, Eq)]
pub struct Type {
    pub basetype: BaseType,
    pub shp: Shape,
}

impl Clone for Shape {
    fn clone(&self) -> (r: Self)
        ensures
            r == *self,
        decreases self,
    {
        match self {
            Shape::Scalar => Shape::Scalar,
            Shape::Vector(inner) => Shape::Vector(Box::new((**inner).clone())),
        }
    }
}

impl Clone for Type {
    fn clone(&self) -> (r: Self)
        ensures
            r == *self,
    {
        Type { basetype: self.basetype, shp: self.shp.clone() }
    }
}

impl Shape {
    /// Structural equality, usable from executable code.
    pub fn eq_shape(&self, other: &Shape) -> (r: bool)
        ensures
            r == (*self == *other),
        decreases self,
    {
        match (self, other) {
            (Shape::Scalar, Shape::Scalar) => true,
            (Shape::Vector(a), Shape::Vector(b)) => a.eq_shape(b),
            _ => false,
        }
    }
}

impl Type {
    /// Structural equality, usable from executable code.
    pub fn eq_type(&self, other: &Type) -> (r: bool)
        ensures
            r == (*self == *other),
    {
        let base_eq = match (self.basetype, other.basetype) {
            (BaseType::U32, BaseType::U32) => true,
            (BaseType::Bool, BaseType::Bool) => true,
            _ => false,
        };
        base_eq && self.shp.eq_shape(&other.shp)
    }
}

/// Typestate marker: picks the identifier metadata attached per phase.
pub trait AstConfig {
    /// The value-type annotation an identifier carries in this phase.
    type ValueType: core::fmt::Debug;
}

/// Phase before type inference: types are optional.
#[derive(Clone, Copy, Debug)]
pub struct UntypedAst;

impl AstConfig for UntypedAst {
    type ValueType = Option<Type>;
}

/// Phase after type inference: every identifier has a concrete type.
#[derive(Clone, Copy, Debug)]
pub struct TypedAst;

impl AstConfig for TypedAst {
    type ValueType = Type;
}

/// A tagged reference to an identifier: a positional function argument, an
/// SSA-defined local variable, or a comprehension's index variable.
#[derive(Clone, Copy, Debug, PartialEq, Eq, Structural)]
pub enum ArgOrVar {
    /// Function argument, resolved positionally in the enclosing function.
    Arg(usize),
    /// SSA-defined local, resolved by key through the scope stack.
    Var(Key),
    /// A comprehension's bound index variable, resolved by key.
    Iv(Key),
}

/// The index variable of a tensor comprehension.
#[derive(Clone, Copy, Debug, PartialEq, Eq, Structural)]
pub struct IndexVector(pub Key);

/// Metadata record for one identifier: name, per-phase type, role.
#[derive(Debug)]
pub struct Avis<Ast: AstConfig> {
    pub name: String,
    pub ty: Ast::ValueType,
    pub key: ArgOrVar,
}

impl<Ast: AstConfig> Avis<Ast> {
    pub fn new(key: ArgOrVar, name: &str, ty: Ast::ValueType) -> (r: Self)
        ensures
            r.key == key,
            r.name@ == name@,
            r.ty == ty,
    {
        Avis { name: name.to_owned(), ty, key }
    }
}

/// A binary operator.
#[derive(Clone, Copy, Debug, PartialEq, Eq, Structural)]
pub enum Bop {
    Add,
    Sub,
    Mul,
    Div,
    Eq,
    Ne,
    Lt,
    Le,
    Gt,
    Ge,
}

/// A unary operator.
#[derive(Clone, Copy, Debug, PartialEq, Eq, Structural)]
pub enum Uop {
    Neg,
    Not,
}

/// A binary expression over two already-resolved references.
#[derive(Debug)]
pub struct Binary {
    pub l: ArgOrVar,
    pub r: ArgOrVar,
    pub op: Bop,
}

/// A unary expression over an already-resolved reference.
#[derive(Debug)]
pub struct Unary {
    pub r: ArgOrVar,
    pub op: Uop,
}

/// One lexical scope: its identifier arena, its SSA-definition table, and
/// the reference the scope's body evaluates to.
#[derive(Debug)]
pub struct Block<Ast: AstConfig> {
    pub local_vars: Arena<Avis<Ast>>,
    pub local_ssa: SecondaryArena<Expr<Ast>>,
    pub ret: ArgOrVar,
}

/// A tensor comprehension: one element per value of the bound index
/// variable in `[lb, ub)`.  The bounds are resolved in the enclosing
/// scope; the body owns a nested scope of its own.
#[derive(Debug)]
pub struct Tensor<Ast: AstConfig> {
    pub body: Block<Ast>,
    pub iv: IndexVector,
    pub lb: ArgOrVar,
    pub ub: ArgOrVar,
}

/// An SSA definition: the right-hand side bound to one identifier.
#[derive(Debug)]
pub enum Expr<Ast: AstConfig> {
    Tensor(Tensor<Ast>),
    Binary(Binary),
    Unary(Unary),
    Bool(bool),
    U32(u32),
}

/// A function definition: name, ordered arguments, and the body scope.
#[derive(Debug)]
pub struct Fundef<Ast: AstConfig> {
    pub name: String,
    pub args: Vec<Avis<Ast>>,
    pub block: Block<Ast>,
}

/// An ordered list of function definitions.
#[derive(Debug)]
pub struct Program<Ast: AstConfig> {
    pub fundefs: Vec<Fundef<Ast>>,
}

impl<Ast: AstConfig> Program<Ast> {
    pub fn new() -> (r: Self)
        ensures
            r.fundefs@.len() == 0,
    {
        Program { fundefs: Vec::new() }
    }
}

impl<Ast: AstConfig> Fundef<Ast> {
    /// Declare a fresh SSA-defined local in the body scope and return its
    /// key.
    pub fn insert_var(&mut self, id: &str, ty: Ast::ValueType) -> (key: Key)
        requires
            old(self).block.local_vars.next_key() < usize::MAX,
        ensures
            key.0 == old(self).block.local_vars.next_key(),
            final(self).block.local_vars@ == old(self).block.local_vars@.insert(
                key.0 as nat,
                final(self).block.local_vars@[key.0 as nat],
            ),
            final(self).block.local_vars@[key.0 as nat].key == ArgOrVar::Var(key),
            final(self).block.local_vars@[key.0 as nat].name@ == id@,
            final(self).block.local_vars@[key.0 as nat].ty == ty,
            final(self).block.local_vars.next_key() == old(self).block.local_vars.next_key() + 1,
            final(self).block.local_ssa == old(self).block.local_ssa,
            final(self).block.ret == old(self).block.ret,
            final(self).name == old(self).name,
            final(self).args == old(self).args,
    {
        let next = self.block.local_vars.peek_next_key();
        let avis = Avis { name: id.to_owned(), ty, key: ArgOrVar::Var(Key(next)) };
        self.block.local_vars.insert(avis)
    }
}

// ---------------------------------------------------------------------------
// Lexical lookup over a scope stack, and well-formedness of the IR.
// ---------------------------------------------------------------------------

/// Innermost-to-outermost search of a scope stack for an identifier key;
/// the first match wins (lexical shadowing).
pub open spec fn stack_find_key<Ast: AstConfig>(stack: Seq<Block<Ast>>, k: nat) -> Option<
    Avis<Ast>,
>
    decreases stack.len(),
{
    if stack.len() == 0 {
        None
    } else if stack.last().local_vars@.dom().contains(k) {
        Some(stack.last().local_vars@[k])
    } else {
        stack_find_key(stack.drop_last(), k)
    }
}

/// Innermost-to-outermost search of a scope stack for an SSA definition.
pub open spec fn stack_find_ssa<Ast: AstConfig>(stack: Seq<Block<Ast>>, k: nat) -> Option<
    Expr<Ast>,
>
    decreases stack.len(),
{
    if stack.len() == 0 {
        None
    } else if stack.last().local_ssa@.dom().contains(k) {
        Some(stack.last().local_ssa@[k])
    } else {
        stack_find_ssa(stack.drop_last(), k)
    }
}

/// Termination measure of a reference: one above its key, zero for an
/// argument.
pub open spec fn ref_measure(r: ArgOrVar) -> nat {
    match r {
        ArgOrVar::Arg(_) => 0,
        ArgOrVar::Var(k) => (k.0 + 1) as nat,
        ArgOrVar::Iv(k) => (k.0 + 1) as nat,
    }
}

/// The key a reference points at lies strictly below `bound` (arguments
/// always pass).
pub open spec fn ref_below(r: ArgOrVar, bound: nat) -> bool {
    ref_measure(r) <= bound
}

/// A reference resolves in the given scope stack: an argument index is in
/// range, and a key is found with the matching role and, for a variable, a
/// definition; for a variable, the whole reference graph underneath
/// resolves as well, every step pointing strictly below the defining key.
pub open spec fn resolvable<Ast: AstConfig>(
    stack: Seq<Block<Ast>>,
    r: ArgOrVar,
    bound: nat,
    nargs: nat,
) -> bool
    decreases ref_measure(r), 1nat,
{
    match r {
        ArgOrVar::Arg(i) => i < nargs,
        ArgOrVar::Iv(k) => k.0 < bound && (match stack_find_key(stack, k.0 as nat) {
            Some(a) => a.key == ArgOrVar::Iv(k),
            None => false,
        }),
        ArgOrVar::Var(k) => k.0 < bound && (match (
            stack_find_key(stack, k.0 as nat),
            stack_find_ssa(stack, k.0 as nat),
        ) {
            (Some(a), Some(e)) => a.key == ArgOrVar::Var(k) && expr_resolvable(
                stack,
                e,
                k.0 as nat,
                nargs,
            ),
            _ => false,
        }),
    }
}

/// Every reference of a definition resolves in the stack, strictly below
/// the defining key `k`; a tensor's body resolves with its own scope
/// pushed.
pub open spec fn expr_resolvable<Ast: AstConfig>(
    stack: Seq<Block<Ast>>,
    e: Expr<Ast>,
    k: nat,
    nargs: nat,
) -> bool
    decreases k + 1, 0nat,
{
    match e {
        Expr::Bool(_) => true,
        Expr::U32(_) => true,
        Expr::Binary(b) => {
            &&& ref_below(b.l, k) && resolvable(stack, b.l, k, nargs)
            &&& ref_below(b.r, k) && resolvable(stack, b.r, k, nargs)
        },
        Expr::Unary(u) => ref_below(u.r, k) && resolvable(stack, u.r, k, nargs),
        Expr::Tensor(t) => {
            let pushed = stack.push(t.body);
            &&& ref_below(t.lb, k) && resolvable(stack, t.lb, k, nargs)
            &&& ref_below(t.ub, k) && resolvable(stack, t.ub, k, nargs)
            &&& t.body.local_vars@.dom().contains(t.iv.0.0 as nat)
            &&& (match stack_find_key(pushed, t.iv.0.0 as nat) {
                Some(a) => a.key == ArgOrVar::Iv(t.iv.0),
                None => false,
            })
            &&& ref_below(t.body.ret, k) && resolvable(pushed, t.body.ret, k, nargs)
        },
    }
}

/// Per-scope single-static-assignment discipline: every `Var` key of the
/// scope has exactly one definition, recorded in this very scope's SSA
/// table; index-variable keys have none; every recorded definition belongs
/// to a declared key; and every key lies below the arena's mint counter.
/// Nested comprehension scopes obey the same discipline.
pub open spec fn block_ssa_unique<Ast: AstConfig>(b: Block<Ast>) -> bool
    decreases b via block_ssa_unique_decreases::<Ast>
{
    &&& forall|k: nat| #[trigger]
        b.local_ssa@.dom().contains(k) ==> b.local_vars@.dom().contains(k)
    &&& forall|k: nat| #[trigger] b.local_vars@.dom().contains(k) ==> {
        ||| (b.local_vars@[k].key == ArgOrVar::Var(Key(k as usize)) && b.local_ssa@.dom().contains(
            k,
        ))
        ||| (b.local_vars@[k].key == ArgOrVar::Iv(Key(k as usize)) && !b.local_ssa@.dom().contains(
            k,
        ))
    }
    &&& forall|k: nat| #[trigger] b.local_vars@.dom().contains(k) ==> k < b.local_vars.next_key()
    &&& forall|k: nat| #[trigger]
        b.local_ssa@.dom().contains(k) ==> expr_ssa_unique(b.local_ssa@[k])
}

#[via_fn]
proof fn block_ssa_unique_decreases<Ast: AstConfig>(b: Block<Ast>) {
    broadcast use crate::arena::lemma_secondary_index_decreases;

}

/// The nested scopes inside a definition obey the per-scope SSA
/// discipline.
pub open spec fn expr_ssa_unique<Ast: AstConfig>(e: Expr<Ast>) -> bool
    decreases e,
{
    match e {
        Expr::Tensor(t) => block_ssa_unique(t.body),
        _ => true,
    }
}

/// The only index-vector key a scope may declare is the one its owning
/// comprehension names; the scope of a function body declares none.  So a
/// live `Iv` reference always points at the index variable of an
/// enclosing comprehension.
pub open spec fn block_ivs_declared<Ast: AstConfig>(b: Block<Ast>, allowed: Option<nat>) -> bool
    decreases b via block_ivs_declared_decreases::<Ast>
{
    &&& forall|k: nat| #[trigger] b.local_vars@.dom().contains(k) ==> (b.local_vars@[k].key
        matches ArgOrVar::Iv(_) ==> Some(k) == allowed)
    &&& forall|k: nat| #[trigger]
        b.local_ssa@.dom().contains(k) ==> expr_ivs_declared(b.local_ssa@[k])
}

/// Nested comprehension scopes declare only their own index variable.
pub open spec fn expr_ivs_declared<Ast: AstConfig>(e: Expr<Ast>) -> bool
    decreases e,
{
    match e {
        Expr::Tensor(t) => block_ivs_declared(t.body, Some(t.iv.0.0 as nat)),
        _ => true,
    }
}

#[via_fn]
proof fn block_ivs_declared_decreases<Ast: AstConfig>(b: Block<Ast>, allowed: Option<nat>) {
    broadcast use crate::arena::lemma_secondary_index_decreases;

}

/// The arguments of a function are coherent: argument `i` carries the
/// positional reference `Arg(i)`.
pub open spec fn args_coherent<Ast: AstConfig>(args: Seq<Avis<Ast>>) -> bool {
    forall|i: int| 0 <= i < args.len() ==> (#[trigger] args[i].key) == ArgOrVar::Arg(i as usize)
}

/// A well-formed function definition: coherent arguments, per-scope SSA
/// discipline, and a return reference whose whole reference graph
/// resolves through the scope stack.
pub open spec fn wf_fundef<Ast: AstConfig>(f: Fundef<Ast>) -> bool {
    &&& args_coherent(f.args@)
    &&& block_ssa_unique(f.block)
    &&& block_ivs_declared(f.block, None)
    &&& ref_below(f.block.ret, f.block.local_vars.next_key())
    &&& resolvable(
        seq![f.block],
        f.block.ret,
        f.block.local_vars.next_key(),
        f.args@.len() as nat,
    )
}

/// A well-formed program: every function definition is well-formed.
pub open spec fn wf_program<Ast: AstConfig>(p: Program<Ast>) -> bool {
    forall|i: int| 0 <= i < p.fundefs@.len() ==> wf_fundef(#[trigger] p.fundefs@[i])
}

} // verus!
