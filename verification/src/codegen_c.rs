//! The C emitter: lowers a typed program to one translation unit.
//!
//! Each function becomes a C function named with the `DSL_` prefix over its
//! declared name.  Compiling a local that has an SSA definition hoists a
//! `<type> <name> = <rhs>;` statement into a per-function ordered buffer
//! before the enclosing expression is finished, so every computed
//! dependency textually precedes its first use; the buffer is flushed, in
//! def-before-use order, immediately before the final `return`.  Literal
//! definitions are inlined at their use sites.  A comprehension lowers to
//! a heap allocation sized by its upper bound and a bounded counting loop
//! assigning one element per iteration; helper computations feeding the
//! bounds are hoisted ahead of the allocation and the loop, while the
//! body's own helpers stay inside the loop.
//!
//! The specification functions here state the emitted text exactly; the
//! emitter is verified to produce it, character for character.

use vstd::prelude::*;

use crate::ast::{
    ref_below, ref_measure, resolvable, stack_find_key, stack_find_ssa, wf_fundef, wf_program,
    ArgOrVar, Avis, BaseType, Block, Bop, Expr, Fundef, Program, Shape, Type, TypedAst, Uop,
};
use crate::convert_to_ssa::{dec_of, dec_string};
use crate::traverse::ScopeStack;

verus! {

/// The C spelling of a base type.
pub open spec fn c_of_basetype(b: BaseType) -> Seq<char> {
    match b {
        BaseType::U32 => "uint32_t"@,
        BaseType::Bool => "bool"@,
    }
}

/// The C spelling of a value type: vectors lower to pointers.
pub open spec fn c_of_type(t: Type) -> Seq<char> {
    match t.shp {
        Shape::Scalar => c_of_basetype(t.basetype),
        Shape::Vector(_) => c_of_basetype(t.basetype) + "*"@,
    }
}

/// The C spelling of a binary operator.
pub open spec fn c_of_bop(op: Bop) -> Seq<char> {
    match op {
        Bop::Add => "+"@,
        Bop::Sub => "-"@,
        Bop::Mul => "*"@,
        Bop::Div => "/"@,
        Bop::Eq => "=="@,
        Bop::Ne => "!="@,
        Bop::Lt => "<"@,
        Bop::Le => "<="@,
        Bop::Gt => ">"@,
        Bop::Ge => ">="@,
    }
}

/// The C spelling of a unary operator.
pub open spec fn c_of_uop(op: Uop) -> Seq<char> {
    match op {
        Uop::Neg => "-"@,
        Uop::Not => "!"@,
    }
}

/// The C spelling of a boolean literal.
pub open spec fn c_of_bool(v: bool) -> Seq<char> {
    if v {
        "true"@
    } else {
        "false"@
    }
}

/// The name an identifier record carries, as the stack records it.
pub open spec fn ref_name(
    stack: Seq<Block<TypedAst>>,
    args: Seq<Avis<TypedAst>>,
    r: ArgOrVar,
) -> Seq<char> {
    match r {
        ArgOrVar::Arg(i) => if i < args.len() {
            args[i as int].name@
        } else {
            Seq::empty()
        },
        ArgOrVar::Var(k) | ArgOrVar::Iv(k) => match stack_find_key(stack, k.0 as nat) {
            Some(a) => a.name@,
            None => Seq::empty(),
        },
    }
}

/// The recorded type of a reference.
pub open spec fn ref_c_type(
    stack: Seq<Block<TypedAst>>,
    args: Seq<Avis<TypedAst>>,
    r: ArgOrVar,
) -> Type {
    match r {
        ArgOrVar::Arg(i) => if i < args.len() {
            args[i as int].ty
        } else {
            Type { basetype: BaseType::U32, shp: Shape::Scalar }
        },
        ArgOrVar::Var(k) | ArgOrVar::Iv(k) => match stack_find_key(stack, k.0 as nat) {
            Some(a) => a.ty,
            None => Type { basetype: BaseType::U32, shp: Shape::Scalar },
        },
    }
}

/// Compile an operand reference: the statements hoisted ahead of the use
/// and the operand text.  Arguments and index variables go by name;
/// literal definitions are inlined; any other definition is compiled,
/// hoisted under its own name, and named.
pub open spec fn c_ref(
    stack: Seq<Block<TypedAst>>,
    args: Seq<Avis<TypedAst>>,
    r: ArgOrVar,
) -> (Seq<Seq<char>>, Seq<char>)
    decreases ref_measure(r), 1nat,
{
    match r {
        ArgOrVar::Arg(_) => (Seq::empty(), ref_name(stack, args, r)),
        ArgOrVar::Iv(_) => (Seq::empty(), ref_name(stack, args, r)),
        ArgOrVar::Var(k) => match stack_find_ssa(stack, k.0 as nat) {
            Some(e) => match e {
                Expr::Bool(v) => (Seq::empty(), c_of_bool(v)),
                Expr::U32(v) => (Seq::empty(), dec_of(v as nat)),
                _ => {
                    let (st, tx) = c_expr(stack, args, e, k.0 as nat);
                    let name = ref_name(stack, args, r);
                    let line = c_of_type(ref_c_type(stack, args, r)) + " "@ + name + " = "@ + tx
                        + ";"@;
                    (st.push(line), name)
                },
            },
            None => (Seq::empty(), Seq::empty()),
        },
    }
}

/// Compile a reference in root position (a function's return value or a
/// comprehension's element): a defined local is compiled inline rather
/// than hoisted; anything else goes by name.
pub open spec fn c_root(
    stack: Seq<Block<TypedAst>>,
    args: Seq<Avis<TypedAst>>,
    r: ArgOrVar,
) -> (Seq<Seq<char>>, Seq<char>)
    decreases ref_measure(r), 1nat,
{
    match r {
        ArgOrVar::Var(k) => match stack_find_ssa(stack, k.0 as nat) {
            Some(e) => c_expr(stack, args, e, k.0 as nat),
            None => (Seq::empty(), ref_name(stack, args, r)),
        },
        _ => (Seq::empty(), ref_name(stack, args, r)),
    }
}

/// Compile a defining expression at key `k`: the hoisted statements and
/// the expression text.
pub open spec fn c_expr(
    stack: Seq<Block<TypedAst>>,
    args: Seq<Avis<TypedAst>>,
    e: Expr<TypedAst>,
    k: nat,
) -> (Seq<Seq<char>>, Seq<char>)
    decreases k + 1, 0nat,
{
    match e {
        Expr::Bool(v) => (Seq::empty(), c_of_bool(v)),
        Expr::U32(v) => (Seq::empty(), dec_of(v as nat)),
        Expr::Binary(b) => if ref_below(b.l, k) && ref_below(b.r, k) {
            let (sl, tl) = c_ref(stack, args, b.l);
            let (sr, tr) = c_ref(stack, args, b.r);
            (sl + sr, tl + " "@ + c_of_bop(b.op) + " "@ + tr)
        } else {
            (Seq::empty(), Seq::empty())
        },
        Expr::Unary(u) => if ref_below(u.r, k) {
            let (sr, tr) = c_ref(stack, args, u.r);
            (sr, c_of_uop(u.op) + tr)
        } else {
            (Seq::empty(), Seq::empty())
        },
        Expr::Tensor(t) => if ref_below(t.lb, k) && ref_below(t.ub, k) && ref_below(
            t.body.ret,
            k,
        ) {
            let (slb, tlb) = c_ref(stack, args, t.lb);
            let (sub, tub) = c_ref(stack, args, t.ub);
            let pushed = stack.push(t.body);
            let (sbody, tbody) = c_root(pushed, args, t.body.ret);
            let ivname = ref_name(pushed, args, ArgOrVar::Iv(t.iv.0));
            let elemty = c_of_type(ref_c_type(pushed, args, t.body.ret));
            let alloc = elemty + " *res = malloc("@ + tub + " * sizeof("@ + elemty + "));"@;
            let forloop = "for (size_t "@ + ivname + " = "@ + tlb + "; "@ + ivname + " < "@ + tub
                + "; "@ + ivname + " += 1) { "@ + joined(sbody) + "res["@ + ivname + "] = "@
                + tbody + "; }"@;
            (slb + sub + seq![alloc, forloop], "res"@)
        } else {
            (Seq::empty(), Seq::empty())
        },
    }
}

/// Statements joined on one line, each followed by one space.
pub open spec fn joined(stmts: Seq<Seq<char>>) -> Seq<char>
    decreases stmts.len(),
{
    if stmts.len() == 0 {
        Seq::empty()
    } else {
        joined(stmts.drop_last()) + stmts.last() + " "@
    }
}

/// Statements as indented lines.
pub open spec fn lines(stmts: Seq<Seq<char>>) -> Seq<char>
    decreases stmts.len(),
{
    if stmts.len() == 0 {
        Seq::empty()
    } else {
        lines(stmts.drop_last()) + "    "@ + stmts.last() + "\n"@
    }
}

/// The parameter list text: `<type> <name>` for each argument, separated
/// by commas.
pub open spec fn c_params(args: Seq<Avis<TypedAst>>) -> Seq<char>
    decreases args.len(),
{
    if args.len() == 0 {
        Seq::empty()
    } else if args.len() == 1 {
        c_of_type(args[0].ty) + " "@ + args[0].name@
    } else {
        c_params(args.drop_last()) + ", "@ + c_of_type(args.last().ty) + " "@ + args.last().name@
    }
}

/// The text the return expression compiles to, with its hoisted
/// statements: the root definition is compiled inline; a returned
/// argument goes by name.
pub open spec fn c_ret(f: Fundef<TypedAst>) -> (Seq<Seq<char>>, Seq<char>) {
    c_root(seq![f.block], f.args@, f.block.ret)
}

/// The whole emitted text of one function.
pub open spec fn c_fundef_text(f: Fundef<TypedAst>) -> Seq<char> {
    let stack = seq![f.block];
    let ret_ty = c_of_type(ref_c_type(stack, f.args@, f.block.ret));
    let (stmts, ret_code) = c_ret(f);
    ret_ty + " DSL_"@ + f.name@ + "("@ + c_params(f.args@) + ") {\n"@ + lines(stmts)
        + "    return "@ + ret_code + ";\n}\n"@
}

/// Whether any function's body scope defines a comprehension (nested ones
/// always sit inside a top-level one).
pub open spec fn has_comprehension(p: Program<TypedAst>) -> bool {
    exists|i: int, k: nat|
        0 <= i < p.fundefs@.len() && (#[trigger] p.fundefs@[i].block.local_ssa@.dom().contains(k))
            && p.fundefs@[i].block.local_ssa@[k] matches Expr::Tensor(_)
}

/// The whole translation unit: the includes (`<stdlib.h>` only when a
/// comprehension needs `malloc`), then one function per definition.
pub open spec fn c_program_text(p: Program<TypedAst>) -> Seq<char> {
    let includes = if has_comprehension(p) {
        "#include <stdlib.h>\n#include <stdbool.h>\n#include <stdint.h>\n"@
    } else {
        "#include <stdbool.h>\n#include <stdint.h>\n"@
    };
    includes + c_fundefs_text(p.fundefs@)
}

/// The emitted functions, each preceded by a blank line.
pub open spec fn c_fundefs_text(fs: Seq<Fundef<TypedAst>>) -> Seq<char>
    decreases fs.len(),
{
    if fs.len() == 0 {
        Seq::empty()
    } else {
        c_fundefs_text(fs.drop_last()) + "\n"@ + c_fundef_text(fs.last())
    }
}


/// A sequence of built statements matches its specification text.
pub open spec fn strs_match(v: Seq<String>, s: Seq<Seq<char>>) -> bool {
    v.len() == s.len() && forall|j: int| 0 <= j < v.len() ==> (#[trigger] v[j])@ == s[j]
}

proof fn lemma_strs_match_concat(v1: Seq<String>, v2: Seq<String>, s1: Seq<Seq<char>>, s2: Seq<Seq<char>>)
    requires
        strs_match(v1, s1),
        strs_match(v2, s2),
    ensures
        strs_match(v1 + v2, s1 + s2),
{
    assert forall|j: int| 0 <= j < (v1 + v2).len() implies ((v1 + v2)[j])@ == (s1 + s2)[j] by {
        if j < v1.len() {
            assert((v1 + v2)[j] == v1[j]);
            assert((s1 + s2)[j] == s1[j]);
        } else {
            assert((v1 + v2)[j] == v2[j - v1.len()]);
            assert((s1 + s2)[j] == s2[j - s1.len()]);
        }
    }
}

proof fn lemma_strs_match_push(v: Seq<String>, s: Seq<Seq<char>>, x: String, y: Seq<char>)
    requires
        strs_match(v, s),
        x@ == y,
    ensures
        strs_match(v.push(x), s.push(y)),
{
    assert forall|j: int| 0 <= j < v.push(x).len() implies (v.push(x)[j])@ == s.push(y)[j] by {
        if j < v.len() {
            assert(v.push(x)[j] == v[j]);
            assert(s.push(y)[j] == s[j]);
        }
    }
}

/// The per-function buffer of hoisted statements, flushed before the
/// final `return` in def-before-use order.
pub struct CodegenContext {
    pub stmts: Vec<String>,
}

fn base_text(b: BaseType) -> (r: &'static str)
    ensures
        r@ == c_of_basetype(b),
{
    match b {
        BaseType::U32 => "uint32_t",
        BaseType::Bool => "bool",
    }
}

fn type_text(t: &Type) -> (r: String)
    ensures
        r@ == c_of_type(*t),
{
    let mut s = base_text(t.basetype).to_owned();
    match &t.shp {
        Shape::Scalar => {},
        Shape::Vector(_) => {
            s.append("*");
        },
    }
    s
}

fn bop_text(op: Bop) -> (r: &'static str)
    ensures
        r@ == c_of_bop(op),
{
    match op {
        Bop::Add => "+",
        Bop::Sub => "-",
        Bop::Mul => "*",
        Bop::Div => "/",
        Bop::Eq => "==",
        Bop::Ne => "!=",
        Bop::Lt => "<",
        Bop::Le => "<=",
        Bop::Gt => ">",
        Bop::Ge => ">=",
    }
}

fn uop_text(op: Uop) -> (r: &'static str)
    ensures
        r@ == c_of_uop(op),
{
    match op {
        Uop::Neg => "-",
        Uop::Not => "!",
    }
}

fn bool_text(v: bool) -> (r: &'static str)
    ensures
        r@ == c_of_bool(v),
{
    if v {
        "true"
    } else {
        "false"
    }
}

impl CodegenContext {
    pub fn new() -> (r: Self)
        ensures
            r.stmts@.len() == 0,
    {
        CodegenContext { stmts: Vec::new() }
    }

    /// Compile an operand reference, hoisting its definition if it has a
    /// non-literal one, and hand back the operand text.
    fn compile_ref<'a>(
        &mut self,
        scopes: &mut ScopeStack<'a, TypedAst>,
        args: &Vec<Avis<TypedAst>>,
        r: ArgOrVar,
    ) -> (tx: String)
        requires
            resolvable(old(scopes)@, r, ref_measure(r), args@.len() as nat),
        ensures
            final(scopes)@ == old(scopes)@,
            final(self).stmts@.len() == old(self).stmts@.len() + c_ref(
                old(scopes)@,
                args@,
                r,
            ).0.len(),
            final(self).stmts@.subrange(0, old(self).stmts@.len() as int) == old(self).stmts@,
            strs_match(
                final(self).stmts@.subrange(
                    old(self).stmts@.len() as int,
                    final(self).stmts@.len() as int,
                ),
                c_ref(old(scopes)@, args@, r).0,
            ),
            tx@ == c_ref(old(scopes)@, args@, r).1,
        decreases ref_measure(r), 1nat,
    {
        match r {
            ArgOrVar::Arg(i) => {
                proof {
                    assert(self.stmts@.subrange(0, self.stmts@.len() as int) =~= self.stmts@);
                    assert(self.stmts@.subrange(
                        self.stmts@.len() as int,
                        self.stmts@.len() as int,
                    ) =~= Seq::<String>::empty());
                }
                args[i].name.clone()
            },
            ArgOrVar::Iv(k) => {
                proof {
                    assert(self.stmts@.subrange(0, self.stmts@.len() as int) =~= self.stmts@);
                    assert(self.stmts@.subrange(
                        self.stmts@.len() as int,
                        self.stmts@.len() as int,
                    ) =~= Seq::<String>::empty());
                }
                match scopes.find_key(k) {
                    Some(a) => a.name.clone(),
                    None => {
                        proof {
                            assert(false);
                        }
                        String::new()
                    },
                }
            },
            ArgOrVar::Var(k) => {
                let e = match scopes.find_ssa(k) {
                    Some(e) => e,
                    None => {
                        proof {
                            assert(false);
                        }
                        return String::new();
                    },
                };
                match e {
                    Expr::Bool(v) => {
                        proof {
                            assert(self.stmts@.subrange(0, self.stmts@.len() as int)
                                =~= self.stmts@);
                            assert(self.stmts@.subrange(
                                self.stmts@.len() as int,
                                self.stmts@.len() as int,
                            ) =~= Seq::<String>::empty());
                        }
                        bool_text(*v).to_owned()
                    },
                    Expr::U32(v) => {
                        proof {
                            assert(self.stmts@.subrange(0, self.stmts@.len() as int)
                                =~= self.stmts@);
                            assert(self.stmts@.subrange(
                                self.stmts@.len() as int,
                                self.stmts@.len() as int,
                            ) =~= Seq::<String>::empty());
                        }
                        dec_string(*v as usize)
                    },
                    _ => {
                        let ghost n0 = self.stmts@.len() as int;
                        let tx = self.compile_expr(scopes, args, e, Ghost(k.0 as nat));
                        let ghost st1 = self.stmts@;
                        let avis = match scopes.find_key(k) {
                            Some(a) => a,
                            None => {
                                proof {
                                    assert(false);
                                }
                                return String::new();
                            },
                        };
                        let name = avis.name.clone();
                        let mut line = type_text(&avis.ty);
                        line.append(" ");
                        line.append(name.as_str());
                        line.append(" = ");
                        line.append(tx.as_str());
                        line.append(";");
                        self.stmts.push(line);
                        proof {
                            let spec = c_ref(scopes@, args@, r);
                            let espec = c_expr(scopes@, args@, *e, k.0 as nat);
                            assert(self.stmts@.subrange(0, old(self).stmts@.len() as int)
                                =~= old(self).stmts@);
                            assert(self.stmts@.subrange(
                                old(self).stmts@.len() as int,
                                self.stmts@.len() as int,
                            ) =~= self.stmts@.subrange(
                                old(self).stmts@.len() as int,
                                self.stmts@.len() - 1,
                            ).push(self.stmts@.last()));
                            let specline = c_of_type(ref_c_type(scopes@, args@, r)) + " "@
                                + ref_name(scopes@, args@, r) + " = "@ + espec.1 + ";"@;
                            assert(line@ =~= specline);
                            assert(self.stmts@.subrange(
                                old(self).stmts@.len() as int,
                                self.stmts@.len() - 1,
                            ) =~= st1.subrange(old(self).stmts@.len() as int, st1.len() as int));
                            lemma_strs_match_push(
                                self.stmts@.subrange(
                                    old(self).stmts@.len() as int,
                                    self.stmts@.len() - 1,
                                ),
                                espec.0,
                                line,
                                specline,
                            );
                            assert(spec.0 == espec.0.push(specline));
                            assert(strs_match(
                                self.stmts@.subrange(
                                    old(self).stmts@.len() as int,
                                    self.stmts@.len() as int,
                                ),
                                spec.0,
                            ));
                        }
                        name
                    },
                }
            },
        }
    }

    /// Compile a root-position reference: a defined local inline, anything
    /// else by name.
    fn compile_root<'a>(
        &mut self,
        scopes: &mut ScopeStack<'a, TypedAst>,
        args: &Vec<Avis<TypedAst>>,
        r: ArgOrVar,
    ) -> (tx: String)
        requires
            resolvable(old(scopes)@, r, ref_measure(r), args@.len() as nat),
        ensures
            final(scopes)@ == old(scopes)@,
            final(self).stmts@.len() == old(self).stmts@.len() + c_root(
                old(scopes)@,
                args@,
                r,
            ).0.len(),
            final(self).stmts@.subrange(0, old(self).stmts@.len() as int) == old(self).stmts@,
            strs_match(
                final(self).stmts@.subrange(
                    old(self).stmts@.len() as int,
                    final(self).stmts@.len() as int,
                ),
                c_root(old(scopes)@, args@, r).0,
            ),
            tx@ == c_root(old(scopes)@, args@, r).1,
        decreases ref_measure(r), 1nat,
    {
        proof {
            assert(self.stmts@.subrange(0, self.stmts@.len() as int) =~= self.stmts@);
            assert(self.stmts@.subrange(self.stmts@.len() as int, self.stmts@.len() as int)
                =~= Seq::<String>::empty());
        }
        match r {
            ArgOrVar::Var(k) => {
                let e = match scopes.find_ssa(k) {
                    Some(e) => e,
                    None => {
                        proof {
                            assert(false);
                        }
                        return String::new();
                    },
                };
                self.compile_expr(scopes, args, e, Ghost(k.0 as nat))
            },
            ArgOrVar::Arg(i) => args[i].name.clone(),
            ArgOrVar::Iv(k) => {
                match scopes.find_key(k) {
                    Some(a) => a.name.clone(),
                    None => {
                        proof {
                            assert(false);
                        }
                        String::new()
                    },
                }
            },
        }
    }

    /// Compile one defining expression, hoisting what its operands need,
    /// and hand back the expression text.
    #[verifier::rlimit(100)]
    #[verifier::spinoff_prover]
    pub fn compile_expr<'a>(
        &mut self,
        scopes: &mut ScopeStack<'a, TypedAst>,
        args: &Vec<Avis<TypedAst>>,
        e: &'a Expr<TypedAst>,
        Ghost(k): Ghost<nat>,
    ) -> (tx: String)
        requires
            crate::ast::expr_resolvable(old(scopes)@, *e, k, args@.len() as nat),
        ensures
            final(scopes)@ == old(scopes)@,
            final(self).stmts@.len() == old(self).stmts@.len() + c_expr(
                old(scopes)@,
                args@,
                *e,
                k,
            ).0.len(),
            final(self).stmts@.subrange(0, old(self).stmts@.len() as int) == old(self).stmts@,
            strs_match(
                final(self).stmts@.subrange(
                    old(self).stmts@.len() as int,
                    final(self).stmts@.len() as int,
                ),
                c_expr(old(scopes)@, args@, *e, k).0,
            ),
            tx@ == c_expr(old(scopes)@, args@, *e, k).1,
        decreases k + 1, 0nat,
    {
        match e {
            Expr::Bool(v) => {
                proof {
                    assert(self.stmts@.subrange(0, self.stmts@.len() as int) =~= self.stmts@);
                    assert(self.stmts@.subrange(
                        self.stmts@.len() as int,
                        self.stmts@.len() as int,
                    ) =~= Seq::<String>::empty());
                }
                bool_text(*v).to_owned()
            },
            Expr::U32(v) => {
                proof {
                    assert(self.stmts@.subrange(0, self.stmts@.len() as int) =~= self.stmts@);
                    assert(self.stmts@.subrange(
                        self.stmts@.len() as int,
                        self.stmts@.len() as int,
                    ) =~= Seq::<String>::empty());
                }
                dec_string(*v as usize)
            },
            Expr::Unary(u) => {
                let tr = self.compile_ref(scopes, args, u.r);
                let mut tx = uop_text(u.op).to_owned();
                tx.append(tr.as_str());
                tx
            },
            Expr::Binary(b) => {
                let ghost n0 = self.stmts@.len() as int;
                let tl = self.compile_ref(scopes, args, b.l);
                let ghost n1 = self.stmts@.len() as int;
                let ghost st1 = self.stmts@;
                let tr = self.compile_ref(scopes, args, b.r);
                let mut tx = tl;
                tx.append(" ");
                tx.append(bop_text(b.op));
                tx.append(" ");
                tx.append(tr.as_str());
                proof {
                    let sl = c_ref(scopes@, args@, b.l).0;
                    let sr = c_ref(scopes@, args@, b.r).0;
                    assert(self.stmts@.subrange(n0, self.stmts@.len() as int) =~= self.stmts@
                        .subrange(n0, n1) + self.stmts@.subrange(n1, self.stmts@.len() as int));
                    assert(self.stmts@.subrange(0, n0) =~= old(self).stmts@);
                    assert(self.stmts@.subrange(n0, n1) =~= st1.subrange(n0, n1));
                    lemma_strs_match_concat(
                        self.stmts@.subrange(n0, n1),
                        self.stmts@.subrange(n1, self.stmts@.len() as int),
                        sl,
                        sr,
                    );
                    assert(strs_match(self.stmts@.subrange(n0, self.stmts@.len() as int), sl + sr));
                }
                tx
            },
            Expr::Tensor(t) => {
                let ghost n0 = self.stmts@.len() as int;
                let tlb = self.compile_ref(scopes, args, t.lb);
                let ghost n1 = self.stmts@.len() as int;
                let ghost st1 = self.stmts@;
                let tub = self.compile_ref(scopes, args, t.ub);
                let ghost n2 = self.stmts@.len() as int;
                let ghost st2 = self.stmts@;
                // the body's own helpers belong inside the loop: compile
                // them into a buffer of their own
                let mut saved: Vec<String> = Vec::new();
                core::mem::swap(&mut self.stmts, &mut saved);
                scopes.push_scope(&t.body);
                let tbody = self.compile_root(scopes, args, t.body.ret);
                let ivavis = match scopes.find_key(t.iv.0) {
                    Some(a) => a,
                    None => {
                        proof {
                            assert(false);
                        }
                        return String::new();
                    },
                };
                let ivname = ivavis.name.clone();
                let elemref = t.body.ret;
                let elemty = match elemref {
                    ArgOrVar::Arg(i) => type_text(&args[i].ty),
                    ArgOrVar::Var(kk) | ArgOrVar::Iv(kk) => {
                        match scopes.find_key(kk) {
                            Some(a) => type_text(&a.ty),
                            None => {
                                proof {
                                    assert(false);
                                }
                                return String::new();
                            },
                        }
                    },
                };
                let mut bodystmts: Vec<String> = Vec::new();
                core::mem::swap(&mut self.stmts, &mut bodystmts);
                core::mem::swap(&mut self.stmts, &mut saved);
                let _ = scopes.pop_scope();
                proof {
                    assert(scopes@ =~= old(scopes)@);
                }
                // join the body statements onto the loop line
                let mut inner = String::new();
                let mut bi: usize = 0;
                proof {
                    let ghost sbody = c_root(old(scopes)@.push(t.body), args@, t.body.ret).0;
                    assert(bodystmts@.subrange(0, bodystmts@.len() as int) =~= bodystmts@);
                    assert(strs_match(bodystmts@, sbody));
                }
                while bi < bodystmts.len()
                    invariant
                        bi <= bodystmts@.len(),
                        strs_match(
                            bodystmts@,
                            c_root(old(scopes)@.push(t.body), args@, t.body.ret).0,
                        ),
                        inner@ == joined(
                            c_root(old(scopes)@.push(t.body), args@, t.body.ret).0.take(bi as int),
                        ),
                    decreases bodystmts@.len() - bi,
                {
                    proof {
                        let sbody = c_root(old(scopes)@.push(t.body), args@, t.body.ret).0;
                        assert(sbody.take(bi + 1).drop_last() =~= sbody.take(bi as int));
                        assert(sbody.take(bi + 1).last() == sbody[bi as int]);
                    }
                    inner.append(bodystmts[bi].as_str());
                    inner.append(" ");
                    bi = bi + 1;
                }
                proof {
                    let sbody = c_root(old(scopes)@.push(t.body), args@, t.body.ret).0;
                    assert(sbody.take(sbody.len() as int) =~= sbody);
                }
                let mut alloc = elemty.clone();
                alloc.append(" *res = malloc(");
                alloc.append(tub.as_str());
                alloc.append(" * sizeof(");
                alloc.append(elemty.as_str());
                alloc.append("));");
                let mut forloop = "for (size_t ".to_owned();
                forloop.append(ivname.as_str());
                forloop.append(" = ");
                forloop.append(tlb.as_str());
                forloop.append("; ");
                forloop.append(ivname.as_str());
                forloop.append(" < ");
                forloop.append(tub.as_str());
                forloop.append("; ");
                forloop.append(ivname.as_str());
                forloop.append(" += 1) { ");
                forloop.append(inner.as_str());
                forloop.append("res[");
                forloop.append(ivname.as_str());
                forloop.append("] = ");
                forloop.append(tbody.as_str());
                forloop.append("; }");
                self.stmts.push(alloc);
                self.stmts.push(forloop);
                proof {
                    let pushed = old(scopes)@.push(t.body);
                    let slb = c_ref(old(scopes)@, args@, t.lb).0;
                    let sub = c_ref(old(scopes)@, args@, t.ub).0;
                    let sbody = c_root(pushed, args@, t.body.ret);
                    let ivname0 = ref_name(pushed, args@, ArgOrVar::Iv(t.iv.0));
                    let elemty0 = c_of_type(ref_c_type(pushed, args@, t.body.ret));
                    let tub0 = c_ref(old(scopes)@, args@, t.ub).1;
                    let tlb0 = c_ref(old(scopes)@, args@, t.lb).1;
                    let alloc0 = elemty0 + " *res = malloc("@ + tub0 + " * sizeof("@ + elemty0
                        + "));"@;
                    let forloop0 = "for (size_t "@ + ivname0 + " = "@ + tlb0 + "; "@ + ivname0
                        + " < "@ + tub0 + "; "@ + ivname0 + " += 1) { "@ + joined(sbody.0)
                        + "res["@ + ivname0 + "] = "@ + sbody.1 + "; }"@;
                    assert(ivname@ == ivname0);
                    assert(elemty@ == elemty0);
                    assert(alloc@ =~= alloc0);
                    assert(forloop@ =~= forloop0);
                    assert(self.stmts@.subrange(0, n0) =~= old(self).stmts@);
                    assert(self.stmts@.subrange(n0, self.stmts@.len() as int)
                        =~= self.stmts@.subrange(n0, n1) + self.stmts@.subrange(n1, n2) + seq![
                        self.stmts@[self.stmts@.len() - 2],
                        self.stmts@[self.stmts@.len() - 1],
                    ]);
                    assert(self.stmts@.subrange(n0, n1) =~= st2.subrange(n0, n1));
                    assert(st2.subrange(n0, n1) =~= st1.subrange(n0, n1));
                    assert(self.stmts@.subrange(n1, n2) =~= st2.subrange(n1, n2));
                    lemma_strs_match_concat(
                        self.stmts@.subrange(n0, n1),
                        self.stmts@.subrange(n1, n2),
                        slb,
                        sub,
                    );
                    lemma_strs_match_concat(
                        self.stmts@.subrange(n0, n1) + self.stmts@.subrange(n1, n2),
                        seq![
                            self.stmts@[self.stmts@.len() - 2],
                            self.stmts@[self.stmts@.len() - 1],
                        ],
                        slb + sub,
                        seq![alloc0, forloop0],
                    );
                    let spec = c_expr(old(scopes)@, args@, *e, k);
                    assert(spec.0 == slb + sub + seq![alloc0, forloop0]);
                    assert(strs_match(
                        self.stmts@.subrange(n0, self.stmts@.len() as int),
                        spec.0,
                    ));
                }
                "res".to_owned()
            },
        }
    }
}


impl CodegenContext {
    /// Compile the definition of a reference, when it has one: a returned
    /// argument or index variable has none and goes by name.
    pub fn compile_arg_or_expr<'a>(
        &mut self,
        scopes: &mut ScopeStack<'a, TypedAst>,
        args: &Vec<Avis<TypedAst>>,
        r: ArgOrVar,
    ) -> (tx: Option<String>)
        requires
            resolvable(old(scopes)@, r, ref_measure(r), args@.len() as nat),
        ensures
            final(scopes)@ == old(scopes)@,
            match r {
                ArgOrVar::Var(k) => match tx {
                    Some(t) => {
                        &&& stack_find_ssa(old(scopes)@, k.0 as nat) is Some
                        &&& t@ == c_expr(
                            old(scopes)@,
                            args@,
                            stack_find_ssa(old(scopes)@, k.0 as nat)->0,
                            k.0 as nat,
                        ).1
                        &&& final(self).stmts@.len() == old(self).stmts@.len() + c_expr(
                            old(scopes)@,
                            args@,
                            stack_find_ssa(old(scopes)@, k.0 as nat)->0,
                            k.0 as nat,
                        ).0.len()
                        &&& final(self).stmts@.subrange(0, old(self).stmts@.len() as int) == old(
                            self,
                        ).stmts@
                        &&& strs_match(
                            final(self).stmts@.subrange(
                                old(self).stmts@.len() as int,
                                final(self).stmts@.len() as int,
                            ),
                            c_expr(
                                old(scopes)@,
                                args@,
                                stack_find_ssa(old(scopes)@, k.0 as nat)->0,
                                k.0 as nat,
                            ).0,
                        )
                    },
                    None => false,
                },
                _ => tx is None && *final(self) == *old(self),
            },
    {
        match r {
            ArgOrVar::Var(k) => {
                let e = match scopes.find_ssa(k) {
                    Some(e) => e,
                    None => {
                        proof {
                            assert(false);
                        }
                        return None;
                    },
                };
                Some(self.compile_expr(scopes, args, e, Ghost(k.0 as nat)))
            },
            _ => None,
        }
    }

    /// Emit one C function for a well-formed typed function definition:
    /// the signature from the inferred types, the hoisted statements in
    /// def-before-use order, and the final `return`.
    pub fn compile_fundef(&mut self, fundef: &Fundef<TypedAst>) -> (out: String)
        requires
            wf_fundef(*fundef),
            old(self).stmts@.len() == 0,
        ensures
            final(self).stmts@.len() == 0,
            out@ == c_fundef_text(*fundef),
    {
        let mut scopes: ScopeStack<TypedAst> = ScopeStack::new();
        scopes.push_scope(&fundef.block);
        proof {
            assert(scopes@ =~= seq![fundef.block]);
            assert(resolvable(
                scopes@,
                fundef.block.ret,
                ref_measure(fundef.block.ret),
                fundef.args@.len() as nat,
            )) by {
                assert(resolvable(
                    seq![fundef.block],
                    fundef.block.ret,
                    fundef.block.local_vars.next_key(),
                    fundef.args@.len() as nat,
                ));
            }
        }
        // the return type and the signature
        let ret_ty = match fundef.block.ret {
            ArgOrVar::Arg(i) => type_text(&fundef.args[i].ty),
            ArgOrVar::Var(k) | ArgOrVar::Iv(k) => {
                match scopes.find_key(k) {
                    Some(a) => type_text(&a.ty),
                    None => {
                        proof {
                            assert(false);
                        }
                        String::new()
                    },
                }
            },
        };
        let mut out = ret_ty;
        out.append(" DSL_");
        out.append(fundef.name.as_str());
        out.append("(");
        let mut i: usize = 0;
        while i < fundef.args.len()
            invariant
                i <= fundef.args@.len(),
                out@ == c_of_type(ref_c_type(seq![fundef.block], fundef.args@, fundef.block.ret))
                    + " DSL_"@ + fundef.name@ + "("@ + c_params(fundef.args@.take(i as int)),
            decreases fundef.args@.len() - i,
        {
            proof {
                assert(fundef.args@.take(i + 1).drop_last() =~= fundef.args@.take(i as int));
                assert(fundef.args@.take(i + 1).last() == fundef.args@[i as int]);
                assert(fundef.args@.take(i + 1)[0] == fundef.args@[0]);
            }
            if i > 0 {
                out.append(", ");
            }
            let ty = type_text(&fundef.args[i].ty);
            out.append(ty.as_str());
            out.append(" ");
            out.append(fundef.args[i].name.as_str());
            i = i + 1;
        }
        proof {
            assert(fundef.args@.take(fundef.args@.len() as int) =~= fundef.args@);
        }
        out.append(") {\n");
        // the return expression, hoisting its dependencies
        let ret_code = match self.compile_arg_or_expr(&mut scopes, &fundef.args, fundef.block.ret) {
            Some(t) => t,
            None => {
                match fundef.block.ret {
                    ArgOrVar::Arg(ii) => fundef.args[ii].name.clone(),
                    ArgOrVar::Var(k) | ArgOrVar::Iv(k) => {
                        match scopes.find_key(k) {
                            Some(a) => a.name.clone(),
                            None => {
                                proof {
                                    assert(false);
                                }
                                String::new()
                            },
                        }
                    },
                }
            },
        };
        // flush the hoisted statements, in def-before-use order
        let ghost specstmts = c_ret(*fundef).0;
        proof {
            assert(self.stmts@.subrange(0, self.stmts@.len() as int) =~= self.stmts@);
            assert(strs_match(self.stmts@, specstmts));
        }
        let mut j: usize = 0;
        while j < self.stmts.len()
            invariant
                j <= self.stmts@.len(),
                strs_match(self.stmts@, specstmts),
                out@ == c_of_type(ref_c_type(seq![fundef.block], fundef.args@, fundef.block.ret))
                    + " DSL_"@ + fundef.name@ + "("@ + c_params(fundef.args@) + ") {\n"@ + lines(
                    specstmts.take(j as int),
                ),
            decreases self.stmts@.len() - j,
        {
            proof {
                assert(specstmts.take(j + 1).drop_last() =~= specstmts.take(j as int));
                assert(specstmts.take(j + 1).last() == specstmts[j as int]);
            }
            out.append("    ");
            out.append(self.stmts[j].as_str());
            out.append("\n");
            j = j + 1;
        }
        proof {
            assert(specstmts.take(specstmts.len() as int) =~= specstmts);
        }
        self.stmts.clear();
        out.append("    return ");
        out.append(ret_code.as_str());
        out.append(";\n}\n");
        proof {
            assert(ret_code@ == c_ret(*fundef).1);
            assert(out@ =~= c_fundef_text(*fundef));
        }
        out
    }

    /// Emit the whole translation unit for a well-formed typed program.
    pub fn compile_program(&mut self, program: &Program<TypedAst>) -> (out: String)
        requires
            wf_program(*program),
            old(self).stmts@.len() == 0,
        ensures
            out@ == c_program_text(*program),
    {
        // `malloc` needs <stdlib.h>: scan the top-level scopes for a
        // comprehension (nested ones always sit inside a top-level one)
        let mut needs_stdlib = false;
        let ghost prog = *program;
        let mut i: usize = 0;
        while i < program.fundefs.len() && !needs_stdlib
            invariant
                i <= program.fundefs@.len(),
                prog == *program,
                !needs_stdlib ==> forall|i2: int, k: nat|
                    0 <= i2 < i && (#[trigger] prog.fundefs@[i2].block.local_ssa@.dom().contains(
                        k,
                    )) ==> !(prog.fundefs@[i2].block.local_ssa@[k] matches Expr::Tensor(_)),
                needs_stdlib ==> has_comprehension(prog),
            decreases program.fundefs@.len() - i,
        {
            let entries = program.fundefs[i].block.local_ssa.iter();
            let mut j: usize = 0;
            while j < entries.len() && !needs_stdlib
                invariant
                    j <= entries@.len(),
                    prog == *program,
                    i < prog.fundefs@.len(),
                    forall|jj: int|
                        0 <= jj < entries@.len() ==> {
                            &&& prog.fundefs@[i as int].block.local_ssa@.dom().contains(
                                (#[trigger] entries@[jj]).0.0 as nat,
                            )
                            &&& *entries@[jj].1 == prog.fundefs@[i as int].block.local_ssa@[
                                entries@[jj].0.0 as nat
                            ]
                        },
                    forall|k: nat|
                        prog.fundefs@[i as int].block.local_ssa@.dom().contains(k)
                            ==> exists|jj: int|
                            0 <= jj < entries@.len() && (#[trigger] entries@[jj].0.0) as nat == k,
                    !needs_stdlib ==> forall|jj: int|
                        0 <= jj < j ==> !(*(#[trigger] entries@[jj]).1 matches Expr::Tensor(_)),
                    needs_stdlib ==> has_comprehension(prog),
                decreases entries@.len() - j,
            {
                match entries[j].1 {
                    Expr::Tensor(_) => {
                        needs_stdlib = true;
                        proof {
                            let k = entries@[j as int].0.0 as nat;
                            assert(prog.fundefs@[i as int].block.local_ssa@.dom().contains(k));
                            assert(prog.fundefs@[i as int].block.local_ssa@[k]
                                matches Expr::Tensor(_));
                        }
                    },
                    _ => {},
                }
                j = j + 1;
            }
            proof {
                if !needs_stdlib {
                    assert forall|k: nat|
                        (#[trigger] prog.fundefs@[i as int].block.local_ssa@.dom().contains(
                            k,
                        )) implies !(prog.fundefs@[i as int].block.local_ssa@[k]
                        matches Expr::Tensor(_)) by {
                        let jj = choose|jj: int|
                            0 <= jj < entries@.len() && (#[trigger] entries@[jj].0.0) as nat == k;
                        assert(!(*entries@[jj].1 matches Expr::Tensor(_)));
                    }
                }
            }
            i = i + 1;
        }
        proof {
            if !needs_stdlib {
                assert(!has_comprehension(prog));
            }
        }
        let mut out = if needs_stdlib {
            "#include <stdlib.h>\n#include <stdbool.h>\n#include <stdint.h>\n".to_owned()
        } else {
            "#include <stdbool.h>\n#include <stdint.h>\n".to_owned()
        };
        let mut fi: usize = 0;
        while fi < program.fundefs.len()
            invariant
                fi <= program.fundefs@.len(),
                prog == *program,
                wf_program(prog),
                self.stmts@.len() == 0,
                out@ == (if has_comprehension(prog) {
                    "#include <stdlib.h>\n#include <stdbool.h>\n#include <stdint.h>\n"@
                } else {
                    "#include <stdbool.h>\n#include <stdint.h>\n"@
                }) + c_fundefs_text(prog.fundefs@.take(fi as int)),
            decreases program.fundefs@.len() - fi,
        {
            proof {
                assert(prog.fundefs@.take(fi + 1).drop_last() =~= prog.fundefs@.take(fi as int));
                assert(prog.fundefs@.take(fi + 1).last() == prog.fundefs@[fi as int]);
                assert(wf_fundef(prog.fundefs@[fi as int]));
            }
            out.append("\n");
            let ftext = self.compile_fundef(&program.fundefs[fi]);
            out.append(ftext.as_str());
            fi = fi + 1;
        }
        proof {
            assert(prog.fundefs@.take(prog.fundefs@.len() as int) =~= prog.fundefs@);
        }
        out
    }
}

} // verus!
