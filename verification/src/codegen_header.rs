//! The header emitter: per function, a foreign-function declaration of the
//! emitted C symbol plus a thin same-signature wrapper that forwards to
//! it.  A consumer of the typed program, peripheral to the compilation
//! pipeline itself.

use vstd::prelude::*;

use crate::ast::{
    stack_find_key, wf_fundef, wf_program, ArgOrVar, Avis, BaseType, Fundef, Program, Shape, Type,
    TypedAst,
};
use crate::traverse::ScopeStack;

verus! {

/// The host-language spelling of a value type: vectors come back as
/// growable arrays.
pub open spec fn h_of_type(t: Type) -> Seq<char> {
    match t.shp {
        Shape::Scalar => match t.basetype {
            BaseType::U32 => "u32"@,
            BaseType::Bool => "bool"@,
        },
        Shape::Vector(_) => match t.basetype {
            BaseType::U32 => "Vec<u32>"@,
            BaseType::Bool => "Vec<bool>"@,
        },
    }
}

/// The parameter list: `<name>: <type>`, comma separated.
pub open spec fn h_params(args: Seq<Avis<TypedAst>>) -> Seq<char>
    decreases args.len(),
{
    if args.len() == 0 {
        Seq::empty()
    } else if args.len() == 1 {
        args[0].name@ + ": "@ + h_of_type(args[0].ty)
    } else {
        h_params(args.drop_last()) + ", "@ + args.last().name@ + ": "@ + h_of_type(args.last().ty)
    }
}

/// The forwarded argument names, comma separated.
pub open spec fn h_args(args: Seq<Avis<TypedAst>>) -> Seq<char>
    decreases args.len(),
{
    if args.len() == 0 {
        Seq::empty()
    } else if args.len() == 1 {
        args[0].name@
    } else {
        h_args(args.drop_last()) + ", "@ + args.last().name@
    }
}

/// The recorded type of the returned reference.
pub open spec fn h_ret_ty(f: Fundef<TypedAst>) -> Seq<char> {
    match f.block.ret {
        ArgOrVar::Arg(i) => if i < f.args@.len() {
            h_of_type(f.args@[i as int].ty)
        } else {
            Seq::empty()
        },
        ArgOrVar::Var(k) | ArgOrVar::Iv(k) => match stack_find_key(seq![f.block], k.0 as nat) {
            Some(a) => h_of_type(a.ty),
            None => Seq::empty(),
        },
    }
}

/// The emitted text for one function: the foreign declaration and the
/// same-name wrapper.
pub open spec fn h_fundef_text(f: Fundef<TypedAst>) -> Seq<char> {
    "unsafe extern \"C\" {\n    fn DSL_"@ + f.name@ + "("@ + h_params(f.args@) + ") -> "@
        + h_ret_ty(f) + ";\n}\n\nfn "@ + f.name@ + "("@ + h_params(f.args@) + ") -> "@ + h_ret_ty(
        f,
    ) + " {\n    unsafe { DSL_"@ + f.name@ + "("@ + h_args(f.args@) + ") }\n}\n"@
}

/// The whole emitted header.
pub open spec fn h_program_text(fs: Seq<Fundef<TypedAst>>) -> Seq<char>
    decreases fs.len(),
{
    if fs.len() == 0 {
        Seq::empty()
    } else {
        h_program_text(fs.drop_last()) + h_fundef_text(fs.last())
    }
}

/// The header emitter: accumulates the emitted text.
pub struct CompileHeader {
    pub header: String,
}

fn h_type_text(t: &Type) -> (r: &'static str)
    ensures
        r@ == h_of_type(*t),
{
    match (&t.shp, t.basetype) {
        (Shape::Scalar, BaseType::U32) => "u32",
        (Shape::Scalar, BaseType::Bool) => "bool",
        (Shape::Vector(_), BaseType::U32) => "Vec<u32>",
        (Shape::Vector(_), BaseType::Bool) => "Vec<bool>",
    }
}

impl CompileHeader {
    pub fn new() -> (r: Self)
        ensures
            r.header@ == Seq::<char>::empty(),
    {
        CompileHeader { header: String::new() }
    }

    /// Append the declaration and wrapper for one function.
    #[verifier::rlimit(100)]
    #[verifier::spinoff_prover]
    pub fn trav_fundef(&mut self, f: &Fundef<TypedAst>)
        requires
            wf_fundef(*f),
        ensures
            final(self).header@ == old(self).header@ + h_fundef_text(*f),
    {
        let mut scopes: ScopeStack<TypedAst> = ScopeStack::new();
        scopes.push_scope(&f.block);
        proof {
            assert(scopes@ =~= seq![f.block]);
            assert(crate::ast::resolvable(
                seq![f.block],
                f.block.ret,
                f.block.local_vars.next_key(),
                f.args@.len() as nat,
            ));
        }
        let ret_ty = match f.block.ret {
            ArgOrVar::Arg(i) => h_type_text(&f.args[i].ty),
            ArgOrVar::Var(k) | ArgOrVar::Iv(k) => {
                match scopes.find_key(k) {
                    Some(a) => h_type_text(&a.ty),
                    None => {
                        proof {
                            assert(false);
                        }
                        ""
                    },
                }
            },
        };
        let mut params = String::new();
        let mut names = String::new();
        let mut i: usize = 0;
        while i < f.args.len()
            invariant
                i <= f.args@.len(),
                params@ == h_params(f.args@.take(i as int)),
                names@ == h_args(f.args@.take(i as int)),
            decreases f.args@.len() - i,
        {
            proof {
                assert(f.args@.take(i + 1).drop_last() =~= f.args@.take(i as int));
                assert(f.args@.take(i + 1).last() == f.args@[i as int]);
                assert(f.args@.take(i + 1)[0] == f.args@[0]);
            }
            if i > 0 {
                params.append(", ");
                names.append(", ");
            }
            params.append(f.args[i].name.as_str());
            params.append(": ");
            params.append(h_type_text(&f.args[i].ty));
            names.append(f.args[i].name.as_str());
            i = i + 1;
        }
        proof {
            assert(f.args@.take(f.args@.len() as int) =~= f.args@);
        }
        let mut out = "unsafe extern \"C\" {\n    fn DSL_".to_owned();
        out.append(f.name.as_str());
        out.append("(");
        out.append(params.as_str());
        out.append(") -> ");
        out.append(ret_ty);
        out.append(";\n}\n\nfn ");
        proof {
            assert(out@ =~= "unsafe extern \"C\" {\n    fn DSL_"@ + f.name@ + "("@ + h_params(
                f.args@,
            ) + ") -> "@ + h_ret_ty(*f) + ";\n}\n\nfn "@);
        }
        let ghost part1 = out@;
        out.append(f.name.as_str());
        out.append("(");
        out.append(params.as_str());
        out.append(") -> ");
        out.append(ret_ty);
        out.append(" {\n    unsafe { DSL_");
        proof {
            assert(out@ =~= part1 + f.name@ + "("@ + h_params(f.args@) + ") -> "@ + h_ret_ty(*f)
                + " {\n    unsafe { DSL_"@);
        }
        let ghost part2 = out@;
        out.append(f.name.as_str());
        out.append("(");
        out.append(names.as_str());
        out.append(") }\n}\n");
        proof {
            assert(out@ =~= part2 + f.name@ + "("@ + h_args(f.args@) + ") }\n}\n"@);
            assert(out@ =~= h_fundef_text(*f));
        }
        self.header.append(out.as_str());
    }

    /// Append the whole program's header.
    pub fn trav_program(&mut self, program: &Program<TypedAst>)
        requires
            wf_program(*program),
        ensures
            final(self).header@ == old(self).header@ + h_program_text(program.fundefs@),
    {
        let ghost fs = program.fundefs@;
        let mut i: usize = 0;
        while i < program.fundefs.len()
            invariant
                wf_program(*program),
                fs == program.fundefs@,
                i <= fs.len(),
                self.header@ == old(self).header@ + h_program_text(fs.take(i as int)),
            decreases fs.len() - i,
        {
            proof {
                assert(fs.take(i + 1).drop_last() =~= fs.take(i as int));
                assert(fs.take(i + 1).last() == fs[i as int]);
                assert(wf_fundef(fs[i as int]));
            }
            self.trav_fundef(&program.fundefs[i]);
            i = i + 1;
        }
        proof {
            assert(fs.take(fs.len() as int) =~= fs);
        }
    }
}

} // verus!
