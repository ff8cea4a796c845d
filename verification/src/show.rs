//! A human-readable dump of a typed program: one line per function, the
//! argument names and the name of the returned value.  For inspection
//! only; the reconstruction pass gives the full expression trees.

use vstd::prelude::*;

use crate::ast::{
    stack_find_key, wf_fundef, wf_program, ArgOrVar, Avis, Fundef, Program, TypedAst,
};
use crate::traverse::{ScopeStack, Visit};

verus! {

/// The dumped names of the arguments, comma separated.
pub open spec fn show_args(args: Seq<Avis<TypedAst>>) -> Seq<char>
    decreases args.len(),
{
    if args.len() == 0 {
        Seq::empty()
    } else if args.len() == 1 {
        args[0].name@
    } else {
        show_args(args.drop_last()) + ", "@ + args.last().name@
    }
}

/// The name of the returned value.
pub open spec fn show_ret(f: Fundef<TypedAst>) -> Seq<char> {
    match f.block.ret {
        ArgOrVar::Arg(i) => if i < f.args@.len() {
            f.args@[i as int].name@
        } else {
            Seq::empty()
        },
        ArgOrVar::Var(k) | ArgOrVar::Iv(k) => match stack_find_key(seq![f.block], k.0 as nat) {
            Some(a) => a.name@,
            None => Seq::empty(),
        },
    }
}

/// One dumped line per function.
pub open spec fn show_fundef_text(f: Fundef<TypedAst>) -> Seq<char> {
    "fn "@ + f.name@ + "("@ + show_args(f.args@) + ") = "@ + show_ret(f) + "\n"@
}

/// The whole dump.
pub open spec fn show_program_text(fs: Seq<Fundef<TypedAst>>) -> Seq<char>
    decreases fs.len(),
{
    if fs.len() == 0 {
        Seq::empty()
    } else {
        show_program_text(fs.drop_last()) + show_fundef_text(fs.last())
    }
}

/// The dump under construction.
pub struct Show {
    pub buffer: String,
}

impl Show {
    pub fn new() -> (r: Self)
        ensures
            r.buffer@ == Seq::<char>::empty(),
    {
        Show { buffer: String::new() }
    }

    /// Append one function's line.
    fn show_fundef(&mut self, f: &Fundef<TypedAst>)
        requires
            wf_fundef(*f),
        ensures
            final(self).buffer@ == old(self).buffer@ + show_fundef_text(*f),
    {
        let mut scopes: ScopeStack<TypedAst> = ScopeStack::new();
        scopes.push_scope(&f.block);
        proof {
            assert(scopes@ =~= seq![f.block]);
            assert(crate::ast::resolvable(
                seq![f.block],
                f.block.ret,
                f.block.local_vars.next_key(),
                f.args@.len() as nat,
            ));
        }
        self.buffer.append("fn ");
        self.buffer.append(f.name.as_str());
        self.buffer.append("(");
        let mut i: usize = 0;
        while i < f.args.len()
            invariant
                i <= f.args@.len(),
                self.buffer@ == old(self).buffer@ + "fn "@ + f.name@ + "("@ + show_args(
                    f.args@.take(i as int),
                ),
            decreases f.args@.len() - i,
        {
            proof {
                assert(f.args@.take(i + 1).drop_last() =~= f.args@.take(i as int));
                assert(f.args@.take(i + 1).last() == f.args@[i as int]);
                assert(f.args@.take(i + 1)[0] == f.args@[0]);
            }
            if i > 0 {
                self.buffer.append(", ");
            }
            self.buffer.append(f.args[i].name.as_str());
            i = i + 1;
        }
        proof {
            assert(f.args@.take(f.args@.len() as int) =~= f.args@);
        }
        self.buffer.append(") = ");
        match f.block.ret {
            ArgOrVar::Arg(ii) => {
                self.buffer.append(f.args[ii].name.as_str());
            },
            ArgOrVar::Var(k) | ArgOrVar::Iv(k) => {
                match scopes.find_key(k) {
                    Some(a) => {
                        self.buffer.append(a.name.as_str());
                    },
                    None => {
                        proof {
                            assert(false);
                        }
                    },
                }
            },
        }
        self.buffer.append("\n");
    }

    /// Append the whole program's dump.
    pub fn show_program(&mut self, program: &Program<TypedAst>)
        requires
            wf_program(*program),
        ensures
            final(self).buffer@ == old(self).buffer@ + show_program_text(program.fundefs@),
    {
        let ghost fs = program.fundefs@;
        let mut i: usize = 0;
        while i < program.fundefs.len()
            invariant
                wf_program(*program),
                fs == program.fundefs@,
                i <= fs.len(),
                self.buffer@ == old(self).buffer@ + show_program_text(fs.take(i as int)),
            decreases fs.len() - i,
        {
            proof {
                assert(fs.take(i + 1).drop_last() =~= fs.take(i as int));
                assert(fs.take(i + 1).last() == fs[i as int]);
                assert(wf_fundef(fs[i as int]));
            }
            self.show_fundef(&program.fundefs[i]);
            i = i + 1;
        }
        proof {
            assert(fs.take(fs.len() as int) =~= fs);
        }
    }
}

/// The names alone, one line each.
pub open spec fn show_names_text(fs: Seq<Fundef<TypedAst>>) -> Seq<char>
    decreases fs.len(),
{
    if fs.len() == 0 {
        Seq::empty()
    } else {
        show_names_text(fs.drop_last()) + "fn "@ + fs.last().name@ + "\n"@
    }
}

impl Visit<&Program<TypedAst>> for Show {
    type Out = ();

    /// A visit without preconditions dumps the function names alone.
    fn visit(&mut self, node: &Program<TypedAst>) -> (r: Self::Out)
        ensures
            final(self).buffer@ == old(self).buffer@ + show_names_text(node.fundefs@),
    {
        let ghost fs = node.fundefs@;
        let mut i: usize = 0;
        while i < node.fundefs.len()
            invariant
                fs == node.fundefs@,
                i <= fs.len(),
                self.buffer@ == old(self).buffer@ + show_names_text(fs.take(i as int)),
            decreases fs.len() - i,
        {
            proof {
                assert(fs.take(i + 1).drop_last() =~= fs.take(i as int));
                assert(fs.take(i + 1).last() == fs[i as int]);
            }
            self.buffer.append("fn ");
            self.buffer.append(node.fundefs[i].name.as_str());
            self.buffer.append("\n");
            i = i + 1;
        }
        proof {
            assert(fs.take(fs.len() as int) =~= fs);
        }
    }
}

} // verus!
