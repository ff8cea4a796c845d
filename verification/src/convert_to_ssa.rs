//! The SSA builder: consumes a surface parse tree and assembles a scoped,
//! untyped SSA [`Program`].
//!
//! For every evaluated sub-expression it mints a fresh synthetic name (a
//! counter-based name starting with an underscore, which no user-written
//! identifier can, reset per function), inserts a new identifier into the
//! current scope's arena, records the defining expression in the current
//! scope's SSA table, and returns a `Var` reference.  A bare identifier is
//! resolved through a stack of name-to-reference maps that parallels the
//! arena stack; an assignment re-binds a surface name to a new reference
//! (shadowing — the old binding stays in the map and the old key is never
//! reused).  A comprehension evaluates its bounds in the enclosing scope,
//! then converts its body inside a freshly pushed scope that binds the
//! index variable.
//!
//! The one per-function key counter is threaded through all scopes: a
//! nested scope starts minting where the enclosing one paused, and the
//! enclosing one resumes past every key the nested scope issued, so no key
//! is ever reused within a function, even after its scope has closed.

use vstd::prelude::*;

use crate::arena::{Arena, Key, SecondaryArena};
use crate::ast::{
    block_ivs_declared, block_ssa_unique, expr_ivs_declared, expr_resolvable, expr_ssa_unique,
    ref_below, ref_measure, resolvable, stack_find_key, stack_find_ssa, wf_fundef, ArgOrVar, Avis,
    Binary, Block, Expr, Fundef, IndexVector, Program, Tensor, Unary, UntypedAst,
};
use crate::scanparse::parse_ast;
use crate::traverse::{
    finds_agree, lemma_expr_resolvable_agree, lemma_push_preserves_agree, lemma_resolvable_agree,
    lemma_resolvable_widen,
};

verus! {

/// An error of SSA construction, fatal for the enclosing function only.
#[derive(Clone, Copy, Debug, PartialEq, Eq, Structural)]
pub enum SsaError {
    /// The function body ended without a return statement.
    MissingReturnStatement,
    /// An identifier was used that no argument, assignment, or enclosing
    /// index variable binds.
    UnresolvedIdentifier,
}

/// One scope under construction: its identifier arena, its SSA table, and
/// the name-to-reference bindings made in it (latest binding last).
pub struct BuildScope {
    pub vars: Arena<Avis<UntypedAst>>,
    pub ssa: SecondaryArena<Expr<UntypedAst>>,
    pub names: Vec<(String, ArgOrVar)>,
    /// The first key this scope may mint; all its keys lie at or above it.
    pub start: usize,
    /// The index variable this scope declares, if it is a comprehension
    /// body.
    pub iv: Option<Key>,
}

/// The SSA builder's state: the scope currently built and the suspended
/// enclosing scopes, plus the per-function fresh-name counter.
pub struct ConvertToSsa {
    pub uid: usize,
    pub nargs: usize,
    pub cur: BuildScope,
    pub outer: Vec<BuildScope>,
}

// ---------------------------------------------------------------------------
// Specification model of the builder state.
// ---------------------------------------------------------------------------

/// The scope as the IR will freeze it (the return reference is filled in
/// only when the scope is packaged, so it is immaterial here).
pub open spec fn to_block(s: BuildScope) -> Block<UntypedAst> {
    Block { local_vars: s.vars, local_ssa: s.ssa, ret: ArgOrVar::Arg(0) }
}

/// All scopes of the builder, outermost first, the current one last.
pub open spec fn scopes_of(c: ConvertToSsa) -> Seq<BuildScope> {
    c.outer@.push(c.cur)
}

/// The scope stack a traversal of the frozen IR would see.
pub open spec fn stack_view(scopes: Seq<BuildScope>) -> Seq<Block<UntypedAst>> {
    scopes.map_values(|s: BuildScope| to_block(s))
}

/// Name lookup within one scope: the latest binding wins.
pub open spec fn lookup_scope_names(names: Seq<(String, ArgOrVar)>, x: Seq<char>) -> Option<
    ArgOrVar,
>
    decreases names.len(),
{
    if names.len() == 0 {
        None
    } else if names.last().0@ == x {
        Some(names.last().1)
    } else {
        lookup_scope_names(names.drop_last(), x)
    }
}

/// Name lookup through the scope stack, innermost scope first.
pub open spec fn lookup_name(scopes: Seq<BuildScope>, x: Seq<char>) -> Option<ArgOrVar>
    decreases scopes.len(),
{
    if scopes.len() == 0 {
        None
    } else {
        match lookup_scope_names(scopes.last().names@, x) {
            Some(r) => Some(r),
            None => lookup_name(scopes.drop_last(), x),
        }
    }
}

/// The set of surface names currently bound.
pub open spec fn bound_env(scopes: Seq<BuildScope>) -> Set<Seq<char>> {
    Set::new(|x: Seq<char>| lookup_name(scopes, x) is Some)
}

/// The key counter: the next key the current scope will mint.
pub open spec fn next_of(c: ConvertToSsa) -> nat {
    c.cur.vars.next_key()
}

/// Per-scope invariant: the SSA discipline holds of what is built so far,
/// and every declared key lies in `[start, next)`.
pub open spec fn scope_inv(s: BuildScope) -> bool {
    &&& block_ssa_unique(to_block(s))
    &&& block_ivs_declared(to_block(s), scope_iv(s))
    &&& s.start <= s.vars.next_key()
    &&& forall|k: nat| #[trigger] s.vars@.dom().contains(k) ==> s.start <= k
}

/// The index-vector key a scope declares, as the model sees it.
pub open spec fn scope_iv(s: BuildScope) -> Option<nat> {
    match s.iv {
        Some(k) => Some(k.0 as nat),
        None => None,
    }
}

/// The builder invariant.  Scopes nest: each suspended scope's counter
/// stands at or below the next scope's start, so key ranges never overlap
/// and no key is reused.  Every name binding made at some level refers to
/// a key minted at that level or outside it, and its whole reference graph
/// resolves in the current scope stack.
pub open spec fn conv_inv(c: ConvertToSsa) -> bool {
    let scopes = scopes_of(c);
    &&& scope_inv(c.cur)
    &&& forall|i: int| 0 <= i < c.outer@.len() ==> scope_inv(#[trigger] c.outer@[i])
    &&& forall|i: int|
        0 <= i < c.outer@.len() ==> (#[trigger] c.outer@[i].vars.next_key()) <= (if i + 1
            < c.outer@.len() {
            c.outer@[i + 1].start as nat
        } else {
            c.cur.start as nat
        })
    &&& forall|i: int, j: int|
        0 <= i < scopes.len() && 0 <= j < scopes[i].names@.len() ==> {
            let r = (#[trigger] scopes[i].names@[j]).1;
            &&& ref_below(r, scopes[i].vars.next_key())
            &&& (r matches ArgOrVar::Arg(a) ==> a < c.nargs)
            &&& resolvable(stack_view(scopes), r, ref_measure(r), c.nargs as nat)
        }
}

// ---------------------------------------------------------------------------
// Fresh synthetic names.
// ---------------------------------------------------------------------------

/// The decimal digit character for `d`.
pub open spec fn digit_char(d: nat) -> char {
    if d == 0 {
        '0'
    } else if d == 1 {
        '1'
    } else if d == 2 {
        '2'
    } else if d == 3 {
        '3'
    } else if d == 4 {
        '4'
    } else if d == 5 {
        '5'
    } else if d == 6 {
        '6'
    } else if d == 7 {
        '7'
    } else if d == 8 {
        '8'
    } else {
        '9'
    }
}

/// The decimal numeral of `n`.
pub open spec fn dec_of(n: nat) -> Seq<char>
    decreases n,
{
    if n < 10 {
        seq![digit_char(n)]
    } else {
        dec_of(n / 10).push(digit_char(n % 10))
    }
}

/// The synthetic name the builder gives the `n`-th minted value.
pub open spec fn fresh_name_of(n: nat) -> Seq<char> {
    "_ssa_"@ + dec_of(n)
}

fn digit_string(d: usize) -> (s: String)
    requires
        d < 10,
    ensures
        s@ == seq![digit_char(d as nat)],
{
    let s = match d {
        0 => "0",
        1 => "1",
        2 => "2",
        3 => "3",
        4 => "4",
        5 => "5",
        6 => "6",
        7 => "7",
        8 => "8",
        _ => "9",
    };
    proof {
        reveal_strlit("0");
        reveal_strlit("1");
        reveal_strlit("2");
        reveal_strlit("3");
        reveal_strlit("4");
        reveal_strlit("5");
        reveal_strlit("6");
        reveal_strlit("7");
        reveal_strlit("8");
        reveal_strlit("9");
        assert(s@ =~= seq![digit_char(d as nat)]);
    }
    s.to_owned()
}

pub fn dec_string(n: usize) -> (s: String)
    ensures
        s@ == dec_of(n as nat),
    decreases n,
{
    if n < 10 {
        digit_string(n)
    } else {
        let mut s = dec_string(n / 10);
        let d = digit_string(n % 10);
        s.append(d.as_str());
        proof {
            assert(s@ =~= dec_of(n as nat));
        }
        s
    }
}

/// A name lookup within one scope, latest binding first.
fn scope_find_name(names: &Vec<(String, ArgOrVar)>, x: &String) -> (r: Option<ArgOrVar>)
    ensures
        r == lookup_scope_names(names@, x@),
{
    let mut i: usize = names.len();
    proof {
        assert(names@.take(i as int) =~= names@);
    }
    while i > 0
        invariant
            i <= names@.len(),
            lookup_scope_names(names@, x@) == lookup_scope_names(names@.take(i as int), x@),
        decreases i,
    {
        i = i - 1;
        proof {
            assert(names@.take(i + 1).last() == names@[i as int]);
            assert(names@.take(i + 1).drop_last() =~= names@.take(i as int));
        }
        if names[i].0.eq(x) {
            return Some(names[i].1);
        }
    }
    proof {
        assert(names@.take(0) =~= Seq::<(String, ArgOrVar)>::empty());
    }
    None
}

// ---------------------------------------------------------------------------
// Lookup is stable under the builder's three mutations: growing the
// current scope by a fresh key, pushing an empty scope, and popping a
// scope none of whose keys lie below the point of interest.
// ---------------------------------------------------------------------------

/// Lookup at `k` agrees between two stacks that differ only in their last
/// block, provided the two last blocks look the same at `k`.
proof fn lemma_agree_update_last(s1: Seq<Block<UntypedAst>>, s2: Seq<Block<UntypedAst>>, k: nat)
    requires
        s1.len() == s2.len(),
        s1.len() > 0,
        s1.drop_last() == s2.drop_last(),
        s1.last().local_vars@.dom().contains(k) == s2.last().local_vars@.dom().contains(k),
        s1.last().local_vars@.dom().contains(k) ==> s1.last().local_vars@[k].key
            == s2.last().local_vars@[k].key && s1.last().local_vars@[k].name@
            == s2.last().local_vars@[k].name@,
        s1.last().local_ssa@.dom().contains(k) == s2.last().local_ssa@.dom().contains(k),
        s1.last().local_ssa@.dom().contains(k) ==> s1.last().local_ssa@[k]
            == s2.last().local_ssa@[k],
    ensures
        finds_agree(s1, s2, k),
{
}

/// Pushing a block that does not declare `k` leaves lookup at `k` alone.
proof fn lemma_find_push_fresh(s: Seq<Block<UntypedAst>>, b: Block<UntypedAst>, k: nat)
    requires
        !b.local_vars@.dom().contains(k),
        !b.local_ssa@.dom().contains(k),
    ensures
        stack_find_key(s.push(b), k) == stack_find_key(s, k),
        stack_find_ssa(s.push(b), k) == stack_find_ssa(s, k),
{
    assert(s.push(b).drop_last() =~= s);
}

/// The per-scope SSA discipline carries over to a scope with the same
/// contents whose mint counter has moved forward.
proof fn lemma_block_unique_grow_next(
    b1: Block<UntypedAst>,
    b2: Block<UntypedAst>,
    allowed: Option<nat>,
)
    requires
        block_ssa_unique(b1),
        block_ivs_declared(b1, allowed),
        b2.local_vars@ == b1.local_vars@,
        b2.local_ssa@ == b1.local_ssa@,
        b1.local_vars.next_key() <= b2.local_vars.next_key(),
    ensures
        block_ssa_unique(b2),
        block_ivs_declared(b2, allowed),
{
    assert forall|k: nat| #[trigger] b2.local_vars@.dom().contains(k) implies k
        < b2.local_vars.next_key() by {
        assert(b1.local_vars@.dom().contains(k));
    }
}

/// Two blocks look the same at key `k`.
pub open spec fn block_agrees_at(b1: Block<UntypedAst>, b2: Block<UntypedAst>, k: nat) -> bool {
    &&& b1.local_vars@.dom().contains(k) == b2.local_vars@.dom().contains(k)
    &&& (b1.local_vars@.dom().contains(k) ==> b1.local_vars@[k].key == b2.local_vars@[k].key
        && b1.local_vars@[k].name@ == b2.local_vars@[k].name@)
    &&& b1.local_ssa@.dom().contains(k) == b2.local_ssa@.dom().contains(k)
    &&& (b1.local_ssa@.dom().contains(k) ==> b1.local_ssa@[k] == b2.local_ssa@[k])
}

/// Lookup at `k` agrees between two stacks of equal depth whose blocks all
/// look the same at `k`.
proof fn lemma_finds_agree_pointwise(s1: Seq<Block<UntypedAst>>, s2: Seq<Block<UntypedAst>>, k: nat)
    requires
        s1.len() == s2.len(),
        forall|i: int| 0 <= i < s1.len() ==> block_agrees_at(#[trigger] s1[i], s2[i], k),
    ensures
        finds_agree(s1, s2, k),
    decreases s1.len(),
{
    if s1.len() > 0 {
        assert(block_agrees_at(s1[s1.len() - 1], s2[s2.len() - 1], k));
        assert forall|i: int| 0 <= i < s1.drop_last().len() implies block_agrees_at(
            #[trigger] s1.drop_last()[i],
            s2.drop_last()[i],
            k,
        ) by {
            assert(s1[i] == s1.drop_last()[i]);
        }
        lemma_finds_agree_pointwise(s1.drop_last(), s2.drop_last(), k);
    }
}

/// Scope stacks with the same name bindings at every level resolve every
/// surface name alike.
proof fn lemma_lookup_same_names(s1: Seq<BuildScope>, s2: Seq<BuildScope>, x: Seq<char>)
    requires
        s1.len() == s2.len(),
        forall|i: int| 0 <= i < s1.len() ==> (#[trigger] s1[i]).names@ == s2[i].names@,
    ensures
        lookup_name(s1, x) == lookup_name(s2, x),
    decreases s1.len(),
{
    if s1.len() > 0 {
        assert(s1.last().names@ == s2.last().names@);
        assert forall|i: int| 0 <= i < s1.drop_last().len() implies (#[trigger] s1.drop_last()[i]).names@ == s2.drop_last()[i].names@ by {
            assert(s1[i] == s1.drop_last()[i]);
        }
        lemma_lookup_same_names(s1.drop_last(), s2.drop_last(), x);
    }
}

/// A successful name lookup hands back one of the recorded bindings.
proof fn lemma_lookup_scope_is_binding(names: Seq<(String, ArgOrVar)>, x: Seq<char>)
    requires
        lookup_scope_names(names, x) is Some,
    ensures
        exists|j: int|
            0 <= j < names.len() && (#[trigger] names[j]).1 == lookup_scope_names(names, x)->0,
    decreases names.len(),
{
    if names.last().0@ == x {
        assert(names[names.len() - 1].1 == lookup_scope_names(names, x)->0);
    } else {
        lemma_lookup_scope_is_binding(names.drop_last(), x);
        let j = choose|j: int|
            0 <= j < names.drop_last().len() && (#[trigger] names.drop_last()[j]).1
                == lookup_scope_names(names.drop_last(), x)->0;
        assert(names[j].1 == lookup_scope_names(names, x)->0);
    }
}

/// A successful name lookup hands back a binding of one of the scopes.
proof fn lemma_lookup_is_binding(scopes: Seq<BuildScope>, x: Seq<char>)
    requires
        lookup_name(scopes, x) is Some,
    ensures
        exists|i: int, j: int|
            0 <= i < scopes.len() && 0 <= j < scopes[i].names@.len() && (#[trigger] scopes[i].names@[j]).1 == lookup_name(scopes, x)->0,
    decreases scopes.len(),
{
    if lookup_scope_names(scopes.last().names@, x) is Some {
        lemma_lookup_scope_is_binding(scopes.last().names@, x);
        let j = choose|j: int|
            0 <= j < scopes.last().names@.len() && (#[trigger] scopes.last().names@[j]).1
                == lookup_scope_names(scopes.last().names@, x)->0;
        assert(scopes[scopes.len() - 1].names@[j].1 == lookup_name(scopes, x)->0);
    } else {
        lemma_lookup_is_binding(scopes.drop_last(), x);
        let (i, j) = choose|i: int, j: int|
            0 <= i < scopes.drop_last().len() && 0 <= j < scopes.drop_last()[i].names@.len() && (
            #[trigger] scopes.drop_last()[i].names@[j]).1 == lookup_name(scopes.drop_last(), x)->0;
        assert(scopes[i] == scopes.drop_last()[i]);
        assert(scopes[i].names@[j].1 == lookup_name(scopes, x)->0);
    }
}

/// Between two builder states of equal scope depth: every level keeps its
/// name bindings and its start, and its arena contents look the same at
/// every key below `bound` (fresh keys may have been added above it).
pub open spec fn levels_preserved(a: ConvertToSsa, b: ConvertToSsa, bound: nat) -> bool {
    let sa = scopes_of(a);
    let sb = scopes_of(b);
    &&& sa.len() == sb.len()
    &&& forall|i: int|
        0 <= i < sa.len() ==> (#[trigger] sb[i]).names@ == sa[i].names@ && sb[i].start
            == sa[i].start && sb[i].iv == sa[i].iv
    &&& forall|i: int, k: nat|
        0 <= i < sa.len() && k < bound ==> #[trigger] block_agrees_at(
            to_block(sa[i]),
            to_block(sb[i]),
            k,
        )
}

/// Level preservation composes, down to the smaller bound.
proof fn lemma_levels_trans(a: ConvertToSsa, b: ConvertToSsa, c: ConvertToSsa, bound: nat)
    requires
        levels_preserved(a, b, bound),
        levels_preserved(b, c, bound),
    ensures
        levels_preserved(a, c, bound),
{
    let sa = scopes_of(a);
    let sb = scopes_of(b);
    let sc = scopes_of(c);
    assert forall|i: int, k: nat|
        0 <= i < sa.len() && k < bound implies #[trigger] block_agrees_at(
        to_block(sa[i]),
        to_block(sc[i]),
        k,
    ) by {
        assert(block_agrees_at(to_block(sa[i]), to_block(sb[i]), k));
        assert(block_agrees_at(to_block(sb[i]), to_block(sc[i]), k));
    }
}

/// Level preservation with a larger bound is also preservation with a
/// smaller one.
proof fn lemma_levels_narrow(a: ConvertToSsa, b: ConvertToSsa, bound1: nat, bound2: nat)
    requires
        levels_preserved(a, b, bound1),
        bound2 <= bound1,
    ensures
        levels_preserved(a, b, bound2),
{
}

/// Level preservation makes lookups agree below the bound.
proof fn lemma_levels_to_agree(a: ConvertToSsa, b: ConvertToSsa, bound: nat)
    requires
        levels_preserved(a, b, bound),
    ensures
        forall|k: nat|
            k < bound ==> #[trigger] finds_agree(
                stack_view(scopes_of(a)),
                stack_view(scopes_of(b)),
                k,
            ),
{
    let sa = scopes_of(a);
    let sb = scopes_of(b);
    assert forall|k: nat| k < bound implies #[trigger] finds_agree(
        stack_view(sa),
        stack_view(sb),
        k,
    ) by {
        assert forall|i: int| 0 <= i < stack_view(sa).len() implies block_agrees_at(
            #[trigger] stack_view(sa)[i],
            stack_view(sb)[i],
            k,
        ) by {
            assert(stack_view(sa)[i] == to_block(sa[i]));
            assert(stack_view(sb)[i] == to_block(sb[i]));
            assert(block_agrees_at(to_block(sa[i]), to_block(sb[i]), k));
        }
        lemma_finds_agree_pointwise(stack_view(sa), stack_view(sb), k);
    }
}

/// A reference whose graph resolves before a preserving step still
/// resolves after it.
proof fn lemma_lift_ref(a: ConvertToSsa, b: ConvertToSsa, r: ArgOrVar, nargs: nat)
    requires
        levels_preserved(a, b, ref_measure(r)),
        resolvable(stack_view(scopes_of(a)), r, ref_measure(r), nargs),
    ensures
        resolvable(stack_view(scopes_of(b)), r, ref_measure(r), nargs),
{
    lemma_levels_to_agree(a, b, ref_measure(r));
    lemma_resolvable_agree(
        stack_view(scopes_of(a)),
        stack_view(scopes_of(b)),
        r,
        ref_measure(r),
        nargs,
    );
}

/// Name lookup only reads the name bindings, which a preserving step
/// keeps.
proof fn lemma_levels_lookup(a: ConvertToSsa, b: ConvertToSsa, bound: nat)
    requires
        levels_preserved(a, b, bound),
    ensures
        forall|x: Seq<char>|
            lookup_name(scopes_of(b), x) == #[trigger] lookup_name(scopes_of(a), x),
{
    assert forall|x: Seq<char>|
        lookup_name(scopes_of(b), x) == #[trigger] lookup_name(scopes_of(a), x) by {
        lemma_lookup_same_names(scopes_of(a), scopes_of(b), x);
    }
}

/// The net effect of a comprehension bracket — push a scope, fill it, pop
/// it — preserves every enclosing level below the counter at entry.
proof fn lemma_bracket(
    v2: ConvertToSsa,
    v3: ConvertToSsa,
    v5: ConvertToSsa,
    v6: ConvertToSsa,
    v7: ConvertToSsa,
)
    requires
        v3.outer@ == v2.outer@.push(v2.cur),
        v5.outer@ == v3.outer@,
        levels_preserved(v5, v6, next_of(v5)),
        next_of(v2) <= next_of(v5),
        v7.outer@ == v6.outer@.drop_last(),
        v7.cur.names == v6.outer@.last().names,
        v7.cur.start == v6.outer@.last().start,
        v7.cur.ssa == v6.outer@.last().ssa,
        v7.cur.vars@ == v6.outer@.last().vars@,
        v7.cur.iv == v6.outer@.last().iv,
    ensures
        levels_preserved(v2, v7, next_of(v2)),
{
    let n = v2.outer@.len() as int;
    assert(scopes_of(v5).len() == scopes_of(v6).len());
    assert(v6.outer@.len() == n + 1);
    assert(scopes_of(v7).len() == scopes_of(v2).len());
    assert forall|i: int| 0 <= i < scopes_of(v2).len() implies (#[trigger] scopes_of(v7)[i]).names@ == scopes_of(v2)[i].names@ && scopes_of(v7)[i].start == scopes_of(v2)[i].start
        && scopes_of(v7)[i].iv == scopes_of(v2)[i].iv by {
        if i < n {
            assert(scopes_of(v7)[i] == v7.outer@[i]);
            assert(v7.outer@[i] == v6.outer@[i]);
            assert(scopes_of(v6)[i] == v6.outer@[i]);
            assert(scopes_of(v5)[i] == v5.outer@[i]);
            assert(v5.outer@[i] == v2.outer@[i]);
            assert(scopes_of(v2)[i] == v2.outer@[i]);
            assert(scopes_of(v6)[i].names@ == scopes_of(v5)[i].names@);
            assert(scopes_of(v6)[i].start == scopes_of(v5)[i].start);
            assert(scopes_of(v6)[i].iv == scopes_of(v5)[i].iv);
        } else {
            assert(scopes_of(v7)[i] == v7.cur);
            assert(scopes_of(v2)[i] == v2.cur);
            assert(v6.outer@.last() == v6.outer@[n]);
            assert(scopes_of(v6)[n] == v6.outer@[n]);
            assert(scopes_of(v5)[n] == v5.outer@[n]);
            assert(v5.outer@[n] == v2.cur);
            assert(scopes_of(v6)[n].names@ == scopes_of(v5)[n].names@);
            assert(scopes_of(v6)[n].start == scopes_of(v5)[n].start);
            assert(scopes_of(v6)[n].iv == scopes_of(v5)[n].iv);
        }
    }
    assert forall|i: int, k: nat|
        0 <= i < scopes_of(v2).len() && k < next_of(v2) implies #[trigger] block_agrees_at(
        to_block(scopes_of(v2)[i]),
        to_block(scopes_of(v7)[i]),
        k,
    ) by {
        if i < n {
            assert(scopes_of(v7)[i] == v6.outer@[i]);
            assert(scopes_of(v6)[i] == v6.outer@[i]);
            assert(scopes_of(v5)[i] == v2.outer@[i]);
            assert(scopes_of(v2)[i] == v2.outer@[i]);
            assert(block_agrees_at(to_block(scopes_of(v5)[i]), to_block(scopes_of(v6)[i]), k));
        } else {
            assert(scopes_of(v7)[i] == v7.cur);
            assert(scopes_of(v2)[i] == v2.cur);
            assert(v6.outer@.last() == v6.outer@[n]);
            assert(scopes_of(v6)[n] == v6.outer@[n]);
            assert(scopes_of(v5)[n] == v2.cur);
            assert(block_agrees_at(to_block(scopes_of(v5)[n]), to_block(scopes_of(v6)[n]), k));
            assert(block_agrees_at(to_block(v6.outer@[n]), to_block(v7.cur), k));
        }
    }
}

/// Level preservation keeps the current scope's declared index variable.
proof fn lemma_cur_iv_preserved(a: ConvertToSsa, b: ConvertToSsa)
    requires
        levels_preserved(a, b, 0),
    ensures
        b.cur.iv == a.cur.iv,
{
    let sa = scopes_of(a);
    let sb = scopes_of(b);
    assert(sa[sa.len() - 1] == a.cur);
    assert(sb[sb.len() - 1] == b.cur);
}

/// Every suspended scope's counter stands at or below the current scope's
/// start.
proof fn lemma_outer_below_cur_start(c: ConvertToSsa, i: int)
    requires
        conv_inv(c),
        0 <= i < c.outer@.len(),
    ensures
        c.outer@[i].vars.next_key() <= c.cur.start,
    decreases c.outer@.len() - i,
{
    if i + 1 < c.outer@.len() {
        lemma_outer_below_cur_start(c, i + 1);
    }
}


// ---------------------------------------------------------------------------
// Bookkeeping over statement sequences.
// ---------------------------------------------------------------------------

/// Splitting a prefix off a statement sequence splits its size.
proof fn lemma_stmts_size_step(stmts: Seq<parse_ast::Stmt>, i: int)
    requires
        0 <= i < stmts.len(),
    ensures
        parse_ast::stmts_size(stmts.take(i + 1)) == parse_ast::stmts_size(stmts.take(i)) + (
        match stmts[i] {
            parse_ast::Stmt::Assign { lhs: _, expr } => parse_ast::expr_size(expr),
        }),
{
    assert(stmts.take(i + 1).drop_last() =~= stmts.take(i));
    assert(stmts.take(i + 1).last() == stmts[i]);
}

/// A prefix of a statement sequence never mints more keys than the whole.
proof fn lemma_stmts_size_prefix(stmts: Seq<parse_ast::Stmt>, i: int)
    requires
        0 <= i <= stmts.len(),
    ensures
        parse_ast::stmts_size(stmts.take(i)) <= parse_ast::stmts_size(stmts),
    decreases stmts.len(),
{
    if i < stmts.len() {
        assert(stmts.drop_last().take(i) =~= stmts.take(i));
        lemma_stmts_size_prefix(stmts.drop_last(), i);
    } else {
        assert(stmts.take(i) =~= stmts);
    }
}

/// If every statement's identifiers are bound when reached, so are every
/// prefix's, and in particular the next statement's.
proof fn lemma_stmts_bound_take(stmts: Seq<parse_ast::Stmt>, env: Set<Seq<char>>, i: int)
    requires
        parse_ast::stmts_ids_bound(stmts, env),
        0 <= i <= stmts.len(),
    ensures
        parse_ast::stmts_ids_bound(stmts.take(i), env),
    decreases stmts.len(),
{
    if i < stmts.len() {
        assert(stmts.drop_last().take(i) =~= stmts.take(i));
        lemma_stmts_bound_take(stmts.drop_last(), env, i);
    } else {
        assert(stmts.take(i) =~= stmts);
    }
}

/// The environment accumulated by a prefix of statements, step by step.
proof fn lemma_env_after_step(stmts: Seq<parse_ast::Stmt>, env: Set<Seq<char>>, i: int)
    requires
        0 <= i < stmts.len(),
    ensures
        parse_ast::env_after_stmts(env, stmts.take(i + 1)) == parse_ast::env_after_stmt(
            parse_ast::env_after_stmts(env, stmts.take(i)),
            stmts[i],
        ),
        parse_ast::stmts_ids_bound(stmts.take(i + 1), env) == (parse_ast::stmts_ids_bound(
            stmts.take(i),
            env,
        ) && (match stmts[i] {
            parse_ast::Stmt::Assign { lhs: _, expr } => parse_ast::expr_ids_bound(
                expr,
                parse_ast::env_after_stmts(env, stmts.take(i)),
            ),
        })),
{
    assert(stmts.take(i + 1).drop_last() =~= stmts.take(i));
    assert(stmts.take(i + 1).last() == stmts[i]);
}

/// How a converted function relates to its surface form: same name, one
/// coherent argument record per declared argument, and — when the return
/// reference is a local — that local annotated with the declared return
/// type.
pub open spec fn fundef_matches(g: Fundef<UntypedAst>, f: parse_ast::Fundef) -> bool {
    &&& g.name@ == f.id@
    &&& g.args@.len() == f.args@.len()
    &&& forall|i: int|
        0 <= i < g.args@.len() ==> {
            &&& (#[trigger] g.args@[i]).name@ == f.args@[i].1@
            &&& g.args@[i].ty == Some(f.args@[i].0)
            &&& g.args@[i].key == ArgOrVar::Arg(i as usize)
        }
    &&& match g.block.ret {
        ArgOrVar::Var(k) => g.block.local_vars@.dom().contains(k.0 as nat)
            && g.block.local_vars@[k.0 as nat].ty == Some(f.ret_type),
        _ => true,
    }
}


// ---------------------------------------------------------------------------
// What the builder builds: the recorded definition graph is the structural
// conversion of the surface expression.
// ---------------------------------------------------------------------------

/// The name environment a scope stack amounts to: each bound surface name
/// mapped to its innermost binding.
pub open spec fn env_map(scopes: Seq<BuildScope>) -> Map<Seq<char>, ArgOrVar> {
    Map::new(
        |x: Seq<char>| lookup_name(scopes, x) is Some,
        |x: Seq<char>| lookup_name(scopes, x)->0,
    )
}

/// The name environment of a function's arguments: each argument name
/// bound to its position, later arguments shadowing earlier ones.
pub open spec fn arg_env(args: Seq<(crate::ast::Type, String)>) -> Map<Seq<char>, ArgOrVar>
    decreases args.len(),
{
    if args.len() == 0 {
        Map::empty()
    } else {
        arg_env(args.drop_last()).insert(
            args.last().1@,
            ArgOrVar::Arg((args.len() - 1) as usize),
        )
    }
}

/// The reference `r` stands for the structural conversion of the surface
/// expression `e` under the name environment `env`: an identifier is its
/// binding; a literal is a local defined as that literal; an operator node
/// is a local whose recorded definition carries the same operator over the
/// conversions of the operands; a comprehension is a local defined as a
/// tensor whose bounds convert in the enclosing scope and whose body
/// converts in the nested scope under the index variable's binding.  All
/// keys involved lie below `bound`.
pub open spec fn expr_converts(
    stack: Seq<Block<UntypedAst>>,
    env: Map<Seq<char>, ArgOrVar>,
    e: parse_ast::Expr,
    r: ArgOrVar,
    bound: nat,
) -> bool
    decreases e,
{
    match e {
        parse_ast::Expr::Identifier(x) => env.dom().contains(x@) && r == env[x@] && ref_below(
            r,
            bound,
        ),
        parse_ast::Expr::U32(v) => match r {
            ArgOrVar::Var(k) => k.0 < bound && stack_find_ssa(stack, k.0 as nat) == Some(
                Expr::<UntypedAst>::U32(v),
            ),
            _ => false,
        },
        parse_ast::Expr::Bool(v) => match r {
            ArgOrVar::Var(k) => k.0 < bound && stack_find_ssa(stack, k.0 as nat) == Some(
                Expr::<UntypedAst>::Bool(v),
            ),
            _ => false,
        },
        parse_ast::Expr::Binary { l, r: r2, op } => match r {
            ArgOrVar::Var(k) => k.0 < bound && (match stack_find_ssa(stack, k.0 as nat) {
                Some(Expr::Binary(b)) => b.op == op && expr_converts(stack, env, *l, b.l, bound)
                    && expr_converts(stack, env, *r2, b.r, bound),
                _ => false,
            }),
            _ => false,
        },
        parse_ast::Expr::Unary { r: r2, op } => match r {
            ArgOrVar::Var(k) => k.0 < bound && (match stack_find_ssa(stack, k.0 as nat) {
                Some(Expr::Unary(u)) => u.op == op && expr_converts(stack, env, *r2, u.r, bound),
                _ => false,
            }),
            _ => false,
        },
        parse_ast::Expr::Tensor { iv, expr, lb, ub } => match r {
            ArgOrVar::Var(k) => k.0 < bound && (match stack_find_ssa(stack, k.0 as nat) {
                Some(Expr::Tensor(t)) => {
                    &&& expr_converts(stack, env, *lb, t.lb, bound)
                    &&& expr_converts(stack, env, *ub, t.ub, bound)
                    &&& t.iv.0.0 < bound
                    &&& (match stack_find_key(stack.push(t.body), t.iv.0.0 as nat) {
                        Some(a) => a.name@ == iv.0@ && a.key == ArgOrVar::Iv(t.iv.0),
                        None => false,
                    })
                    &&& expr_converts(
                        stack.push(t.body),
                        env.insert(iv.0@, ArgOrVar::Iv(t.iv.0)),
                        *expr,
                        t.body.ret,
                        bound,
                    )
                },
                _ => false,
            }),
            _ => false,
        },
    }
}

/// The assigned name of a statement.
pub open spec fn stmt_lhs(s: parse_ast::Stmt) -> Seq<char> {
    match s {
        parse_ast::Stmt::Assign { lhs, expr: _ } => lhs@,
    }
}

/// The right-hand side of a statement.
pub open spec fn stmt_expr(s: parse_ast::Stmt) -> parse_ast::Expr {
    match s {
        parse_ast::Stmt::Assign { lhs: _, expr } => expr,
    }
}

/// Running a sequence of statements converts each right-hand side in the
/// environment the preceding statements left, re-binding each left-hand
/// side to the converted reference; `env_out` is the environment the
/// sequence leaves.
pub open spec fn stmts_convert(
    stack: Seq<Block<UntypedAst>>,
    env: Map<Seq<char>, ArgOrVar>,
    stmts: Seq<parse_ast::Stmt>,
    env_out: Map<Seq<char>, ArgOrVar>,
    bound: nat,
) -> bool
    decreases stmts.len(),
{
    if stmts.len() == 0 {
        env_out == env
    } else {
        exists|env_mid: Map<Seq<char>, ArgOrVar>, rr: ArgOrVar|
            {
                &&& stmts_convert(stack, env, stmts.drop_last(), env_mid, bound)
                &&& #[trigger] expr_converts(stack, env_mid, stmt_expr(stmts.last()), rr, bound)
                &&& env_out == env_mid.insert(stmt_lhs(stmts.last()), rr)
            }
    }
}

/// The converted function records exactly the structural conversion of the
/// surface function: starting from the argument bindings, its statements
/// convert in order, and the return reference is the conversion of the
/// return expression in the environment they leave.
pub open spec fn fundef_converts(u: parse_ast::Fundef, g: Fundef<UntypedAst>) -> bool {
    exists|env_out: Map<Seq<char>, ArgOrVar>|
        {
            &&& #[trigger] stmts_convert(
                seq![g.block],
                arg_env(u.args@),
                u.body@,
                env_out,
                g.block.local_vars.next_key(),
            )
            &&& match u.ret_expr {
                Some(e) => expr_converts(
                    seq![g.block],
                    env_out,
                    e,
                    g.block.ret,
                    g.block.local_vars.next_key(),
                ),
                None => false,
            }
        }
}

/// The converted program holds, in order, exactly the conversions of the
/// input functions that convert (a return statement present, every name
/// bound); the functions that do not are skipped, and their successors
/// are unaffected.
pub open spec fn program_converts(
    outs: Seq<Fundef<UntypedAst>>,
    fds: Seq<parse_ast::Fundef>,
) -> bool
    decreases fds.len(),
{
    if fds.len() == 0 {
        outs.len() == 0
    } else if fds.last().ret_expr is Some && parse_ast::fundef_ids_bound(fds.last()) {
        &&& outs.len() > 0
        &&& wf_fundef(outs.last())
        &&& fundef_matches(outs.last(), fds.last())
        &&& fundef_converts(fds.last(), outs.last())
        &&& program_converts(outs.drop_last(), fds.drop_last())
    } else {
        program_converts(outs, fds.drop_last())
    }
}

/// Conversion facts hold under any larger key bound.
proof fn lemma_converts_widen(
    stack: Seq<Block<UntypedAst>>,
    env: Map<Seq<char>, ArgOrVar>,
    e: parse_ast::Expr,
    r: ArgOrVar,
    bound1: nat,
    bound2: nat,
)
    requires
        expr_converts(stack, env, e, r, bound1),
        bound1 <= bound2,
    ensures
        expr_converts(stack, env, e, r, bound2),
    decreases e,
{
    match e {
        parse_ast::Expr::Binary { l, r: r2, op } => {
            let b = stack_find_ssa(stack, r->Var_0.0 as nat)->0->Binary_0;
            lemma_converts_widen(stack, env, *l, b.l, bound1, bound2);
            lemma_converts_widen(stack, env, *r2, b.r, bound1, bound2);
        },
        parse_ast::Expr::Unary { r: r2, op } => {
            let u = stack_find_ssa(stack, r->Var_0.0 as nat)->0->Unary_0;
            lemma_converts_widen(stack, env, *r2, u.r, bound1, bound2);
        },
        parse_ast::Expr::Tensor { iv, expr, lb, ub } => {
            let t = stack_find_ssa(stack, r->Var_0.0 as nat)->0->Tensor_0;
            lemma_converts_widen(stack, env, *lb, t.lb, bound1, bound2);
            lemma_converts_widen(stack, env, *ub, t.ub, bound1, bound2);
            lemma_converts_widen(
                stack.push(t.body),
                env.insert(iv.0@, ArgOrVar::Iv(t.iv.0)),
                *expr,
                t.body.ret,
                bound1,
                bound2,
            );
        },
        _ => {},
    }
}

/// Conversion facts are stable across stack changes that leave every key
/// below the bound looking the same.
proof fn lemma_converts_agree(
    s1: Seq<Block<UntypedAst>>,
    s2: Seq<Block<UntypedAst>>,
    env: Map<Seq<char>, ArgOrVar>,
    e: parse_ast::Expr,
    r: ArgOrVar,
    bound: nat,
)
    requires
        expr_converts(s1, env, e, r, bound),
        forall|k: nat| k < bound ==> #[trigger] finds_agree(s1, s2, k),
    ensures
        expr_converts(s2, env, e, r, bound),
    decreases e,
{
    match e {
        parse_ast::Expr::U32(_) => {
            assert(finds_agree(s1, s2, r->Var_0.0 as nat));
        },
        parse_ast::Expr::Bool(_) => {
            assert(finds_agree(s1, s2, r->Var_0.0 as nat));
        },
        parse_ast::Expr::Binary { l, r: r2, op } => {
            assert(finds_agree(s1, s2, r->Var_0.0 as nat));
            let b = stack_find_ssa(s1, r->Var_0.0 as nat)->0->Binary_0;
            lemma_converts_agree(s1, s2, env, *l, b.l, bound);
            lemma_converts_agree(s1, s2, env, *r2, b.r, bound);
        },
        parse_ast::Expr::Unary { r: r2, op } => {
            assert(finds_agree(s1, s2, r->Var_0.0 as nat));
            let u = stack_find_ssa(s1, r->Var_0.0 as nat)->0->Unary_0;
            lemma_converts_agree(s1, s2, env, *r2, u.r, bound);
        },
        parse_ast::Expr::Tensor { iv, expr, lb, ub } => {
            assert(finds_agree(s1, s2, r->Var_0.0 as nat));
            let t = stack_find_ssa(s1, r->Var_0.0 as nat)->0->Tensor_0;
            lemma_converts_agree(s1, s2, env, *lb, t.lb, bound);
            lemma_converts_agree(s1, s2, env, *ub, t.ub, bound);
            let p1 = s1.push(t.body);
            let p2 = s2.push(t.body);
            assert forall|k: nat| k < bound implies #[trigger] finds_agree(p1, p2, k) by {
                lemma_push_preserves_agree(s1, s2, t.body, k);
            }
            assert(finds_agree(p1, p2, t.iv.0.0 as nat));
            lemma_converts_agree(
                p1,
                p2,
                env.insert(iv.0@, ArgOrVar::Iv(t.iv.0)),
                *expr,
                t.body.ret,
                bound,
            );
        },
        _ => {},
    }
}

/// Statement-sequence conversion is likewise stable.
proof fn lemma_stmts_convert_agree(
    s1: Seq<Block<UntypedAst>>,
    s2: Seq<Block<UntypedAst>>,
    env: Map<Seq<char>, ArgOrVar>,
    stmts: Seq<parse_ast::Stmt>,
    env_out: Map<Seq<char>, ArgOrVar>,
    bound: nat,
)
    requires
        stmts_convert(s1, env, stmts, env_out, bound),
        forall|k: nat| k < bound ==> #[trigger] finds_agree(s1, s2, k),
    ensures
        stmts_convert(s2, env, stmts, env_out, bound),
    decreases stmts.len(),
{
    if stmts.len() > 0 {
        let (env_mid, rr) = choose|env_mid: Map<Seq<char>, ArgOrVar>, rr: ArgOrVar|
            {
                &&& stmts_convert(s1, env, stmts.drop_last(), env_mid, bound)
                &&& #[trigger] expr_converts(s1, env_mid, stmt_expr(stmts.last()), rr, bound)
                &&& env_out == env_mid.insert(stmt_lhs(stmts.last()), rr)
            };
        lemma_stmts_convert_agree(s1, s2, env, stmts.drop_last(), env_mid, bound);
        lemma_converts_agree(s1, s2, env_mid, stmt_expr(stmts.last()), rr, bound);
        assert(stmts_convert(s2, env, stmts, env_out, bound));
    }
}

/// Statement-sequence conversion under any larger bound.
proof fn lemma_stmts_convert_widen(
    stack: Seq<Block<UntypedAst>>,
    env: Map<Seq<char>, ArgOrVar>,
    stmts: Seq<parse_ast::Stmt>,
    env_out: Map<Seq<char>, ArgOrVar>,
    bound1: nat,
    bound2: nat,
)
    requires
        stmts_convert(stack, env, stmts, env_out, bound1),
        bound1 <= bound2,
    ensures
        stmts_convert(stack, env, stmts, env_out, bound2),
    decreases stmts.len(),
{
    if stmts.len() > 0 {
        let (env_mid, rr) = choose|env_mid: Map<Seq<char>, ArgOrVar>, rr: ArgOrVar|
            {
                &&& stmts_convert(stack, env, stmts.drop_last(), env_mid, bound1)
                &&& #[trigger] expr_converts(stack, env_mid, stmt_expr(stmts.last()), rr, bound1)
                &&& env_out == env_mid.insert(stmt_lhs(stmts.last()), rr)
            };
        lemma_stmts_convert_widen(stack, env, stmts.drop_last(), env_mid, bound1, bound2);
        lemma_converts_widen(stack, env_mid, stmt_expr(stmts.last()), rr, bound1, bound2);
        assert(stmts_convert(stack, env, stmts, env_out, bound2));
    }
}

impl ConvertToSsa {
    /// A fresh builder with no bindings and counters at zero.
    pub fn new() -> (r: Self)
        ensures
            conv_inv(r),
            r.uid == 0,
            r.nargs == 0,
            next_of(r) == 0,
            r.outer@.len() == 0,
            r.cur.names@.len() == 0,
            r.cur.vars@ == Map::<nat, Avis<UntypedAst>>::empty(),
            r.cur.ssa@ == Map::<nat, Expr<UntypedAst>>::empty(),
    {
        let r = ConvertToSsa {
            uid: 0,
            nargs: 0,
            cur: BuildScope {
                vars: Arena::new(),
                ssa: SecondaryArena::new(),
                names: Vec::new(),
                start: 0,
                iv: None,
            },
            outer: Vec::new(),
        };
        r
    }

    /// The synthetic name for the next minted value: the counter is
    /// incremented and rendered after an underscore prefix, which keeps
    /// the name disjoint from every user-writable identifier (those start
    /// with a letter).
    fn fresh_uid(&mut self) -> (s: String)
        requires
            old(self).uid < usize::MAX,
        ensures
            final(self).uid == old(self).uid + 1,
            s@ == fresh_name_of(final(self).uid as nat),
            final(self).cur == old(self).cur,
            final(self).outer == old(self).outer,
            final(self).nargs == old(self).nargs,
    {
        self.uid = self.uid + 1;
        let mut s = "_ssa_".to_owned();
        let d = dec_string(self.uid);
        s.append(d.as_str());
        s
    }

    /// Resolve a surface name through the scope stack, innermost scope
    /// first, latest binding first within a scope.
    fn find_name(&self, x: &String) -> (r: Option<ArgOrVar>)
        ensures
            r == lookup_name(scopes_of(*self), x@),
    {
        proof {
            assert(scopes_of(*self).last() == self.cur);
            assert(scopes_of(*self).drop_last() =~= self.outer@);
        }
        match scope_find_name(&self.cur.names, x) {
            Some(r) => {
                return Some(r);
            },
            None => {},
        }
        let mut i: usize = self.outer.len();
        proof {
            assert(self.outer@.take(i as int) =~= self.outer@);
        }
        while i > 0
            invariant
                i <= self.outer@.len(),
                lookup_name(scopes_of(*self), x@) == lookup_name(self.outer@.take(i as int), x@),
            decreases i,
        {
            i = i - 1;
            proof {
                assert(self.outer@.take(i + 1).last() == self.outer@[i as int]);
                assert(self.outer@.take(i + 1).drop_last() =~= self.outer@.take(i as int));
            }
            match scope_find_name(&self.outer[i].names, x) {
                Some(r) => {
                    return Some(r);
                },
                None => {},
            }
        }
        proof {
            assert(self.outer@.take(0) =~= Seq::<BuildScope>::empty());
        }
        None
    }

    /// Bind a surface name to a reference in the current scope.  The
    /// binding is appended: an earlier binding of the same name is
    /// shadowed, never overwritten, and no key is touched.
    fn bind_name(&mut self, name: String, r: ArgOrVar)
        requires
            conv_inv(*old(self)),
            ref_below(r, next_of(*old(self))),
            (r matches ArgOrVar::Arg(a) ==> a < old(self).nargs),
            resolvable(
                stack_view(scopes_of(*old(self))),
                r,
                ref_measure(r),
                old(self).nargs as nat,
            ),
        ensures
            conv_inv(*final(self)),
            final(self).cur.names@ == old(self).cur.names@.push((final(self).cur.names@.last().0, r)),
            final(self).cur.names@.last().0@ == name@,
            final(self).cur.names@.last().1 == r,
            final(self).cur.vars == old(self).cur.vars,
            final(self).cur.ssa == old(self).cur.ssa,
            final(self).cur.start == old(self).cur.start,
            final(self).cur.iv == old(self).cur.iv,
            final(self).outer == old(self).outer,
            final(self).uid == old(self).uid,
            final(self).nargs == old(self).nargs,
            stack_view(scopes_of(*final(self))) == stack_view(scopes_of(*old(self))),
            forall|x: Seq<char>|
                lookup_name(scopes_of(*final(self)), x) == (if x == name@ {
                    Some(r)
                } else {
                    lookup_name(scopes_of(*old(self)), x)
                }),
            bound_env(scopes_of(*final(self))) == bound_env(scopes_of(*old(self))).insert(name@),
    {
        let ghost name_view = name@;
        self.cur.names.push((name, r));
        proof {
            let news = scopes_of(*self);
            let olds = scopes_of(*old(self));
            assert(news.drop_last() =~= olds.drop_last());
            assert(stack_view(news) =~= stack_view(olds));
            assert forall|x: Seq<char>|
                lookup_name(news, x) == (if x == name_view {
                    Some(r)
                } else {
                    lookup_name(olds, x)
                }) by {
                assert(news.last().names@.drop_last() =~= olds.last().names@);
                if x != name_view {
                    assert(lookup_scope_names(news.last().names@, x) == lookup_scope_names(
                        olds.last().names@,
                        x,
                    ));
                }
            }
            assert(bound_env(news) =~= bound_env(olds).insert(name_view));
            assert forall|i: int, j: int|
                0 <= i < news.len() && 0 <= j < news[i].names@.len() implies {
                let rr = (#[trigger] news[i].names@[j]).1;
                &&& ref_below(rr, news[i].vars.next_key())
                &&& (rr matches ArgOrVar::Arg(a) ==> a < self.nargs)
                &&& resolvable(stack_view(news), rr, ref_measure(rr), self.nargs as nat)
            } by {
                if i < news.len() - 1 || j < news[i].names@.len() - 1 {
                    assert(news[i].names@[j] == olds[i].names@[j]);
                    assert(olds[i].names@.len() > j);
                }
            }
        }
    }

    /// Enter a fresh scope for a comprehension body; it starts minting
    /// where the current scope paused.
    fn push_build_scope(&mut self)
        requires
            conv_inv(*old(self)),
        ensures
            conv_inv(*final(self)),
            final(self).cur.names@.len() == 0,
            final(self).cur.vars@ == Map::<nat, Avis<UntypedAst>>::empty(),
            final(self).cur.ssa@ == Map::<nat, Expr<UntypedAst>>::empty(),
            final(self).cur.start == next_of(*old(self)),
            final(self).cur.iv is None,
            next_of(*final(self)) == next_of(*old(self)),
            final(self).outer@ == old(self).outer@.push(old(self).cur),
            final(self).uid == old(self).uid,
            final(self).nargs == old(self).nargs,
            scopes_of(*final(self)) == scopes_of(*old(self)).push(final(self).cur),
            forall|k: nat|
                stack_find_key(stack_view(scopes_of(*final(self))), k) == stack_find_key(
                    stack_view(scopes_of(*old(self))),
                    k,
                ) && stack_find_ssa(stack_view(scopes_of(*final(self))), k) == stack_find_ssa(
                    stack_view(scopes_of(*old(self))),
                    k,
                ),
    {
        let start = self.cur.vars.peek_next_key();
        let mut fresh = BuildScope {
            vars: Arena::new_from(start),
            ssa: SecondaryArena::new(),
            names: Vec::new(),
            start,
            iv: None,
        };
        core::mem::swap(&mut self.cur, &mut fresh);
        self.outer.push(fresh);
        proof {
            let news = scopes_of(*self);
            let olds = scopes_of(*old(self));
            assert(news =~= olds.push(self.cur));
            assert(stack_view(news) =~= stack_view(olds).push(to_block(self.cur)));
            assert forall|k: nat|
                stack_find_key(stack_view(news), k) == stack_find_key(stack_view(olds), k)
                    && stack_find_ssa(stack_view(news), k) == stack_find_ssa(
                    stack_view(olds),
                    k,
                ) by {
                lemma_find_push_fresh(stack_view(olds), to_block(self.cur), k);
            }
            assert forall|i: int, j: int|
                0 <= i < news.len() && 0 <= j < news[i].names@.len() implies {
                let rr = (#[trigger] news[i].names@[j]).1;
                &&& ref_below(rr, news[i].vars.next_key())
                &&& (rr matches ArgOrVar::Arg(a) ==> a < self.nargs)
                &&& resolvable(stack_view(news), rr, ref_measure(rr), self.nargs as nat)
            } by {
                assert(i < news.len() - 1);
                assert(news[i] == olds[i]);
                assert(resolvable(stack_view(olds), news[i].names@[j].1, ref_measure(news[i].names@[j].1), self.nargs as nat));
                assert forall|k: nat| k < ref_measure(news[i].names@[j].1) implies #[trigger] finds_agree(
                    stack_view(olds),
                    stack_view(news),
                    k,
                ) by {}
                lemma_resolvable_agree(
                    stack_view(olds),
                    stack_view(news),
                    news[i].names@[j].1,
                    ref_measure(news[i].names@[j].1),
                    self.nargs as nat,
                );
            }
        }
    }

    /// Leave a comprehension scope: the finished scope is handed back for
    /// packaging, and the enclosing scope's counter jumps past every key
    /// the nested scope minted, so none is ever reissued.
    fn pop_build_scope(&mut self) -> (popped: BuildScope)
        requires
            conv_inv(*old(self)),
            old(self).outer@.len() > 0,
        ensures
            conv_inv(*final(self)),
            popped == old(self).cur,
            final(self).outer@ == old(self).outer@.drop_last(),
            final(self).cur.names == old(self).outer@.last().names,
            final(self).cur.start == old(self).outer@.last().start,
            final(self).cur.ssa == old(self).outer@.last().ssa,
            final(self).cur.vars@ == old(self).outer@.last().vars@,
            final(self).cur.iv == old(self).outer@.last().iv,
            next_of(*final(self)) == next_of(*old(self)),
            final(self).uid == old(self).uid,
            final(self).nargs == old(self).nargs,
            forall|k: nat|
                k < old(self).cur.start ==> #[trigger] finds_agree(
                    stack_view(scopes_of(*old(self))),
                    stack_view(scopes_of(*final(self))),
                    k,
                ),
    {
        let mut top = self.outer.pop().unwrap();
        let nk = self.cur.vars.peek_next_key();
        top.vars.advance_to(nk);
        core::mem::swap(&mut self.cur, &mut top);
        let popped = top;
        proof {
            let news = scopes_of(*self);
            let olds = scopes_of(*old(self));
            let ghost mid = olds.drop_last();  // the suspended scopes, unadvanced last
            assert(news.drop_last() =~= mid.drop_last());
            assert(olds.drop_last() =~= old(self).outer@);
            assert forall|k: nat| k < old(self).cur.start implies #[trigger] finds_agree(
                stack_view(olds),
                stack_view(news),
                k,
            ) by {
                assert(scope_inv(popped));
                assert(!popped.vars@.dom().contains(k));
                assert(!popped.ssa@.dom().contains(k)) by {
                    if popped.ssa@.dom().contains(k) {
                        assert(to_block(popped).local_ssa@.dom().contains(k));
                        assert(to_block(popped).local_vars@.dom().contains(k));
                    }
                }
                assert(stack_view(olds).drop_last() =~= stack_view(mid));
                lemma_find_push_fresh(stack_view(mid), to_block(popped), k);
                assert(stack_view(mid).drop_last() =~= stack_view(news).drop_last());
                lemma_agree_update_last(stack_view(mid), stack_view(news), k);
            }
            assert forall|i: int|
                0 <= i < self.outer@.len() implies (#[trigger] self.outer@[i].vars.next_key())
                    <= (if i + 1 < self.outer@.len() {
                    self.outer@[i + 1].start as nat
                } else {
                    self.cur.start as nat
                }) by {
                assert(self.outer@[i] == old(self).outer@[i]);
            }
            assert(scope_inv(self.cur)) by {
                let oldlast = old(self).outer@.last();
                assert(scope_inv(oldlast));
                lemma_block_unique_grow_next(
                    to_block(oldlast),
                    to_block(self.cur),
                    scope_iv(oldlast),
                );
            }
            assert forall|i: int, j: int|
                0 <= i < news.len() && 0 <= j < news[i].names@.len() implies {
                let rr = (#[trigger] news[i].names@[j]).1;
                &&& ref_below(rr, news[i].vars.next_key())
                &&& (rr matches ArgOrVar::Arg(a) ==> a < self.nargs)
                &&& resolvable(stack_view(news), rr, ref_measure(rr), self.nargs as nat)
            } by {
                assert(news[i].names@ == olds[i].names@);
                let rr = news[i].names@[j].1;
                assert(ref_below(rr, olds[i].vars.next_key()));
                assert(olds[i].vars.next_key() <= news[i].vars.next_key());
                assert(ref_measure(rr) <= old(self).cur.start) by {
                    if i < news.len() - 1 {
                        lemma_outer_below_cur_start(*old(self), i);
                        assert(old(self).outer@[i].vars.next_key() <= old(self).cur.start);
                    } else {
                        lemma_outer_below_cur_start(*old(self), i);
                    }
                }
                lemma_resolvable_agree(
                    stack_view(olds),
                    stack_view(news),
                    rr,
                    ref_measure(rr),
                    self.nargs as nat,
                );
            }
        }
        popped
    }

    /// Mint a fresh identifier under a fresh synthetic name and record `e`
    /// as its one and only definition.
    fn mint_def(&mut self, name: String, e: Expr<UntypedAst>) -> (r: ArgOrVar)
        requires
            conv_inv(*old(self)),
            next_of(*old(self)) < usize::MAX,
            expr_resolvable(
                stack_view(scopes_of(*old(self))),
                e,
                next_of(*old(self)),
                old(self).nargs as nat,
            ),
            expr_ssa_unique(e),
            expr_ivs_declared(e),
        ensures
            conv_inv(*final(self)),
            r == ArgOrVar::Var(Key(next_of(*old(self)) as usize)),
            next_of(*final(self)) == next_of(*old(self)) + 1,
            final(self).uid == old(self).uid,
            final(self).nargs == old(self).nargs,
            final(self).outer == old(self).outer,
            final(self).cur.names == old(self).cur.names,
            final(self).cur.start == old(self).cur.start,
            final(self).cur.iv == old(self).cur.iv,
            final(self).cur.vars@ == old(self).cur.vars@.insert(
                next_of(*old(self)),
                final(self).cur.vars@[next_of(*old(self))],
            ),
            final(self).cur.vars@[next_of(*old(self))].key == r,
            final(self).cur.vars@[next_of(*old(self))].name@ == name@,
            final(self).cur.vars@[next_of(*old(self))].ty == None::<crate::ast::Type>,
            final(self).cur.ssa@ == old(self).cur.ssa@.insert(next_of(*old(self)), e),
            ref_below(r, next_of(*final(self))),
            resolvable(
                stack_view(scopes_of(*final(self))),
                r,
                ref_measure(r),
                old(self).nargs as nat,
            ),
            stack_find_ssa(stack_view(scopes_of(*final(self))), next_of(*old(self))) == Some(e),
            stack_find_key(stack_view(scopes_of(*final(self))), next_of(*old(self))) == Some(
                final(self).cur.vars@[next_of(*old(self))],
            ),
            forall|k: nat|
                k < next_of(*old(self)) ==> #[trigger] finds_agree(
                    stack_view(scopes_of(*old(self))),
                    stack_view(scopes_of(*final(self))),
                    k,
                ),
            levels_preserved(*old(self), *final(self), next_of(*old(self))),
    {
        let next = self.cur.vars.peek_next_key();
        let key = Key(next);
        let avis = Avis { name, ty: None, key: ArgOrVar::Var(key) };
        self.cur.vars.insert(avis);
        self.cur.ssa.insert(key, e);
        proof {
            let news = scopes_of(*self);
            let olds = scopes_of(*old(self));
            let nk = next as nat;
            assert(news.drop_last() =~= olds.drop_last());
            assert(stack_view(news).drop_last() =~= stack_view(olds).drop_last());
            assert forall|k: nat| k < nk implies #[trigger] finds_agree(
                stack_view(olds),
                stack_view(news),
                k,
            ) by {
                lemma_agree_update_last(stack_view(olds), stack_view(news), k);
            }
            // the new definition resolves through the current stack
            assert(stack_find_key(stack_view(news), nk) == Some(self.cur.vars@[nk]));
            assert(stack_find_ssa(stack_view(news), nk) == Some(e));
            lemma_expr_resolvable_agree(stack_view(olds), stack_view(news), e, nk, self.nargs as nat);
            assert(resolvable(stack_view(news), ArgOrVar::Var(key), nk + 1, self.nargs as nat));
            // per-scope discipline still holds of the grown scope
            let oldb = to_block(old(self).cur);
            let newb = to_block(self.cur);
            assert forall|k: nat| #[trigger]
                newb.local_ssa@.dom().contains(k) implies newb.local_vars@.dom().contains(
                k,
            ) by {
                if k != nk {
                    assert(oldb.local_ssa@.dom().contains(k));
                }
            }
            assert forall|k: nat| #[trigger] newb.local_vars@.dom().contains(k) implies {
                ||| (newb.local_vars@[k].key == ArgOrVar::Var(Key(k as usize))
                    && newb.local_ssa@.dom().contains(k))
                ||| (newb.local_vars@[k].key == ArgOrVar::Iv(Key(k as usize))
                    && !newb.local_ssa@.dom().contains(k))
            } by {
                if k != nk {
                    assert(oldb.local_vars@.dom().contains(k));
                }
            }
            assert forall|k: nat| #[trigger] newb.local_vars@.dom().contains(k) implies k
                < newb.local_vars.next_key() by {
                if k != nk {
                    assert(oldb.local_vars@.dom().contains(k));
                }
            }
            assert forall|k: nat| #[trigger]
                newb.local_ssa@.dom().contains(k) implies expr_ssa_unique(
                newb.local_ssa@[k],
            ) by {
                if k != nk {
                    assert(oldb.local_ssa@.dom().contains(k));
                }
            }
            assert(block_ssa_unique(newb));
            assert forall|k: nat| #[trigger] newb.local_vars@.dom().contains(k) implies (
            newb.local_vars@[k].key matches ArgOrVar::Iv(_) ==> Some(k) == scope_iv(
                self.cur,
            )) by {
                if k != nk {
                    assert(oldb.local_vars@.dom().contains(k));
                }
            }
            assert forall|k: nat| #[trigger]
                newb.local_ssa@.dom().contains(k) implies expr_ivs_declared(
                newb.local_ssa@[k],
            ) by {
                if k != nk {
                    assert(oldb.local_ssa@.dom().contains(k));
                }
            }
            assert(block_ivs_declared(newb, scope_iv(self.cur)));
            // name bindings still resolve
            assert forall|i: int, j: int|
                0 <= i < news.len() && 0 <= j < news[i].names@.len() implies {
                let rr = (#[trigger] news[i].names@[j]).1;
                &&& ref_below(rr, news[i].vars.next_key())
                &&& (rr matches ArgOrVar::Arg(a) ==> a < self.nargs)
                &&& resolvable(stack_view(news), rr, ref_measure(rr), self.nargs as nat)
            } by {
                assert(news[i].names@ == olds[i].names@);
                let rr = news[i].names@[j].1;
                assert(ref_below(rr, olds[i].vars.next_key()));
                assert(ref_measure(rr) <= nk) by {
                    if i < news.len() - 1 {
                        lemma_outer_below_cur_start(*old(self), i);
                    }
                }
                lemma_resolvable_agree(
                    stack_view(olds),
                    stack_view(news),
                    rr,
                    ref_measure(rr),
                    self.nargs as nat,
                );
            }
            assert forall|i: int, k2: nat|
                0 <= i < olds.len() && k2 < nk implies #[trigger] block_agrees_at(
                to_block(olds[i]),
                to_block(news[i]),
                k2,
            ) by {
                if i < olds.len() - 1 {
                    assert(news[i] == olds[i]);
                }
            }
            assert(levels_preserved(*old(self), *self, nk));
        }
        ArgOrVar::Var(key)
    }

    /// Convert one statement: evaluate its right-hand side and re-bind the
    /// assigned surface name to the resulting reference.  The old binding
    /// is shadowed in place in the name map, never overwritten, and the
    /// old key stays untouched.
    pub fn convert_stmt(&mut self, stmt: parse_ast::Stmt) -> (r: Result<(), SsaError>)
        requires
            conv_inv(*old(self)),
            old(self).uid <= next_of(*old(self)),
            next_of(*old(self)) + (match stmt {
                parse_ast::Stmt::Assign { lhs: _, expr } => parse_ast::expr_size(expr),
            }) <= usize::MAX,
        ensures
            conv_inv(*final(self)),
            final(self).uid <= next_of(*final(self)),
            final(self).nargs == old(self).nargs,
            final(self).outer@.len() == old(self).outer@.len(),
            next_of(*old(self)) <= next_of(*final(self)) <= next_of(*old(self)) + (match stmt {
                parse_ast::Stmt::Assign { lhs: _, expr } => parse_ast::expr_size(expr),
            }),
            r is Ok ==> next_of(*final(self)) == next_of(*old(self)) + parse_ast::expr_size(
                stmt_expr(stmt),
            ),
            (r is Ok) == (match stmt {
                parse_ast::Stmt::Assign { lhs: _, expr } => parse_ast::expr_ids_bound(
                    expr,
                    bound_env(scopes_of(*old(self))),
                ),
            }),
            r is Ok ==> bound_env(scopes_of(*final(self))) == parse_ast::env_after_stmt(
                bound_env(scopes_of(*old(self))),
                stmt,
            ),
            r is Ok ==> {
                &&& lookup_name(scopes_of(*final(self)), stmt_lhs(stmt)) is Some
                &&& expr_converts(
                    stack_view(scopes_of(*final(self))),
                    env_map(scopes_of(*old(self))),
                    stmt_expr(stmt),
                    lookup_name(scopes_of(*final(self)), stmt_lhs(stmt))->0,
                    next_of(*final(self)),
                )
                &&& env_map(scopes_of(*final(self))) == env_map(scopes_of(*old(self))).insert(
                    stmt_lhs(stmt),
                    lookup_name(scopes_of(*final(self)), stmt_lhs(stmt))->0,
                )
                &&& forall|x: Seq<char>|
                    x != stmt_lhs(stmt) ==> lookup_name(scopes_of(*final(self)), x)
                        == #[trigger] lookup_name(scopes_of(*old(self)), x)
            },
            r is Err ==> r == Err::<(), SsaError>(SsaError::UnresolvedIdentifier) && bound_env(
                scopes_of(*final(self)),
            ) == bound_env(scopes_of(*old(self))),
            final(self).cur.iv == old(self).cur.iv,
            scopes_of(*final(self)).len() == scopes_of(*old(self)).len(),
            forall|i: int, k: nat|
                0 <= i < scopes_of(*old(self)).len() && k < next_of(*old(self))
                    ==> #[trigger] block_agrees_at(
                    to_block(scopes_of(*old(self))[i]),
                    to_block(scopes_of(*final(self))[i]),
                    k,
                ),
            next_of(*old(self)) <= next_of(*final(self)),
    {
        match stmt {
            parse_ast::Stmt::Assign { lhs, expr } => {
                let ghost v0 = *self;
                let rr = match self.convert_expr(expr) {
                    Ok(rr) => rr,
                    Err(e) => {
                        proof {
                            lemma_levels_lookup(v0, *self, next_of(v0));
                            assert(bound_env(scopes_of(*self)) =~= bound_env(scopes_of(v0)));
                            lemma_cur_iv_preserved(v0, *self);
                            assert forall|i: int, k: nat|
                                0 <= i < scopes_of(v0).len() && k < next_of(v0)
                                    implies #[trigger] block_agrees_at(
                                to_block(scopes_of(v0)[i]),
                                to_block(scopes_of(*self)[i]),
                                k,
                            ) by {}
                        }
                        return Err(e);
                    },
                };
                let ghost v1 = *self;
                proof {
                    lemma_cur_iv_preserved(v0, v1);
                    if rr matches ArgOrVar::Arg(a) {
                        assert(resolvable(
                            stack_view(scopes_of(v1)),
                            rr,
                            ref_measure(rr),
                            v1.nargs as nat,
                        ));
                    }
                    lemma_levels_lookup(v0, v1, next_of(v0));
                    assert(bound_env(scopes_of(v1)) =~= bound_env(scopes_of(v0)));
                }
                let ghost lhs_view = lhs@;
                self.bind_name(lhs, rr);
                proof {
                    assert(bound_env(scopes_of(*self)) == bound_env(scopes_of(v1)).insert(
                        lhs_view,
                    ));
                    assert(bound_env(scopes_of(v1)) == bound_env(scopes_of(v0)));
                    assert(env_map(scopes_of(v1)) =~= env_map(scopes_of(v0)));
                    assert(lookup_name(scopes_of(*self), lhs_view) == Some(rr));
                    assert(stack_view(scopes_of(*self)) == stack_view(scopes_of(v1)));
                    assert(env_map(scopes_of(*self)) =~= env_map(scopes_of(v0)).insert(
                        lhs_view,
                        rr,
                    ));
                    assert forall|i: int, k: nat|
                        0 <= i < scopes_of(v0).len() && k < next_of(v0)
                            implies #[trigger] block_agrees_at(
                        to_block(scopes_of(v0)[i]),
                        to_block(scopes_of(*self)[i]),
                        k,
                    ) by {
                        assert(block_agrees_at(
                            to_block(scopes_of(v0)[i]),
                            to_block(scopes_of(v1)[i]),
                            k,
                        ));
                        assert(to_block(scopes_of(*self)[i]) == to_block(scopes_of(v1)[i]));
                    }
                }
                Ok(())
            },
        }
    }

    /// Convert one surface function to a scoped, untyped SSA function.
    /// Succeeds exactly when the body ends in a return statement and every
    /// identifier use is bound when reached; a body without a return is
    /// reported as [`SsaError::MissingReturnStatement`], fatal for this
    /// function only.  The declared return type is recorded on the
    /// returned local.
    pub fn convert_fundef(&mut self, fundef: parse_ast::Fundef) -> (r: Result<
        Fundef<UntypedAst>,
        SsaError,
    >)
        requires
            parse_ast::fundef_size(fundef) <= usize::MAX,
        ensures
            match r {
                Ok(g) => {
                    &&& wf_fundef(g)
                    &&& fundef_matches(g, fundef)
                    &&& fundef_converts(fundef, g)
                    &&& g.block.local_vars.next_key() == parse_ast::fundef_size(fundef)
                },
                Err(e) => true,
            },
            (r is Ok) == (fundef.ret_expr is Some && parse_ast::fundef_ids_bound(fundef)),
            (r == Err::<Fundef<UntypedAst>, SsaError>(SsaError::MissingReturnStatement)) == (
            fundef.ret_expr is None && parse_ast::stmts_ids_bound(
                fundef.body@,
                parse_ast::args_env(fundef.args@),
            )),
    {
        let ghost fd = fundef;
        let parse_ast::Fundef { id, args: fargs, ret_type, body, ret_expr } = fundef;
        proof {
            assert(fd.id == id && fd.args == fargs && fd.ret_type == ret_type && fd.body == body
                && fd.ret_expr == ret_expr);
        }
        self.uid = 0;
        self.nargs = fargs.len();
        self.cur = BuildScope {
            vars: Arena::new(),
            ssa: SecondaryArena::new(),
            names: Vec::new(),
            start: 0,
            iv: None,
        };
        self.outer = Vec::new();
        proof {
            assert(scopes_of(*self) =~= seq![self.cur]);
            assert(conv_inv(*self));
        }
        let ghost fargs_view = fargs@;
        proof {
            assert forall|x: Seq<char>|
                !bound_env(scopes_of(*self)).contains(x) by {
                assert(scopes_of(*self).last() == self.cur);
                assert(lookup_scope_names(self.cur.names@, x) is None);
                assert(scopes_of(*self).drop_last() =~= Seq::<BuildScope>::empty());
                assert(lookup_name(Seq::<BuildScope>::empty(), x) is None);
                assert(lookup_name(scopes_of(*self), x) is None);
            }
            assert(bound_env(scopes_of(*self)) =~= parse_ast::args_env(fargs@.take(0)));
            assert(fargs@.take(0) =~= Seq::<(crate::ast::Type, String)>::empty());
            assert(env_map(scopes_of(*self)) =~= arg_env(fargs@.take(0)));
        }
        let mut args: Vec<Avis<UntypedAst>> = Vec::new();
        let mut i: usize = 0;
        while i < fargs.len()
            invariant
                conv_inv(*self),
                self.uid == 0,
                next_of(*self) == 0,
                self.outer@.len() == 0,
                self.cur.iv is None,
                self.nargs == fargs@.len(),
                fargs@ == fargs_view,
                i <= fargs@.len(),
                args@.len() == i as int,
                forall|j: int|
                    0 <= j < i ==> {
                        &&& (#[trigger] args@[j]).name@ == fargs@[j].1@
                        &&& args@[j].ty == Some(fargs@[j].0)
                        &&& args@[j].key == ArgOrVar::Arg(j as usize)
                    },
                bound_env(scopes_of(*self)) == parse_ast::args_env(fargs@.take(i as int)),
                env_map(scopes_of(*self)) == arg_env(fargs@.take(i as int)),
            decreases fargs@.len() - i,
        {
            let ghost pre = *self;
            let (ty, nm) = &fargs[i];
            args.push(Avis { name: nm.clone(), ty: Some(ty.clone()), key: ArgOrVar::Arg(i) });
            let ghost nm_view = nm@;
            self.bind_name(nm.clone(), ArgOrVar::Arg(i));
            proof {
                assert(bound_env(scopes_of(*self)) == bound_env(scopes_of(pre)).insert(nm_view));
                assert(env_map(scopes_of(*self)) =~= env_map(scopes_of(pre)).insert(
                    nm_view,
                    ArgOrVar::Arg(i as usize),
                ));
                assert(fargs@.take(i + 1).drop_last() =~= fargs@.take(i as int));
                assert(fargs@.take(i + 1).last() == fargs@[i as int]);
                assert(arg_env(fargs@.take(i + 1)) == arg_env(fargs@.take(i as int)).insert(
                    nm_view,
                    ArgOrVar::Arg(i as usize),
                ));
                assert(parse_ast::args_env(fargs@.take(i + 1)) =~= parse_ast::args_env(
                    fargs@.take(i as int),
                ).insert(nm_view)) by {
                    assert forall|x: Seq<char>|
                        parse_ast::args_env(fargs@.take(i + 1)).contains(x)
                            == parse_ast::args_env(fargs@.take(i as int)).insert(nm_view).contains(
                            x,
                        ) by {
                        if parse_ast::args_env(fargs@.take(i + 1)).contains(x) {
                            let j = choose|j: int|
                                0 <= j < fargs@.take(i + 1).len() && (#[trigger] fargs@.take(
                                    i + 1,
                                )[j]).1@ == x;
                            if j < i {
                                assert(fargs@.take(i as int)[j].1@ == x);
                            }
                        }
                        if parse_ast::args_env(fargs@.take(i as int)).contains(x) {
                            let j = choose|j: int|
                                0 <= j < fargs@.take(i as int).len() && (#[trigger] fargs@.take(
                                    i as int,
                                )[j]).1@ == x;
                            assert(fargs@.take(i + 1)[j].1@ == x);
                        }
                        if x == nm_view {
                            assert(fargs@.take(i + 1)[i as int].1@ == x);
                        }
                    }
                }
            }
            i = i + 1;
        }
        proof {
            assert(fargs@.take(fargs@.len() as int) =~= fargs@);
        }
        let ghost env0 = parse_ast::args_env(fargs@);
        let ghost env0m = arg_env(fargs@);
        let ghost body_view = body@;
        let mut body = body;
        let blen = body.len();
        let mut done: usize = 0;
        proof {
            assert(body_view.take(0) =~= Seq::<parse_ast::Stmt>::empty());
        }
        while body.len() > 0
            invariant
                conv_inv(*self),
                self.uid <= next_of(*self),
                self.outer@.len() == 0,
                self.nargs == fargs_view.len(),
                blen == body_view.len(),
                self.cur.iv is None,
                fd == fundef,
                fd.body@ == body_view,
                parse_ast::args_env(fd.args@) == env0,
                fd.ret_expr == ret_expr,
                fd.args@ == fargs_view,
                done + body@.len() == body_view.len(),
                body@ == body_view.skip(done as int),
                next_of(*self) == parse_ast::stmts_size(body_view.take(done as int)),
                parse_ast::stmts_size(body_view) + (match ret_expr {
                    Some(e) => parse_ast::expr_size(e),
                    None => 0nat,
                }) <= usize::MAX,
                bound_env(scopes_of(*self)) == parse_ast::env_after_stmts(
                    env0,
                    body_view.take(done as int),
                ),
                parse_ast::stmts_ids_bound(body_view.take(done as int), env0),
                arg_env(fd.args@) == env0m,
                stmts_convert(
                    stack_view(scopes_of(*self)),
                    env0m,
                    body_view.take(done as int),
                    env_map(scopes_of(*self)),
                    next_of(*self),
                ),
            decreases body@.len(),
        {
            let st = body.remove(0);
            let ghost spre = *self;
            proof {
                assert(st == body_view[done as int]);
                assert(body@ =~= body_view.skip(done as int + 1));
                lemma_stmts_size_step(body_view, done as int);
                lemma_stmts_size_prefix(body_view, done as int + 1);
                lemma_env_after_step(body_view, env0, done as int);
            }
            match self.convert_stmt(st) {
                Ok(()) => {
                    proof {
                        // the conversion facts accumulated so far survive
                        // the fresh keys this statement minted
                        assert forall|k: nat| k < next_of(spre) implies #[trigger] finds_agree(
                            stack_view(scopes_of(spre)),
                            stack_view(scopes_of(*self)),
                            k,
                        ) by {
                            assert forall|ii: int|
                                0 <= ii < stack_view(scopes_of(spre)).len()
                                    implies block_agrees_at(
                                #[trigger] stack_view(scopes_of(spre))[ii],
                                stack_view(scopes_of(*self))[ii],
                                k,
                            ) by {
                                assert(stack_view(scopes_of(spre))[ii] == to_block(
                                    scopes_of(spre)[ii],
                                ));
                                assert(stack_view(scopes_of(*self))[ii] == to_block(
                                    scopes_of(*self)[ii],
                                ));
                                assert(block_agrees_at(
                                    to_block(scopes_of(spre)[ii]),
                                    to_block(scopes_of(*self)[ii]),
                                    k,
                                ));
                            }
                            lemma_finds_agree_pointwise(
                                stack_view(scopes_of(spre)),
                                stack_view(scopes_of(*self)),
                                k,
                            );
                        }
                        lemma_stmts_convert_agree(
                            stack_view(scopes_of(spre)),
                            stack_view(scopes_of(*self)),
                            env0m,
                            body_view.take(done as int),
                            env_map(scopes_of(spre)),
                            next_of(spre),
                        );
                        lemma_stmts_convert_widen(
                            stack_view(scopes_of(*self)),
                            env0m,
                            body_view.take(done as int),
                            env_map(scopes_of(spre)),
                            next_of(spre),
                            next_of(*self),
                        );
                        // extend by this statement's conversion
                        let rr = lookup_name(scopes_of(*self), stmt_lhs(st))->0;
                        assert(body_view.take(done as int + 1).drop_last() =~= body_view.take(
                            done as int,
                        ));
                        assert(body_view.take(done as int + 1).last() == st);
                        assert(stmts_convert(
                            stack_view(scopes_of(*self)),
                            env0m,
                            body_view.take(done as int + 1),
                            env_map(scopes_of(*self)),
                            next_of(*self),
                        ));
                    }
                },
                Err(e) => {
                    proof {
                        if parse_ast::stmts_ids_bound(body_view, env0) {
                            lemma_stmts_bound_take(body_view, env0, done as int + 1);
                            lemma_env_after_step(body_view, env0, done as int);
                            assert(false);
                        }
                        assert(fd.body@ == body_view);
                        assert(parse_ast::args_env(fd.args@) == env0);
                        assert(!parse_ast::stmts_ids_bound(
                            fd.body@,
                            parse_ast::args_env(fd.args@),
                        ));
                    }
                    return Err(e);
                },
            }
            done = done + 1;
        }
        proof {
            assert(body_view.take(done as int) =~= body_view);
        }
        let ghost vstmts = *self;
        proof {
            assert(stmts_convert(
                stack_view(scopes_of(vstmts)),
                env0m,
                fd.body@,
                env_map(scopes_of(vstmts)),
                next_of(vstmts),
            ));
        }
        let rv = match ret_expr {
            Some(e) => {
                match self.convert_expr(e) {
                    Ok(rr) => rr,
                    Err(er) => {
                        return Err(er);
                    },
                }
            },
            None => {
                return Err(SsaError::MissingReturnStatement);
            },
        };
        proof {
            // the accumulated conversion facts survive the return
            // expression's fresh keys
            lemma_levels_to_agree(vstmts, *self, next_of(vstmts));
            lemma_stmts_convert_agree(
                stack_view(scopes_of(vstmts)),
                stack_view(scopes_of(*self)),
                env0m,
                fd.body@,
                env_map(scopes_of(vstmts)),
                next_of(vstmts),
            );
            lemma_stmts_convert_widen(
                stack_view(scopes_of(*self)),
                env0m,
                fd.body@,
                env_map(scopes_of(vstmts)),
                next_of(vstmts),
                next_of(*self),
            );
            assert(expr_converts(
                stack_view(scopes_of(*self)),
                env_map(scopes_of(vstmts)),
                fd.ret_expr->0,
                rv,
                next_of(*self),
            ));
        }
        // record the declared return type on the returned local
        let ghost vpre = *self;
        proof {
            lemma_cur_iv_preserved(vstmts, vpre);
            assert(self.cur.iv is None);
        }
        if let ArgOrVar::Var(k) = rv {
            proof {
                assert(resolvable(
                    stack_view(scopes_of(*self)),
                    rv,
                    ref_measure(rv),
                    self.nargs as nat,
                ));
                assert(scopes_of(*self) =~= seq![self.cur]);
                let s1 = seq![to_block(self.cur)];
                assert(stack_view(scopes_of(*self)) =~= s1);
                assert(s1.last() == to_block(self.cur));
                assert(s1.drop_last() =~= Seq::<Block<UntypedAst>>::empty());
                assert(stack_find_key(s1, k.0 as nat) is Some);
                assert(stack_find_key(Seq::<Block<UntypedAst>>::empty(), k.0 as nat) is None);
                assert(to_block(self.cur).local_vars@.dom().contains(k.0 as nat));
                assert(stack_find_key(stack_view(scopes_of(*self)), k.0 as nat) == Some(
                    self.cur.vars@[k.0 as nat],
                ));
            }
            let name = match self.cur.vars.get(k) {
                Some(a) => a.name.clone(),
                None => {
                    proof {
                        assert(false);
                    }
                    String::new()
                },
            };
            let ghost oldavis = self.cur.vars@[k.0 as nat];
            self.cur.vars.set(
                k,
                Avis { name, ty: Some(ret_type), key: ArgOrVar::Var(k) },
            );
            proof {
                // the patched record keeps its key and its definition
                assert(self.cur.vars@[k.0 as nat].key == oldavis.key);
                let ob = to_block(vpre.cur);
                let nb = to_block(self.cur);
                assert forall|k2: nat| #[trigger] nb.local_vars@.dom().contains(k2) implies {
                    ||| (nb.local_vars@[k2].key == ArgOrVar::Var(Key(k2 as usize))
                        && nb.local_ssa@.dom().contains(k2))
                    ||| (nb.local_vars@[k2].key == ArgOrVar::Iv(Key(k2 as usize))
                        && !nb.local_ssa@.dom().contains(k2))
                } by {
                    assert(ob.local_vars@.dom().contains(k2));
                    if k2 != k.0 as nat {
                        assert(nb.local_vars@[k2] == ob.local_vars@[k2]);
                    }
                }
                assert forall|k2: nat| #[trigger] nb.local_vars@.dom().contains(k2) implies k2
                    < nb.local_vars.next_key() by {
                    assert(ob.local_vars@.dom().contains(k2));
                }
                assert(block_ssa_unique(nb));
                assert forall|k2: nat| #[trigger] nb.local_vars@.dom().contains(k2) implies (
                nb.local_vars@[k2].key matches ArgOrVar::Iv(_) ==> Some(k2) == scope_iv(
                    self.cur,
                )) by {
                    assert(ob.local_vars@.dom().contains(k2));
                    if k2 != k.0 as nat {
                        assert(nb.local_vars@[k2] == ob.local_vars@[k2]);
                    }
                }
                assert forall|k2: nat| #[trigger]
                    nb.local_ssa@.dom().contains(k2) implies expr_ivs_declared(
                    nb.local_ssa@[k2],
                ) by {
                    assert(ob.local_ssa@.dom().contains(k2));
                }
                assert(block_ivs_declared(nb, scope_iv(self.cur)));
                assert(scope_inv(self.cur));
                assert forall|k2: nat| #[trigger] finds_agree(
                    stack_view(scopes_of(vpre)),
                    stack_view(scopes_of(*self)),
                    k2,
                ) by {
                    assert(stack_view(scopes_of(vpre)).drop_last() =~= stack_view(
                        scopes_of(*self),
                    ).drop_last());
                    if k2 != k.0 as nat {
                        assert(nb.local_vars@.dom().contains(k2)
                            ==> nb.local_vars@[k2] == ob.local_vars@[k2]);
                    }
                    lemma_agree_update_last(
                        stack_view(scopes_of(vpre)),
                        stack_view(scopes_of(*self)),
                        k2,
                    );
                }
                lemma_resolvable_agree(
                    stack_view(scopes_of(vpre)),
                    stack_view(scopes_of(*self)),
                    rv,
                    ref_measure(rv),
                    self.nargs as nat,
                );
            }
        }
        proof {
            assert forall|k2: nat| #[trigger] finds_agree(
                stack_view(scopes_of(vpre)),
                stack_view(scopes_of(*self)),
                k2,
            ) by {}
            lemma_stmts_convert_agree(
                stack_view(scopes_of(vpre)),
                stack_view(scopes_of(*self)),
                env0m,
                fd.body@,
                env_map(scopes_of(vstmts)),
                next_of(vpre),
            );
            lemma_converts_agree(
                stack_view(scopes_of(vpre)),
                stack_view(scopes_of(*self)),
                env_map(scopes_of(vstmts)),
                fd.ret_expr->0,
                rv,
                next_of(vpre),
            );
        }
        let mut donecur = BuildScope {
            vars: Arena::new(),
            ssa: SecondaryArena::new(),
            names: Vec::new(),
            start: 0,
            iv: None,
        };
        core::mem::swap(&mut self.cur, &mut donecur);
        let block = Block { local_vars: donecur.vars, local_ssa: donecur.ssa, ret: rv };
        let g = Fundef { name: id, args, block };
        proof {
            assert(block_ssa_unique(g.block)) by {
                assert(block_ssa_unique(to_block(donecur)));
                assert(g.block.local_vars == donecur.vars);
                assert(g.block.local_ssa == donecur.ssa);
            }
            assert(block_ivs_declared(g.block, None::<nat>)) by {
                assert(donecur.iv is None);
                assert(block_ivs_declared(to_block(donecur), scope_iv(donecur)));
                assert(g.block.local_vars == donecur.vars);
                assert(g.block.local_ssa == donecur.ssa);
            }
            let sold = stack_view(scopes_of(ConvertToSsa { cur: donecur, ..*self }));
            assert(sold =~= seq![to_block(donecur)]);
            let snew = seq![g.block];
            assert forall|k2: nat| #[trigger] finds_agree(sold, snew, k2) by {
                assert(sold.drop_last() =~= snew.drop_last());
                lemma_agree_update_last(sold, snew, k2);
            }
            lemma_resolvable_agree(sold, snew, rv, ref_measure(rv), g.args@.len() as nat);
            lemma_resolvable_widen(
                snew,
                rv,
                ref_measure(rv),
                g.block.local_vars.next_key(),
                g.args@.len() as nat,
            );
            assert(wf_fundef(g));
            // the output records exactly the structural conversion
            assert(stack_view(scopes_of(ConvertToSsa { cur: donecur, ..*self })) == sold);
            lemma_stmts_convert_agree(
                sold,
                snew,
                env0m,
                fd.body@,
                env_map(scopes_of(vstmts)),
                next_of(vpre),
            );
            lemma_converts_agree(
                sold,
                snew,
                env_map(scopes_of(vstmts)),
                fd.ret_expr->0,
                rv,
                next_of(vpre),
            );
            assert(next_of(vpre) == g.block.local_vars.next_key());
            assert(fundef_converts(fundef, g)) by {
                let env_out = env_map(scopes_of(vstmts));
                assert(stmts_convert(
                    seq![g.block],
                    arg_env(fundef.args@),
                    fundef.body@,
                    env_out,
                    g.block.local_vars.next_key(),
                )) by {
                    assert(snew == seq![g.block]);
                    assert(arg_env(fundef.args@) == env0m);
                    assert(fundef.body@ == fd.body@);
                }
                assert(expr_converts(
                    seq![g.block],
                    env_out,
                    fundef.ret_expr->0,
                    g.block.ret,
                    g.block.local_vars.next_key(),
                ));
            }
        }
        Ok(g)
    }

    /// Convert a whole surface program.  Each function gets fresh,
    /// disjoint arenas and scopes; a failure in one function is collected
    /// and the remaining functions are still processed.
    pub fn convert_program(&mut self, program: parse_ast::Program) -> (r: (
        Program<UntypedAst>,
        Vec<SsaError>,
    ))
        requires
            forall|i: int|
                0 <= i < program.fundefs@.len() ==> parse_ast::fundef_size(
                    #[trigger] program.fundefs@[i],
                ) <= usize::MAX,
        ensures
            crate::ast::wf_program(r.0),
            program_converts(r.0.fundefs@, program.fundefs@),
            r.0.fundefs@.len() + r.1@.len() == program.fundefs@.len(),
            (r.1@.len() == 0) == (forall|i: int|
                0 <= i < program.fundefs@.len() ==> (#[trigger] program.fundefs@[i]).ret_expr
                    is Some && parse_ast::fundef_ids_bound(program.fundefs@[i])),
            r.1@.len() == 0 ==> forall|i: int|
                0 <= i < program.fundefs@.len() ==> fundef_matches(
                    #[trigger] r.0.fundefs@[i],
                    program.fundefs@[i],
                ),
    {
        let ghost fds = program.fundefs@;
        let mut fundefs = program.fundefs;
        let flen = fundefs.len();
        let mut out: Program<UntypedAst> = Program::new();
        let mut errs: Vec<SsaError> = Vec::new();
        let mut done: usize = 0;
        while fundefs.len() > 0
            invariant
                flen == fds.len(),
                done + fundefs@.len() == fds.len(),
                fundefs@ == fds.skip(done as int),
                out.fundefs@.len() + errs@.len() == done as int,
                forall|i: int|
                    0 <= i < fds.len() ==> parse_ast::fundef_size(#[trigger] fds[i])
                        <= usize::MAX,
                forall|j: int| 0 <= j < out.fundefs@.len() ==> wf_fundef(#[trigger] out.fundefs@[j]),
                program_converts(out.fundefs@, fds.take(done as int)),
                (errs@.len() == 0) == (forall|i: int|
                    0 <= i < done ==> (#[trigger] fds[i]).ret_expr is Some
                        && parse_ast::fundef_ids_bound(fds[i])),
                errs@.len() == 0 ==> out.fundefs@.len() == done as int && forall|i: int|
                    0 <= i < done ==> fundef_matches(#[trigger] out.fundefs@[i], fds[i]),
            decreases fundefs@.len(),
        {
            let f = fundefs.remove(0);
            proof {
                assert(f == fds[done as int]);
                assert(fundefs@ =~= fds.skip(done as int + 1));
            }
            let ghost outs0 = out.fundefs@;
            proof {
                assert(fds.take(done as int + 1).drop_last() =~= fds.take(done as int));
                assert(fds.take(done as int + 1).last() == fds[done as int]);
            }
            match self.convert_fundef(f) {
                Ok(g) => {
                    out.fundefs.push(g);
                    proof {
                        assert(out.fundefs@.drop_last() =~= outs0);
                        assert(program_converts(out.fundefs@, fds.take(done as int + 1)));
                    }
                },
                Err(e) => {
                    errs.push(e);
                    proof {
                        assert(program_converts(out.fundefs@, fds.take(done as int + 1)));
                    }
                },
            }
            done = done + 1;
        }
        proof {
            assert(fds.take(done as int) =~= fds);
        }
        (out, errs)
    }

    /// Mint the identifier of a comprehension's index variable under its
    /// surface name.  It gets no SSA definition: its value is supplied by
    /// the loop that the comprehension lowers to.
    fn mint_iv(&mut self, name: String) -> (k: Key)
        requires
            conv_inv(*old(self)),
            next_of(*old(self)) < usize::MAX,
            old(self).cur.iv is None,
        ensures
            conv_inv(*final(self)),
            k.0 == next_of(*old(self)),
            next_of(*final(self)) == next_of(*old(self)) + 1,
            final(self).uid == old(self).uid,
            final(self).nargs == old(self).nargs,
            final(self).outer == old(self).outer,
            final(self).cur.names == old(self).cur.names,
            final(self).cur.start == old(self).cur.start,
            final(self).cur.ssa == old(self).cur.ssa,
            final(self).cur.iv == Some(k),
            final(self).cur.vars@ == old(self).cur.vars@.insert(
                k.0 as nat,
                final(self).cur.vars@[k.0 as nat],
            ),
            final(self).cur.vars@[k.0 as nat].key == ArgOrVar::Iv(k),
            final(self).cur.vars@[k.0 as nat].name@ == name@,
            resolvable(
                stack_view(scopes_of(*final(self))),
                ArgOrVar::Iv(k),
                ref_measure(ArgOrVar::Iv(k)),
                old(self).nargs as nat,
            ),
            forall|k2: nat|
                k2 < next_of(*old(self)) ==> #[trigger] finds_agree(
                    stack_view(scopes_of(*old(self))),
                    stack_view(scopes_of(*final(self))),
                    k2,
                ),
    {
        let next = self.cur.vars.peek_next_key();
        let key = Key(next);
        let avis = Avis { name, ty: None, key: ArgOrVar::Iv(key) };
        self.cur.vars.insert(avis);
        self.cur.iv = Some(key);
        proof {
            let nk = next as nat;
            let oldb = to_block(old(self).cur);
            let newb = to_block(self.cur);
            assert(!oldb.local_ssa@.dom().contains(nk)) by {
                if oldb.local_ssa@.dom().contains(nk) {
                    assert(oldb.local_vars@.dom().contains(nk));
                }
            }
            assert forall|k2: nat| #[trigger]
                newb.local_ssa@.dom().contains(k2) implies newb.local_vars@.dom().contains(
                k2,
            ) by {
                assert(oldb.local_ssa@.dom().contains(k2));
            }
            assert forall|k2: nat| #[trigger] newb.local_vars@.dom().contains(k2) implies {
                ||| (newb.local_vars@[k2].key == ArgOrVar::Var(Key(k2 as usize))
                    && newb.local_ssa@.dom().contains(k2))
                ||| (newb.local_vars@[k2].key == ArgOrVar::Iv(Key(k2 as usize))
                    && !newb.local_ssa@.dom().contains(k2))
            } by {
                if k2 != nk {
                    assert(oldb.local_vars@.dom().contains(k2));
                }
            }
            assert forall|k2: nat| #[trigger] newb.local_vars@.dom().contains(k2) implies k2
                < newb.local_vars.next_key() by {
                if k2 != nk {
                    assert(oldb.local_vars@.dom().contains(k2));
                }
            }
            assert forall|k2: nat| #[trigger]
                newb.local_ssa@.dom().contains(k2) implies expr_ssa_unique(
                newb.local_ssa@[k2],
            ) by {
                assert(oldb.local_ssa@.dom().contains(k2));
            }
            assert(block_ssa_unique(newb));
            assert forall|k2: nat| #[trigger] newb.local_vars@.dom().contains(k2) implies (
            newb.local_vars@[k2].key matches ArgOrVar::Iv(_) ==> Some(k2) == scope_iv(
                self.cur,
            )) by {
                if k2 != nk {
                    assert(oldb.local_vars@.dom().contains(k2));
                    assert(!(oldb.local_vars@[k2].key matches ArgOrVar::Iv(_)));
                }
            }
            assert forall|k2: nat| #[trigger]
                newb.local_ssa@.dom().contains(k2) implies expr_ivs_declared(
                newb.local_ssa@[k2],
            ) by {
                assert(oldb.local_ssa@.dom().contains(k2));
            }
            assert(block_ivs_declared(newb, scope_iv(self.cur)));
            let news = scopes_of(*self);
            let olds = scopes_of(*old(self));
            assert(news.drop_last() =~= olds.drop_last());
            assert(stack_view(news).drop_last() =~= stack_view(olds).drop_last());
            assert forall|k2: nat| k2 < nk implies #[trigger] finds_agree(
                stack_view(olds),
                stack_view(news),
                k2,
            ) by {
                lemma_agree_update_last(stack_view(olds), stack_view(news), k2);
            }
            assert(stack_find_key(stack_view(news), nk) == Some(self.cur.vars@[nk]));
            assert forall|i: int, j: int|
                0 <= i < news.len() && 0 <= j < news[i].names@.len() implies {
                let rr = (#[trigger] news[i].names@[j]).1;
                &&& ref_below(rr, news[i].vars.next_key())
                &&& (rr matches ArgOrVar::Arg(a) ==> a < self.nargs)
                &&& resolvable(stack_view(news), rr, ref_measure(rr), self.nargs as nat)
            } by {
                assert(news[i].names@ == olds[i].names@);
                let rr = news[i].names@[j].1;
                assert(ref_below(rr, olds[i].vars.next_key()));
                assert(ref_measure(rr) <= nk) by {
                    if i < news.len() - 1 {
                        lemma_outer_below_cur_start(*old(self), i);
                    }
                }
                lemma_resolvable_agree(
                    stack_view(olds),
                    stack_view(news),
                    rr,
                    ref_measure(rr),
                    self.nargs as nat,
                );
            }
        }
        key
    }

    /// Convert one surface expression to SSA form, returning the reference
    /// that stands for its value.  Succeeds exactly when every identifier
    /// the expression uses is bound; the one failure is an unresolved
    /// identifier, a compiler-internal bug for parse trees the parser
    /// produced.
    #[verifier::rlimit(100)]
    #[verifier::spinoff_prover]
    pub fn convert_expr(&mut self, expr: parse_ast::Expr) -> (r: Result<ArgOrVar, SsaError>)
        requires
            conv_inv(*old(self)),
            old(self).uid <= next_of(*old(self)),
            next_of(*old(self)) + parse_ast::expr_size(expr) <= usize::MAX,
        ensures
            conv_inv(*final(self)),
            final(self).uid <= next_of(*final(self)),
            final(self).nargs == old(self).nargs,
            levels_preserved(*old(self), *final(self), next_of(*old(self))),
            next_of(*old(self)) <= next_of(*final(self)) <= next_of(*old(self))
                + parse_ast::expr_size(expr),
            forall|x: Seq<char>|
                lookup_name(scopes_of(*final(self)), x) == lookup_name(scopes_of(*old(self)), x),
            match r {
                Ok(rr) => {
                    &&& next_of(*final(self)) == next_of(*old(self)) + parse_ast::expr_size(expr)
                    &&& final(self).uid == old(self).uid + parse_ast::expr_name_count(expr)
                    &&& ref_below(rr, next_of(*final(self)))
                    &&& resolvable(
                        stack_view(scopes_of(*final(self))),
                        rr,
                        ref_measure(rr),
                        old(self).nargs as nat,
                    )
                    &&& expr_converts(
                        stack_view(scopes_of(*final(self))),
                        env_map(scopes_of(*old(self))),
                        expr,
                        rr,
                        next_of(*final(self)),
                    )
                    &&& (match expr {
                        parse_ast::Expr::Identifier(x) => Some(rr) == lookup_name(
                            scopes_of(*old(self)),
                            x@,
                        ),
                        _ => rr == ArgOrVar::Var(Key((next_of(*final(self)) - 1) as usize)) && (
                        match stack_find_key(
                            stack_view(scopes_of(*final(self))),
                            (next_of(*final(self)) - 1) as nat,
                        ) {
                            Some(a) => a.name@ == fresh_name_of(final(self).uid as nat),
                            None => false,
                        }),
                    })
                },
                Err(e) => e == SsaError::UnresolvedIdentifier,
            },
            (r is Ok) == parse_ast::expr_ids_bound(expr, bound_env(scopes_of(*old(self)))),
        decreases expr,
    {
        match expr {
            parse_ast::Expr::Identifier(id) => {
                match self.find_name(&id) {
                    Some(rr) => {
                        proof {
                            let scopes = scopes_of(*self);
                            lemma_lookup_is_binding(scopes, id@);
                            let (i, j) = choose|i: int, j: int|
                                0 <= i < scopes.len() && 0 <= j < scopes[i].names@.len() && (
                                #[trigger] scopes[i].names@[j]).1 == lookup_name(scopes, id@)->0;
                            assert(ref_below(rr, scopes[i].vars.next_key()));
                            assert(ref_measure(rr) <= next_of(*self)) by {
                                if i < scopes.len() - 1 {
                                    lemma_outer_below_cur_start(*self, i);
                                }
                            }
                            assert(bound_env(scopes).contains(id@));
                            assert(levels_preserved(*self, *self, next_of(*self)));
                            assert(env_map(scopes).dom().contains(id@));
                            assert(env_map(scopes)[id@] == rr);
                        }
                        Ok(rr)
                    },
                    None => {
                        proof {
                            assert(!bound_env(scopes_of(*self)).contains(id@));
                            assert(levels_preserved(*self, *self, next_of(*self)));
                        }
                        Err(SsaError::UnresolvedIdentifier)
                    },
                }
            },
            parse_ast::Expr::Bool(v) => {
                let ghost v0 = *self;
                let name = self.fresh_uid();
                let rr = self.mint_def(name, Expr::Bool(v));
                proof {
                    lemma_levels_lookup(v0, *self, next_of(v0));
                    assert(expr_converts(
                        stack_view(scopes_of(*self)),
                        env_map(scopes_of(v0)),
                        expr,
                        rr,
                        next_of(*self),
                    ));
                }
                Ok(rr)
            },
            parse_ast::Expr::U32(v) => {
                let ghost v0 = *self;
                let name = self.fresh_uid();
                let rr = self.mint_def(name, Expr::U32(v));
                proof {
                    lemma_levels_lookup(v0, *self, next_of(v0));
                    assert(expr_converts(
                        stack_view(scopes_of(*self)),
                        env_map(scopes_of(v0)),
                        expr,
                        rr,
                        next_of(*self),
                    ));
                }
                Ok(rr)
            },
            parse_ast::Expr::Unary { r: operand, op } => {
                let ghost v0 = *self;
                let rr = match self.convert_expr(*operand) {
                    Ok(rr) => rr,
                    Err(e) => {
                        return Err(e);
                    },
                };
                let ghost v1 = *self;
                let name = self.fresh_uid();
                proof {
                    lemma_resolvable_widen(
                        stack_view(scopes_of(v1)),
                        rr,
                        ref_measure(rr),
                        next_of(v1),
                        self.nargs as nat,
                    );
                }
                let out = self.mint_def(name, Expr::Unary(Unary { r: rr, op }));
                proof {
                    lemma_levels_narrow(v1, *self, next_of(v1), next_of(v0));
                    lemma_levels_trans(v0, v1, *self, next_of(v0));
                    lemma_levels_lookup(v0, *self, next_of(v0));
                    lemma_converts_agree(
                        stack_view(scopes_of(v1)),
                        stack_view(scopes_of(*self)),
                        env_map(scopes_of(v0)),
                        *operand,
                        rr,
                        next_of(v1),
                    );
                    lemma_converts_widen(
                        stack_view(scopes_of(*self)),
                        env_map(scopes_of(v0)),
                        *operand,
                        rr,
                        next_of(v1),
                        next_of(*self),
                    );
                    assert(expr_converts(
                        stack_view(scopes_of(*self)),
                        env_map(scopes_of(v0)),
                        expr,
                        out,
                        next_of(*self),
                    ));
                }
                Ok(out)
            },
            parse_ast::Expr::Binary { l, r: rexp, op } => {
                let ghost v0 = *self;
                let lr = match self.convert_expr(*l) {
                    Ok(rr) => rr,
                    Err(e) => {
                        return Err(e);
                    },
                };
                let ghost v1 = *self;
                proof {
                    lemma_levels_lookup(v0, v1, next_of(v0));
                    assert(bound_env(scopes_of(v1)) =~= bound_env(scopes_of(v0)));
                    assert(env_map(scopes_of(v1)) =~= env_map(scopes_of(v0)));
                }
                let rr = match self.convert_expr(*rexp) {
                    Ok(rr) => rr,
                    Err(e) => {
                        proof {
                            lemma_levels_narrow(v1, *self, next_of(v1), next_of(v0));
                            lemma_levels_trans(v0, v1, *self, next_of(v0));
                            lemma_levels_lookup(v0, *self, next_of(v0));
                        }
                        return Err(e);
                    },
                };
                let ghost v2 = *self;
                proof {
                    lemma_levels_narrow(v1, v2, next_of(v1), ref_measure(lr));
                    lemma_lift_ref(v1, v2, lr, self.nargs as nat);
                    lemma_resolvable_widen(
                        stack_view(scopes_of(v2)),
                        lr,
                        ref_measure(lr),
                        next_of(v2),
                        self.nargs as nat,
                    );
                    lemma_resolvable_widen(
                        stack_view(scopes_of(v2)),
                        rr,
                        ref_measure(rr),
                        next_of(v2),
                        self.nargs as nat,
                    );
                }
                let name = self.fresh_uid();
                proof {
                    lemma_levels_to_agree(v1, v2, next_of(v1));
                    lemma_converts_agree(
                        stack_view(scopes_of(v1)),
                        stack_view(scopes_of(v2)),
                        env_map(scopes_of(v0)),
                        *l,
                        lr,
                        next_of(v1),
                    );
                    lemma_converts_widen(
                        stack_view(scopes_of(v2)),
                        env_map(scopes_of(v0)),
                        *l,
                        lr,
                        next_of(v1),
                        next_of(v2),
                    );
                }
                let out = self.mint_def(name, Expr::Binary(Binary { l: lr, r: rr, op }));
                proof {
                    lemma_levels_narrow(v1, v2, next_of(v1), next_of(v0));
                    lemma_levels_trans(v0, v1, v2, next_of(v0));
                    lemma_levels_narrow(v2, *self, next_of(v2), next_of(v0));
                    lemma_levels_trans(v0, v2, *self, next_of(v0));
                    lemma_levels_lookup(v0, *self, next_of(v0));
                    lemma_converts_agree(
                        stack_view(scopes_of(v2)),
                        stack_view(scopes_of(*self)),
                        env_map(scopes_of(v0)),
                        *l,
                        lr,
                        next_of(v2),
                    );
                    lemma_converts_agree(
                        stack_view(scopes_of(v2)),
                        stack_view(scopes_of(*self)),
                        env_map(scopes_of(v0)),
                        *rexp,
                        rr,
                        next_of(v2),
                    );
                    lemma_converts_widen(
                        stack_view(scopes_of(*self)),
                        env_map(scopes_of(v0)),
                        *l,
                        lr,
                        next_of(v2),
                        next_of(*self),
                    );
                    lemma_converts_widen(
                        stack_view(scopes_of(*self)),
                        env_map(scopes_of(v0)),
                        *rexp,
                        rr,
                        next_of(v2),
                        next_of(*self),
                    );
                    assert(expr_converts(
                        stack_view(scopes_of(*self)),
                        env_map(scopes_of(v0)),
                        expr,
                        out,
                        next_of(*self),
                    ));
                }
                Ok(out)
            },
            parse_ast::Expr::Tensor { iv, expr: body_expr, lb, ub } => {
                let ghost v0 = *self;
                let lbr = match self.convert_expr(*lb) {
                    Ok(rr) => rr,
                    Err(e) => {
                        return Err(e);
                    },
                };
                let ghost v1 = *self;
                proof {
                    lemma_levels_lookup(v0, v1, next_of(v0));
                    assert(bound_env(scopes_of(v1)) =~= bound_env(scopes_of(v0)));
                    assert(env_map(scopes_of(v1)) =~= env_map(scopes_of(v0)));
                }
                let ubr = match self.convert_expr(*ub) {
                    Ok(rr) => rr,
                    Err(e) => {
                        proof {
                            lemma_levels_narrow(v1, *self, next_of(v1), next_of(v0));
                            lemma_levels_trans(v0, v1, *self, next_of(v0));
                            lemma_levels_lookup(v0, *self, next_of(v0));
                        }
                        return Err(e);
                    },
                };
                let ghost v2 = *self;
                proof {
                    lemma_levels_narrow(v1, v2, next_of(v1), ref_measure(lbr));
                    lemma_lift_ref(v1, v2, lbr, self.nargs as nat);
                    lemma_levels_narrow(v1, v2, next_of(v1), next_of(v0));
                    lemma_levels_trans(v0, v1, v2, next_of(v0));
                    lemma_levels_lookup(v0, v2, next_of(v0));
                    assert(bound_env(scopes_of(v2)) =~= bound_env(scopes_of(v0)));
                    lemma_levels_to_agree(v1, v2, next_of(v1));
                    lemma_converts_agree(
                        stack_view(scopes_of(v1)),
                        stack_view(scopes_of(v2)),
                        env_map(scopes_of(v0)),
                        *lb,
                        lbr,
                        next_of(v1),
                    );
                    lemma_converts_widen(
                        stack_view(scopes_of(v2)),
                        env_map(scopes_of(v0)),
                        *lb,
                        lbr,
                        next_of(v1),
                        next_of(v2),
                    );
                }
                self.push_build_scope();
                let ghost v3 = *self;
                proof {
                    // pushing an empty scope binds nothing
                    assert forall|x: Seq<char>|
                        lookup_name(scopes_of(v3), x) == #[trigger] lookup_name(
                            scopes_of(v2),
                            x,
                        ) by {
                        assert(scopes_of(v3).last() == v3.cur);
                        assert(lookup_scope_names(v3.cur.names@, x) is None);
                        assert(scopes_of(v3).drop_last() =~= scopes_of(v2));
                    }
                }
                let iv_name = iv.0;
                let iv_name2 = iv_name.clone();
                let ivkey = self.mint_iv(iv_name);
                let ghost v4 = *self;
                proof {
                    assert forall|x: Seq<char>|
                        lookup_name(scopes_of(v4), x) == #[trigger] lookup_name(
                            scopes_of(v3),
                            x,
                        ) by {
                        lemma_lookup_same_names(scopes_of(v3), scopes_of(v4), x);
                    }
                }
                self.bind_name(iv_name2, ArgOrVar::Iv(ivkey));
                let ghost v5 = *self;
                proof {
                    assert(bound_env(scopes_of(v5)) =~= bound_env(scopes_of(v0)).insert(
                        iv.0@,
                    ));
                    assert(bound_env(scopes_of(v5)) == bound_env(scopes_of(v0)).insert(iv.0@));
                    assert(env_map(scopes_of(v5)) =~= env_map(scopes_of(v0)).insert(
                        iv.0@,
                        ArgOrVar::Iv(ivkey),
                    ));
                }
                let body_ret = match self.convert_expr(*body_expr) {
                    Ok(rr) => rr,
                    Err(e) => {
                        let ghost v6e = *self;
                        let _ = self.pop_build_scope();
                        proof {
                            lemma_bracket(v2, v3, v5, v6e, *self);
                            lemma_levels_trans(v0, v2, *self, next_of(v0));
                            lemma_levels_lookup(v0, *self, next_of(v0));
                        }
                        return Err(e);
                    },
                };
                let ghost v6 = *self;
                let popped = self.pop_build_scope();
                let ghost v7 = *self;
                proof {
                    lemma_bracket(v2, v3, v5, v6, v7);
                    lemma_levels_narrow(v0, v2, next_of(v0), next_of(v0));
                    lemma_levels_trans(v0, v2, v7, next_of(v0));
                }
                let body = Block { local_vars: popped.vars, local_ssa: popped.ssa, ret: body_ret };
                let name = self.fresh_uid();
                proof {
                    let nargs = self.nargs as nat;
                    let n7 = next_of(v7);
                    // the bounds still resolve after the bracket
                    lemma_levels_narrow(v2, v7, next_of(v2), ref_measure(lbr));
                    lemma_lift_ref(v2, v7, lbr, nargs);
                    lemma_resolvable_widen(
                        stack_view(scopes_of(v7)),
                        lbr,
                        ref_measure(lbr),
                        n7,
                        nargs,
                    );
                    lemma_levels_narrow(v2, v7, next_of(v2), ref_measure(ubr));
                    lemma_lift_ref(v2, v7, ubr, nargs);
                    lemma_resolvable_widen(
                        stack_view(scopes_of(v7)),
                        ubr,
                        ref_measure(ubr),
                        n7,
                        nargs,
                    );
                    // the packaged body block carries the index variable
                    let ivk = ivkey.0 as nat;
                    let nlvl = v5.outer@.len() as int;
                    assert(scopes_of(v5)[nlvl] == v5.cur);
                    assert(scopes_of(v6)[nlvl] == v6.cur);
                    assert(v5.cur.vars@.dom().contains(ivk));
                    assert(v5.cur.vars@[ivk].key == ArgOrVar::Iv(ivkey));
                    assert(block_agrees_at(to_block(v5.cur), to_block(v6.cur), ivk));
                    assert(body.local_vars@.dom().contains(ivk));
                    assert(body.local_vars@[ivk].key == ArgOrVar::Iv(ivkey));
                    // the body's return reference resolves on the stack with
                    // the packaged body pushed back on
                    let s6 = stack_view(scopes_of(v6));
                    let s7b = stack_view(scopes_of(v7)).push(body);
                    assert(s7b.last() == body);
                    assert(s7b.drop_last() =~= stack_view(scopes_of(v7)));
                    assert(stack_find_key(s7b, ivk) == Some(body.local_vars@[ivk]));
                    assert(s6.len() == s7b.len());
                    assert forall|k: nat| k < ref_measure(body_ret) implies #[trigger] finds_agree(
                        s6,
                        s7b,
                        k,
                    ) by {
                        let nout = v2.outer@.len() as int;
                        assert forall|i: int| 0 <= i < s6.len() implies block_agrees_at(
                            #[trigger] s6[i],
                            s7b[i],
                            k,
                        ) by {
                            if i < nout {
                                assert(s6[i] == to_block(scopes_of(v6)[i]));
                                assert(scopes_of(v6)[i] == v6.outer@[i]);
                                assert(s7b[i] == stack_view(scopes_of(v7))[i]);
                                assert(scopes_of(v7)[i] == v7.outer@[i]);
                                assert(v7.outer@[i] == v6.outer@[i]);
                            } else if i == nout {
                                assert(s6[i] == to_block(scopes_of(v6)[i]));
                                assert(scopes_of(v6)[nout] == v6.outer@[nout]);
                                assert(v6.outer@.last() == v6.outer@[nout]);
                                assert(s7b[i] == stack_view(scopes_of(v7))[i]);
                                assert(scopes_of(v7)[nout] == v7.cur);
                                assert(v7.cur.vars@ == v6.outer@[nout].vars@);
                            } else {
                                assert(i == nlvl);
                                assert(s6[i] == to_block(scopes_of(v6)[i]));
                                assert(scopes_of(v6)[i] == v6.cur);
                                assert(s7b[i] == body);
                            }
                        }
                        lemma_finds_agree_pointwise(s6, s7b, k);
                    }
                    lemma_resolvable_agree(s6, s7b, body_ret, ref_measure(body_ret), nargs);
                    lemma_resolvable_widen(s7b, body_ret, ref_measure(body_ret), n7, nargs);
                    assert(block_ssa_unique(body)) by {
                        assert(scope_inv(v6.cur));
                        assert(block_ssa_unique(to_block(v6.cur)));
                        assert(body.local_vars == v6.cur.vars);
                        assert(body.local_ssa == v6.cur.ssa);
                        assert(forall|k: nat| #[trigger]
                            body.local_ssa@.dom().contains(k) ==> body.local_vars@.dom().contains(
                                k,
                            ));
                    }
                    let te = Expr::Tensor(
                        Tensor { body, iv: IndexVector(ivkey), lb: lbr, ub: ubr },
                    );
                    assert(expr_resolvable(stack_view(scopes_of(v7)), te, n7, nargs));
                    assert(expr_ssa_unique(te));
                    // the bound conversions survive the bracket
                    lemma_levels_to_agree(v2, v7, next_of(v2));
                    lemma_converts_agree(
                        stack_view(scopes_of(v2)),
                        stack_view(scopes_of(v7)),
                        env_map(scopes_of(v0)),
                        *lb,
                        lbr,
                        next_of(v2),
                    );
                    lemma_converts_widen(
                        stack_view(scopes_of(v7)),
                        env_map(scopes_of(v0)),
                        *lb,
                        lbr,
                        next_of(v2),
                        n7,
                    );
                    lemma_converts_agree(
                        stack_view(scopes_of(v2)),
                        stack_view(scopes_of(v7)),
                        env_map(scopes_of(v0)),
                        *ub,
                        ubr,
                        next_of(v2),
                    );
                    lemma_converts_widen(
                        stack_view(scopes_of(v7)),
                        env_map(scopes_of(v0)),
                        *ub,
                        ubr,
                        next_of(v2),
                        n7,
                    );
                    // the body's conversion survives repackaging onto the
                    // popped stack
                    let nout = v2.outer@.len() as int;
                    assert forall|k2: nat| #[trigger] finds_agree(s6, s7b, k2) by {
                        assert forall|i: int| 0 <= i < s6.len() implies block_agrees_at(
                            s6[i],
                            s7b[i],
                            k2,
                        ) by {
                            if i < nout {
                                assert(s6[i] == to_block(scopes_of(v6)[i]));
                                assert(scopes_of(v6)[i] == v6.outer@[i]);
                                assert(s7b[i] == stack_view(scopes_of(v7))[i]);
                                assert(scopes_of(v7)[i] == v7.outer@[i]);
                                assert(v7.outer@[i] == v6.outer@[i]);
                            } else if i == nout {
                                assert(s6[i] == to_block(scopes_of(v6)[i]));
                                assert(scopes_of(v6)[nout] == v6.outer@[nout]);
                                assert(v6.outer@.last() == v6.outer@[nout]);
                                assert(s7b[i] == stack_view(scopes_of(v7))[i]);
                                assert(scopes_of(v7)[nout] == v7.cur);
                                assert(v7.cur.vars@ == v6.outer@[nout].vars@);
                            } else {
                                assert(i == nlvl);
                                assert(s6[i] == to_block(scopes_of(v6)[i]));
                                assert(scopes_of(v6)[i] == v6.cur);
                                assert(s7b[i] == body);
                            }
                        }
                        lemma_finds_agree_pointwise(s6, s7b, k2);
                    }
                    lemma_converts_agree(
                        s6,
                        s7b,
                        env_map(scopes_of(v5)),
                        *body_expr,
                        body_ret,
                        next_of(v6),
                    );
                    lemma_converts_widen(
                        s7b,
                        env_map(scopes_of(v5)),
                        *body_expr,
                        body_ret,
                        next_of(v6),
                        n7,
                    );
                    assert(expr_converts(
                        s7b,
                        env_map(scopes_of(v0)).insert(iv.0@, ArgOrVar::Iv(ivkey)),
                        *body_expr,
                        body_ret,
                        n7,
                    ));
                    assert(v5.cur.iv == Some(ivkey));
                    lemma_cur_iv_preserved(v5, v6);
                    assert(block_ivs_declared(body, Some(ivkey.0 as nat))) by {
                        assert(scope_inv(v6.cur));
                        assert(scope_iv(v6.cur) == Some(ivkey.0 as nat));
                        assert(block_ivs_declared(to_block(v6.cur), scope_iv(v6.cur)));
                        assert(body.local_vars == v6.cur.vars);
                        assert(body.local_ssa == v6.cur.ssa);
                    }
                    assert(expr_ivs_declared(te));
                }
                let out = self.mint_def(
                    name,
                    Expr::Tensor(Tensor { body, iv: IndexVector(ivkey), lb: lbr, ub: ubr }),
                );
                proof {
                    lemma_levels_narrow(v7, *self, next_of(v7), next_of(v0));
                    lemma_levels_trans(v0, v7, *self, next_of(v0));
                    lemma_levels_lookup(v0, *self, next_of(v0));
                    let envb = env_map(scopes_of(v0)).insert(iv.0@, ArgOrVar::Iv(ivkey));
                    let fs = stack_view(scopes_of(*self));
                    lemma_converts_agree(
                        stack_view(scopes_of(v7)),
                        fs,
                        env_map(scopes_of(v0)),
                        *lb,
                        lbr,
                        next_of(v7),
                    );
                    lemma_converts_widen(
                        fs,
                        env_map(scopes_of(v0)),
                        *lb,
                        lbr,
                        next_of(v7),
                        next_of(*self),
                    );
                    lemma_converts_agree(
                        stack_view(scopes_of(v7)),
                        fs,
                        env_map(scopes_of(v0)),
                        *ub,
                        ubr,
                        next_of(v7),
                    );
                    lemma_converts_widen(
                        fs,
                        env_map(scopes_of(v0)),
                        *ub,
                        ubr,
                        next_of(v7),
                        next_of(*self),
                    );
                    assert forall|k2: nat| k2 < next_of(v7) implies #[trigger] finds_agree(
                        stack_view(scopes_of(v7)).push(body),
                        fs.push(body),
                        k2,
                    ) by {
                        lemma_push_preserves_agree(stack_view(scopes_of(v7)), fs, body, k2);
                    }
                    lemma_converts_agree(
                        stack_view(scopes_of(v7)).push(body),
                        fs.push(body),
                        envb,
                        *body_expr,
                        body_ret,
                        next_of(v7),
                    );
                    lemma_converts_widen(
                        fs.push(body),
                        envb,
                        *body_expr,
                        body_ret,
                        next_of(v7),
                        next_of(*self),
                    );
                    assert(fs.push(body).drop_last() =~= fs);
                    assert(stack_find_key(fs.push(body), ivkey.0 as nat) == Some(
                        body.local_vars@[ivkey.0 as nat],
                    ));
                    assert(body.local_vars@[ivkey.0 as nat].name@ == iv.0@);
                    assert(expr_converts(fs, env_map(scopes_of(v0)), expr, out, next_of(*self)));
                }
                Ok(out)
            },
        }
    }
}

} // verus!
