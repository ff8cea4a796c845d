// End-to-end scenarios: hand-built parse trees through SSA construction,
// type inference and the C emitter.

use impc::ast::{ArgOrVar, BaseType, Bop, Expr, Shape, Type, Uop};
use impc::codegen_c::CodegenContext;
use impc::convert_to_ssa::{ConvertToSsa, SsaError};
use impc::scanparse::parse_ast;
use impc::type_infer::TypeInfer;
use impc::undo_ssa::UndoSsa;

fn u32_ty() -> Type {
    Type { basetype: BaseType::U32, shp: Shape::Scalar }
}

fn bool_ty() -> Type {
    Type { basetype: BaseType::Bool, shp: Shape::Scalar }
}

fn ident(x: &str) -> parse_ast::Expr {
    parse_ast::Expr::Identifier(x.to_string())
}

fn binary(l: parse_ast::Expr, r: parse_ast::Expr, op: Bop) -> parse_ast::Expr {
    parse_ast::Expr::Binary { l: Box::new(l), r: Box::new(r), op }
}

/// `fn add(u32 a, u32 b) -> u32 { return a + b; }`
fn add_fundef() -> parse_ast::Fundef {
    parse_ast::Fundef {
        id: "add".to_string(),
        args: vec![(u32_ty(), "a".to_string()), (u32_ty(), "b".to_string())],
        ret_type: u32_ty(),
        body: vec![],
        ret_expr: Some(binary(ident("a"), ident("b"), Bop::Add)),
    }
}

/// `fn neg(bool b) -> bool { return !b; }`
fn neg_fundef() -> parse_ast::Fundef {
    parse_ast::Fundef {
        id: "neg".to_string(),
        args: vec![(bool_ty(), "b".to_string())],
        ret_type: bool_ty(),
        body: vec![],
        ret_expr: Some(parse_ast::Expr::Unary {
            r: Box::new(ident("b")),
            op: Uop::Not,
        }),
    }
}

/// `fn range(u32 n) -> u32[n] { return { iv + 1 | 0 <= iv < n }; }`
fn range_fundef() -> parse_ast::Fundef {
    parse_ast::Fundef {
        id: "range".to_string(),
        args: vec![(u32_ty(), "n".to_string())],
        ret_type: Type { basetype: BaseType::U32, shp: Shape::Vector(Box::new(Shape::Scalar)) },
        body: vec![],
        ret_expr: Some(parse_ast::Expr::Tensor {
            iv: parse_ast::IndexVector("iv".to_string()),
            expr: Box::new(binary(ident("iv"), parse_ast::Expr::U32(1), Bop::Add)),
            lb: Box::new(parse_ast::Expr::U32(0)),
            ub: Box::new(ident("n")),
        }),
    }
}

fn compile_c(fundefs: Vec<parse_ast::Fundef>) -> String {
    let (ssa, errs) = ConvertToSsa::new().convert_program(parse_ast::Program { fundefs });
    assert!(errs.is_empty());
    let typed = TypeInfer::new().trav_program(&ssa).unwrap();
    CodegenContext::new().compile_program(&typed)
}

#[test]
fn scalar_add_emits_plain_addition() {
    let c = compile_c(vec![add_fundef()]);
    let expected = "#include <stdbool.h>\n#include <stdint.h>\n\n\
                    uint32_t DSL_add(uint32_t a, uint32_t b) {\n    return a + b;\n}\n";
    assert_eq!(c, expected);
}

#[test]
fn scalar_add_builds_one_binary_definition() {
    let (ssa, errs) =
        ConvertToSsa::new().convert_program(parse_ast::Program { fundefs: vec![add_fundef()] });
    assert!(errs.is_empty());
    assert_eq!(ssa.fundefs.len(), 1);
    let f = &ssa.fundefs[0];
    let k = match f.block.ret {
        ArgOrVar::Var(k) => k,
        _ => panic!("return should be a defined local"),
    };
    match f.block.local_ssa.get(k) {
        Some(Expr::Binary(b)) => {
            assert_eq!(b.l, ArgOrVar::Arg(0));
            assert_eq!(b.r, ArgOrVar::Arg(1));
            assert_eq!(b.op, Bop::Add);
        }
        _ => panic!("the one definition should be the addition"),
    }
}

#[test]
fn unary_not_emits_prefix_operator() {
    let c = compile_c(vec![neg_fundef()]);
    let expected = "#include <stdbool.h>\n#include <stdint.h>\n\n\
                    bool DSL_neg(bool b) {\n    return !b;\n}\n";
    assert_eq!(c, expected);
}

#[test]
fn comprehension_emits_malloc_and_counting_loop() {
    let c = compile_c(vec![range_fundef()]);
    let expected = "#include <stdlib.h>\n#include <stdbool.h>\n#include <stdint.h>\n\n\
                    uint32_t* DSL_range(uint32_t n) {\n    \
                    uint32_t *res = malloc(n * sizeof(uint32_t));\n    \
                    for (size_t iv = 0; iv < n; iv += 1) { res[iv] = iv + 1; }\n    \
                    return res;\n}\n";
    assert_eq!(c, expected);
}

#[test]
fn comprehension_type_is_one_dimension_deeper() {
    let (ssa, errs) =
        ConvertToSsa::new().convert_program(parse_ast::Program { fundefs: vec![range_fundef()] });
    assert!(errs.is_empty());
    let typed = TypeInfer::new().trav_program(&ssa).unwrap();
    let f = &typed.fundefs[0];
    let k = match f.block.ret {
        ArgOrVar::Var(k) => k,
        _ => panic!("return should be a defined local"),
    };
    let avis = f.block.local_vars.get(k).unwrap();
    assert_eq!(
        avis.ty,
        Type { basetype: BaseType::U32, shp: Shape::Vector(Box::new(Shape::Scalar)) }
    );
}

/// Shadowing: `x = 1; x = x + 1; return x;` makes two distinct keys; the
/// second definition references the first by key.
#[test]
fn shadowing_makes_two_distinct_keys() {
    let f = parse_ast::Fundef {
        id: "counter".to_string(),
        args: vec![],
        ret_type: u32_ty(),
        body: vec![
            parse_ast::Stmt::Assign { lhs: "x".to_string(), expr: parse_ast::Expr::U32(1) },
            parse_ast::Stmt::Assign {
                lhs: "x".to_string(),
                expr: binary(ident("x"), parse_ast::Expr::U32(1), Bop::Add),
            },
        ],
        ret_expr: Some(ident("x")),
    };
    let (ssa, errs) =
        ConvertToSsa::new().convert_program(parse_ast::Program { fundefs: vec![f] });
    assert!(errs.is_empty());
    let f = &ssa.fundefs[0];
    let second = match f.block.ret {
        ArgOrVar::Var(k) => k,
        _ => panic!("return should be a defined local"),
    };
    // the second binding's definition references the first by key
    let (first, op) = match f.block.local_ssa.get(second) {
        Some(Expr::Binary(b)) => match b.l {
            ArgOrVar::Var(k) => (k, b.op),
            _ => panic!("the left operand should be the first binding"),
        },
        _ => panic!("the second binding should be an addition"),
    };
    assert_eq!(op, Bop::Add);
    assert_ne!(first.0, second.0, "re-binding must mint a new key, never reuse one");
    match f.block.local_ssa.get(first) {
        Some(Expr::U32(1)) => {}
        _ => panic!("the first binding should still hold its definition"),
    }
}

#[test]
fn unbound_identifier_is_reported() {
    let f = parse_ast::Fundef {
        id: "broken".to_string(),
        args: vec![],
        ret_type: u32_ty(),
        body: vec![],
        ret_expr: Some(ident("nowhere")),
    };
    let (ssa, errs) =
        ConvertToSsa::new().convert_program(parse_ast::Program { fundefs: vec![f] });
    assert_eq!(errs, vec![SsaError::UnresolvedIdentifier]);
    assert_eq!(ssa.fundefs.len(), 0);
}

#[test]
fn missing_return_is_reported_for_that_function_only() {
    let broken = parse_ast::Fundef {
        id: "noreturn".to_string(),
        args: vec![],
        ret_type: u32_ty(),
        body: vec![],
        ret_expr: None,
    };
    let (ssa, errs) = ConvertToSsa::new()
        .convert_program(parse_ast::Program { fundefs: vec![broken, add_fundef()] });
    assert_eq!(errs, vec![SsaError::MissingReturnStatement]);
    // the sibling function is still processed
    assert_eq!(ssa.fundefs.len(), 1);
    assert_eq!(ssa.fundefs[0].name, "add");
}

#[test]
fn type_mismatch_is_reported() {
    // `a + b` with a boolean operand does not type under the rules
    let f = parse_ast::Fundef {
        id: "bad".to_string(),
        args: vec![(u32_ty(), "a".to_string()), (bool_ty(), "b".to_string())],
        ret_type: u32_ty(),
        body: vec![],
        ret_expr: Some(binary(ident("a"), ident("b"), Bop::Add)),
    };
    let (ssa, errs) =
        ConvertToSsa::new().convert_program(parse_ast::Program { fundefs: vec![f] });
    assert!(errs.is_empty());
    let r = TypeInfer::new().trav_program(&ssa);
    assert!(r.is_err());
}

/// Idempotence: inferring an already-inferred program again (its typed
/// view taken as the untyped input) reproduces the same types, so the
/// emitted code is identical.
#[test]
fn reinference_reproduces_the_same_types() {
    let (ssa, errs) = ConvertToSsa::new().convert_program(parse_ast::Program {
        fundefs: vec![add_fundef(), neg_fundef(), range_fundef()],
    });
    assert!(errs.is_empty());
    let typed = TypeInfer::new().trav_program(&ssa).unwrap();
    let c1 = CodegenContext::new().compile_program(&typed);
    // reconstruct, re-flatten, re-infer: the result types are unchanged
    let surface = UndoSsa::new().trav_program(&typed);
    let (ssa2, errs2) = ConvertToSsa::new().convert_program(surface);
    assert!(errs2.is_empty());
    let typed2 = TypeInfer::new().trav_program(&ssa2).unwrap();
    let c2 = CodegenContext::new().compile_program(&typed2);
    assert_eq!(c1, c2);
}

/// Round trip: the undo-SSA reconstruction, re-flattened through the SSA
/// builder, preserves literal leaf values and operator nesting order.
#[test]
fn undo_ssa_round_trip_preserves_leaves_and_operators() {
    let (ssa, errs) =
        ConvertToSsa::new().convert_program(parse_ast::Program { fundefs: vec![range_fundef()] });
    assert!(errs.is_empty());
    let typed = TypeInfer::new().trav_program(&ssa).unwrap();
    let surface = UndoSsa::new().trav_program(&typed);
    assert_eq!(surface.fundefs.len(), 1);
    let u = &surface.fundefs[0];
    assert_eq!(u.id, "range");
    assert_eq!(u.body.len(), 1);
    let parse_ast::Stmt::Assign { lhs: _, expr } = &u.body[0];
    match expr {
        parse_ast::Expr::Tensor { iv, expr, lb, ub } => {
            assert_eq!(iv.0, "iv");
            match lb.as_ref() {
                parse_ast::Expr::U32(0) => {}
                other => panic!("lower bound changed: {:?}", other),
            }
            match ub.as_ref() {
                parse_ast::Expr::Identifier(n) => assert_eq!(n, "n"),
                other => panic!("upper bound changed: {:?}", other),
            }
            match expr.as_ref() {
                parse_ast::Expr::Binary { l, r, op: Bop::Add } => {
                    match l.as_ref() {
                        parse_ast::Expr::Identifier(x) => assert_eq!(x, "iv"),
                        other => panic!("left leaf changed: {:?}", other),
                    }
                    match r.as_ref() {
                        parse_ast::Expr::U32(1) => {}
                        other => panic!("right leaf changed: {:?}", other),
                    }
                }
                other => panic!("operator nesting changed: {:?}", other),
            }
        }
        other => panic!("comprehension not reconstructed: {:?}", other),
    }
    // re-flattening accepts the reconstruction and types it identically
    let (ssa2, errs2) = ConvertToSsa::new().convert_program(surface);
    assert!(errs2.is_empty());
    let typed2 = TypeInfer::new().trav_program(&ssa2).unwrap();
    let c2 = CodegenContext::new().compile_program(&typed2);
    let c1 = CodegenContext::new().compile_program(&typed);
    assert_eq!(c1, c2);
}

/// Scoping: once a comprehension's scope is popped, its index-vector key
/// is not declared in the enclosing scope.
#[test]
fn index_vector_key_is_confined_to_its_comprehension() {
    let (ssa, errs) =
        ConvertToSsa::new().convert_program(parse_ast::Program { fundefs: vec![range_fundef()] });
    assert!(errs.is_empty());
    let f = &ssa.fundefs[0];
    // find the comprehension definition and its index-vector key
    let tensor_key = match f.block.ret {
        ArgOrVar::Var(k) => k,
        _ => panic!("return should be the comprehension"),
    };
    let t = match f.block.local_ssa.get(tensor_key) {
        Some(Expr::Tensor(t)) => t,
        _ => panic!("the return definition should be the comprehension"),
    };
    // the index variable lives in the nested scope...
    assert!(t.body.local_vars.get(t.iv.0).is_some());
    // ...and is unresolvable in the enclosing (popped-to) scope
    assert!(f.block.local_vars.get(t.iv.0).is_none());
}
