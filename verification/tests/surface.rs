// Scenarios driven from source text through the scanner and parser.

use impc::codegen_c::CodegenContext;
use impc::codegen_header::CompileHeader;
use impc::convert_to_ssa::ConvertToSsa;
use impc::scanparse::scanparse;
use impc::show::Show;
use impc::type_infer::TypeInfer;

fn compile_c_from(src: &str) -> String {
    let tree = scanparse(src).unwrap();
    let (ssa, errs) = ConvertToSsa::new().convert_program(tree);
    assert!(errs.is_empty());
    let typed = TypeInfer::new().trav_program(&ssa).unwrap();
    CodegenContext::new().compile_program(&typed)
}

#[test]
fn parsed_scalar_add_compiles_to_c() {
    let c = compile_c_from("fn add(u32 a, u32 b) -> u32 { return a + b; }");
    let expected = "#include <stdbool.h>\n#include <stdint.h>\n\n\
                    uint32_t DSL_add(uint32_t a, uint32_t b) {\n    return a + b;\n}\n";
    assert_eq!(c, expected);
}

#[test]
fn parsed_unary_not_compiles_to_c() {
    let c = compile_c_from("fn neg(bool b) -> bool { return !b; }");
    let expected = "#include <stdbool.h>\n#include <stdint.h>\n\n\
                    bool DSL_neg(bool b) {\n    return !b;\n}\n";
    assert_eq!(c, expected);
}

#[test]
fn parsed_comprehension_compiles_to_c() {
    let c = compile_c_from("fn range(u32 n) -> u32[n] { return { iv + 1 | 0 <= iv < n }; }");
    let expected = "#include <stdlib.h>\n#include <stdbool.h>\n#include <stdint.h>\n\n\
                    uint32_t* DSL_range(uint32_t n) {\n    \
                    uint32_t *res = malloc(n * sizeof(uint32_t));\n    \
                    for (size_t iv = 0; iv < n; iv += 1) { res[iv] = iv + 1; }\n    \
                    return res;\n}\n";
    assert_eq!(c, expected);
}

#[test]
fn shadowing_program_compiles_with_hoisted_dependency() {
    // the returned value's definition references the first binding, which
    // is hoisted before the return
    let c = compile_c_from("fn counter(u32 s) -> u32 { x = s * 2; x = x + 1; return x; }");
    let expected = "#include <stdbool.h>\n#include <stdint.h>\n\n\
                    uint32_t DSL_counter(uint32_t s) {\n    \
                    uint32_t _ssa_2 = s * 2;\n    \
                    return _ssa_2 + 1;\n}\n";
    assert_eq!(c, expected);
}

#[test]
fn precedence_groups_multiplication_first() {
    let c = compile_c_from("fn f(u32 a, u32 b, u32 c) -> u32 { return a + b * c; }");
    assert!(c.contains("uint32_t _ssa_1 = b * c;"));
    assert!(c.contains("return a + _ssa_1;"));
}

#[test]
fn parenthesised_grouping_overrides_precedence() {
    let c = compile_c_from("fn f(u32 a, u32 b, u32 c) -> u32 { return (a + b) * c; }");
    assert!(c.contains("uint32_t _ssa_1 = a + b;"));
    assert!(c.contains("return _ssa_1 * c;"));
}

#[test]
fn chained_comparison_is_rejected() {
    let r = scanparse("fn f(u32 a, u32 b, u32 c) -> bool { return a < b < c; }");
    assert!(r.is_err());
}

#[test]
fn header_emits_declaration_and_wrapper() {
    let tree = scanparse("fn add(u32 a, u32 b) -> u32 { return a + b; }").unwrap();
    let (ssa, errs) = ConvertToSsa::new().convert_program(tree);
    assert!(errs.is_empty());
    let typed = TypeInfer::new().trav_program(&ssa).unwrap();
    let mut h = CompileHeader::new();
    h.trav_program(&typed);
    let expected = "unsafe extern \"C\" {\n    fn DSL_add(a: u32, b: u32) -> u32;\n}\n\n\
                    fn add(a: u32, b: u32) -> u32 {\n    unsafe { DSL_add(a, b) }\n}\n";
    assert_eq!(h.header, expected);
}

#[test]
fn header_lowers_vectors_to_growable_arrays() {
    let tree = scanparse("fn range(u32 n) -> u32[n] { return { iv + 1 | 0 <= iv < n }; }").unwrap();
    let (ssa, errs) = ConvertToSsa::new().convert_program(tree);
    assert!(errs.is_empty());
    let typed = TypeInfer::new().trav_program(&ssa).unwrap();
    let mut h = CompileHeader::new();
    h.trav_program(&typed);
    assert!(h.header.contains("fn DSL_range(n: u32) -> Vec<u32>;"));
}

#[test]
fn show_dumps_one_line_per_function() {
    let tree =
        scanparse("fn add(u32 a, u32 b) -> u32 { return a + b; } fn one() -> u32 { return 1; }")
            .unwrap();
    let (ssa, errs) = ConvertToSsa::new().convert_program(tree);
    assert!(errs.is_empty());
    let typed = TypeInfer::new().trav_program(&ssa).unwrap();
    let mut s = Show::new();
    s.show_program(&typed);
    assert_eq!(s.buffer, "fn add(a, b) = _ssa_1\nfn one() = _ssa_1\n");
}

#[test]
fn missing_return_in_source_is_reported_by_ssa_construction() {
    let tree = scanparse("fn f(u32 a) -> u32 { x = a + 1; }").unwrap();
    let (ssa, errs) = ConvertToSsa::new().convert_program(tree);
    assert_eq!(errs.len(), 1);
    assert_eq!(ssa.fundefs.len(), 0);
}

#[test]
fn nested_comprehensions_compile() {
    let c = compile_c_from(
        "fn grid(u32 n) -> u32[n] { return { { iv + jv | 0 <= jv < iv } | 0 <= iv < n }; }",
    );
    // the outer loop assigns the inner allocation per element
    assert!(c.contains("#include <stdlib.h>"));
    assert!(c.contains("for (size_t iv = 0;"));
    assert!(c.contains("for (size_t jv = 0; jv < iv; jv += 1) { res[jv] = iv + jv; }"));
}

#[test]
fn oversized_literal_is_rejected_by_the_scanner() {
    // 4294967296 does not fit the value type, so the token is not a number
    let r = scanparse("fn f() -> u32 { return 4294967296; }");
    assert!(r.is_err());
}
