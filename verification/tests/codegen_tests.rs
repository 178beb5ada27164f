use tinylang::codegen::{codegen, try_codegen, CodegenError};
use tinylang::lexer::lex;
use tinylang::parser::parse;

fn ir(src: &str) -> String {
    codegen(&parse(lex(src)))
}

fn ir_err(src: &str) -> CodegenError {
    try_codegen(&parse(lex(src))).unwrap_err()
}

#[test]
fn arithmetic_in_one_block() {
    assert_eq!(
        ir("1 + 2 * 3"),
        "define i64 @main() {\n\
         entry:\n  \
         %v0 = mul i64 2, 3\n  \
         %v1 = add i64 1, %v0\n  \
         ret i64 %v1\n\
         }\n"
    );
}

#[test]
fn literal_program() {
    assert_eq!(ir("42"), "define i64 @main() {\nentry:\n  ret i64 42\n}\n");
}

#[test]
fn negation_and_division() {
    assert_eq!(
        ir("-(7) / 2"),
        "define i64 @main() {\nentry:\n  %v0 = sub i64 0, 7\n  %v1 = sdiv i64 %v0, 2\n  ret i64 %v1\n}\n"
    );
}

#[test]
fn let_bindings_use_stack_slots() {
    assert_eq!(
        ir("let x = 5; x"),
        "define i64 @main() {\nentry:\n  %x_slot_0 = alloca i64\n  store i64 5, ptr %x_slot_0\n  %v1 = load i64, ptr %x_slot_0\n  ret i64 %v1\n}\n"
    );
}

#[test]
fn later_let_shadows_earlier() {
    assert_eq!(
        ir("let x = 1; let x = 2; x"),
        "define i64 @main() {\nentry:\n  %x_slot_0 = alloca i64\n  store i64 1, ptr %x_slot_0\n  %x_slot_1 = alloca i64\n  store i64 2, ptr %x_slot_1\n  %v2 = load i64, ptr %x_slot_1\n  ret i64 %v2\n}\n"
    );
}

#[test]
fn block_bindings_do_not_leak() {
    let text = ir("let x = 1; { let x = 2; x } + x");
    assert_eq!(
        text,
        "define i64 @main() {\nentry:\n  %x_slot_0 = alloca i64\n  store i64 1, ptr %x_slot_0\n  %x_slot_1 = alloca i64\n  store i64 2, ptr %x_slot_1\n  %v2 = load i64, ptr %x_slot_1\n  %v3 = load i64, ptr %x_slot_0\n  %v4 = add i64 %v2, %v3\n  ret i64 %v4\n}\n"
    );
}

#[test]
fn block_binding_is_gone_after_block() {
    assert_eq!(ir_err("{ let y = 2; y } + y"), CodegenError::UndefinedIdentifier("y".to_string()));
}

#[test]
fn comparison_result_is_zero_extended() {
    assert_eq!(
        ir("1 < 2"),
        "define i64 @main() {\nentry:\n  %v0 = icmp slt i64 1, 2\n  %v1 = zext i1 %v0 to i64\n  ret i64 %v1\n}\n"
    );
}

#[test]
fn boolean_literal_result_is_zero_extended() {
    assert_eq!(
        ir("true"),
        "define i64 @main() {\nentry:\n  %v0 = zext i1 true to i64\n  ret i64 %v0\n}\n"
    );
}

#[test]
fn every_predicate() {
    for (op, pred) in [("<", "slt"), (">", "sgt"), ("<=", "sle"), (">=", "sge"), ("==", "eq"), ("!=", "ne")] {
        let text = ir(&format!("3 {} 4", op));
        assert!(text.contains(&format!("  %v0 = icmp {} i64 3, 4\n", pred)));
    }
}

#[test]
fn if_expression_uses_phi() {
    assert_eq!(
        ir("if 1 < 2 { 10 } else { 20 }"),
        "define i64 @main() {\n\
         entry:\n  \
         %v0 = icmp slt i64 1, 2\n  \
         br i1 %v0, label %if.then.1, label %if.else.2\n\
         if.then.1:\n  \
         br label %if.merge.3\n\
         if.else.2:\n  \
         br label %if.merge.3\n\
         if.merge.3:\n  \
         %v4 = phi i64 [10, %if.then.1], [20, %if.else.2]\n  \
         ret i64 %v4\n\
         }\n"
    );
}

#[test]
fn nested_if_phi_names_the_exit_block() {
    let text = ir("if true { if false { 1 } else { 2 } } else { 3 }");
    assert!(text.contains("%v7 = phi i64 [%v6, %if.merge.5], [3, %if.else.1]\n"));
}

#[test]
fn if_with_boolean_branches_zero_extends() {
    let text = ir("if true { false } else { true }");
    assert!(text.contains("%v3 = phi i1 [false, %if.then.0], [true, %if.else.1]\n"));
    assert!(text.contains("%v4 = zext i1 %v3 to i64\n"));
}

#[test]
fn undefined_identifier_is_an_error() {
    assert_eq!(ir_err("x + 1"), CodegenError::UndefinedIdentifier("x".to_string()));
}

#[test]
fn forward_reference_is_an_error() {
    assert_eq!(
        ir_err("let a = b; let b = 1; a"),
        CodegenError::UndefinedIdentifier("b".to_string())
    );
}

#[test]
fn mismatched_branch_types_are_an_error() {
    assert_eq!(ir_err("if true { 1 } else { false }"), CodegenError::BranchTypeMismatch);
}

#[test]
fn negative_and_extreme_literals() {
    assert_eq!(ir("9223372036854775807"), "define i64 @main() {\nentry:\n  ret i64 9223372036854775807\n}\n");
    assert!(ir("-1").contains("%v0 = sub i64 0, 1\n"));
}

#[test]
fn let_of_boolean_uses_i1_slot() {
    assert_eq!(
        ir("let b = 1 == 1; b"),
        "define i64 @main() {\nentry:\n  %v0 = icmp eq i64 1, 1\n  %b_slot_1 = alloca i1\n  store i1 %v0, ptr %b_slot_1\n  %v2 = load i1, ptr %b_slot_1\n  %v3 = zext i1 %v2 to i64\n  ret i64 %v3\n}\n"
    );
}

#[test]
fn integer_if_condition_is_an_error() {
    assert_eq!(ir_err("if 1 { 2 } else { 3 }"), CodegenError::IllTyped);
    assert_eq!(ir_err("let x = 5; if x { 1 } else { 0 }"), CodegenError::IllTyped);
}

#[test]
fn boolean_arithmetic_operand_is_an_error() {
    assert_eq!(ir_err("true + 1"), CodegenError::IllTyped);
    assert_eq!(ir_err("2 * (1 < 2)"), CodegenError::IllTyped);
    assert_eq!(ir_err("-false"), CodegenError::IllTyped);
    assert_eq!(ir_err("true < 1"), CodegenError::IllTyped);
    assert_eq!(ir_err("let b = true; b / 2"), CodegenError::IllTyped);
}

#[test]
fn boolean_condition_from_a_binding_compiles() {
    let text = ir("let b = 1 < 2; if b { 1 } else { 0 }");
    assert!(text.contains("br i1 %v2, label %if.then.3, label %if.else.4\n"));
}
