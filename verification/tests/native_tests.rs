use tinylang::lexer::lex;
use tinylang::native::{codegen, try_codegen, NativeError};
use tinylang::parser::parse;

fn assembly(src: &str) -> String {
    codegen(&parse(lex(src)).result)
}

fn assembly_err(src: &str) -> NativeError {
    try_codegen(&parse(lex(src)).result).unwrap_err()
}

const PROLOGUE: &str = ".intel_syntax noprefix\n.global _main\n_main:\n    push rbp\n    mov  rbp, rsp\n";
const EPILOGUE: &str = "    pop  rbp\n    ret\n";

#[test]
fn tree_walk_allocates_registers() {
    assert_eq!(
        assembly("1 + 2 * 3"),
        format!(
            "{}    mov  rax, 1\n    mov  r11, 2\n    mov  r10, 3\n    imul r11, r10\n    add  rax, r11\n{}",
            PROLOGUE, EPILOGUE
        )
    );
}

#[test]
fn literal_goes_to_rax() {
    assert_eq!(assembly("7"), format!("{}    mov  rax, 7\n{}", PROLOGUE, EPILOGUE));
}

#[test]
fn negation_and_subtraction() {
    assert_eq!(
        assembly("-5 - 2"),
        format!(
            "{}    mov  rax, 5\n    neg  rax\n    mov  r11, 2\n    sub  rax, r11\n{}",
            PROLOGUE, EPILOGUE
        )
    );
}

#[test]
fn left_deep_trees_reuse_one_register() {
    let text = assembly("1 + 2 + 3 + 4 + 5 + 6 + 7 + 8 + 9");
    assert!(!text.contains("r10"));
    assert!(text.ends_with(&format!("    add  rax, r11\n{}", EPILOGUE)));
}

#[test]
fn division_is_unsupported() {
    assert_eq!(assembly_err("6 / 2"), NativeError::DivisionUnsupported);
}

#[test]
fn non_arithmetic_is_unsupported() {
    assert_eq!(assembly_err("true"), NativeError::Unsupported);
    assert_eq!(assembly_err("1 < 2"), NativeError::Unsupported);
    assert_eq!(assembly_err("{ 1 }"), NativeError::Unsupported);
    assert_eq!(assembly_err("1 + x"), NativeError::Unsupported);
}

#[test]
fn seven_scratch_registers_suffice() {
    let text = assembly("1+(1+(1+(1+(1+(1+(1+1))))))");
    assert!(text.contains("    mov  rbx, 1\n"));
}

#[test]
fn eight_nested_right_operands_run_out_of_registers() {
    assert_eq!(assembly_err("1+(1+(1+(1+(1+(1+(1+(1+1)))))))"), NativeError::OutOfRegisters);
}
