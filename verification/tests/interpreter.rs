use bylox::chunk::Chunk;
use bylox::vm::InterpretError;
use bylox::vm::Vm;

fn fresh_vm() -> Vm {
    Vm::new(Box::new(Chunk::default()))
}

fn run_lines(source: &str) -> (Result<(), InterpretError>, Vec<String>) {
    let mut vm = fresh_vm();
    let r = vm.interpret(source);
    (r, vm.output().clone())
}

#[test]
fn test_run() {
    bylox::run_test();
}

#[test]
fn arithmetic_precedence() {
    let (r, out) = run_lines("print 1 + 2 * 3;");
    assert!(r.is_ok());
    assert_eq!(out, vec!["7".to_string()]);
}

#[test]
fn string_concatenation() {
    let (r, out) = run_lines("print \"a\" + \"b\" + \"c\";");
    assert!(r.is_ok());
    assert_eq!(out, vec!["abc".to_string()]);
}

#[test]
fn globals_define_assign_print() {
    let (r, out) = run_lines("var x = 10; x = x + 5; print x;");
    assert!(r.is_ok());
    assert_eq!(out, vec!["15".to_string()]);
}

#[test]
fn truthiness_not() {
    let (r, out) = run_lines("print !nil; print !true; print !0;");
    assert!(r.is_ok());
    assert_eq!(out, vec!["true".to_string(), "false".to_string(), "false".to_string()]);
}

#[test]
fn equality_rules() {
    let (r, out) = run_lines("print \"x\" == \"x\"; print 1 == true;");
    assert!(r.is_ok());
    assert_eq!(out, vec!["true".to_string(), "false".to_string()]);
}

#[test]
fn undefined_variable_errors() {
    let mut vm = fresh_vm();
    let r = vm.interpret("print y;");
    assert_eq!(r, Err(InterpretError::RuntimeError("Undefined variable.")));
    assert!(vm.output().is_empty());
    let diags = vm.diagnostics();
    assert_eq!(diags.len(), 1);
    assert!(diags[0].contains("in script"));
}

#[test]
fn var_without_initializer_is_nil() {
    let (r, out) = run_lines("var x; print x;");
    assert!(r.is_ok());
    assert_eq!(out, vec!["nil".to_string()]);
}

#[test]
fn unterminated_string_is_compile_error() {
    let mut vm = fresh_vm();
    let r = vm.interpret("print \"abc");
    assert!(matches!(r, Err(InterpretError::CompileError(_))));
    assert!(vm.output().is_empty());
    assert!(vm.diagnostics().iter().any(|d| d.contains("unterminated string")));
}

#[test]
fn empty_program_runs() {
    let (r, out) = run_lines("");
    assert!(r.is_ok());
    assert!(out.is_empty());
}

#[test]
fn comment_only_program_runs() {
    let (r, out) = run_lines("// nothing here\n");
    assert!(r.is_ok());
    assert!(out.is_empty());
}

#[test]
fn comparisons() {
    let (r, out) = run_lines("print 1 < 2; print 2 <= 2; print 3 > 4; print 4 >= 4;");
    assert!(r.is_ok());
    assert_eq!(out, vec!["true", "true", "false", "true"]);
}

#[test]
fn not_equal_chains() {
    let (r, out) = run_lines("print 1 != 2; print nil == nil; print nil == false;");
    assert!(r.is_ok());
    assert_eq!(out, vec!["true", "true", "false"]);
}

#[test]
fn division_and_remainder() {
    let (r, out) = run_lines("print 10 / 4; print 7 % 3;");
    assert!(r.is_ok());
    assert_eq!(out, vec!["2.5", "1"]);
}

#[test]
fn grouping_and_negation() {
    let (r, out) = run_lines("print (1 + 2) * 3; print -5; print - (2 + 3);");
    assert!(r.is_ok());
    assert_eq!(out, vec!["9", "-5", "-5"]);
}

#[test]
fn unary_minus_binds_tighter_than_subtraction() {
    let (r, out) = run_lines("print -2 - 3;");
    assert!(r.is_ok());
    assert_eq!(out, vec!["-5"]);
}

#[test]
fn string_escapes_through_pipeline() {
    let (r, out) = run_lines("print \"a\\tb\"; print \"q\\\"q\";");
    assert!(r.is_ok());
    assert_eq!(out, vec!["a\tb", "q\"q"]);
}

#[test]
fn reserved_escape_is_compile_error() {
    let mut vm = fresh_vm();
    let r = vm.interpret("print \"\\x41\";");
    assert!(matches!(r, Err(InterpretError::CompileError(_))));
    assert!(vm.diagnostics().iter().any(|d| d.contains("unimplemented string escape")));
}

#[test]
fn globals_persist_across_interpret_calls() {
    let mut vm = fresh_vm();
    assert!(vm.interpret("var x = 1;").is_ok());
    assert!(vm.interpret("print x;").is_ok());
    assert_eq!(vm.output().clone(), vec!["1".to_string()]);
}

#[test]
fn assignment_is_an_expression() {
    let (r, out) = run_lines("var x = 1; var y = 2; print y = x + 5;");
    assert!(r.is_ok());
    assert_eq!(out, vec!["6"]);
}

#[test]
fn invalid_assignment_target_is_compile_error() {
    let mut vm = fresh_vm();
    let r = vm.interpret("1 + 2 = 3;");
    assert!(matches!(r, Err(InterpretError::CompileError(_))));
    assert!(vm.diagnostics().iter().any(|d| d.contains("Invalid assignment target.")));
}

#[test]
fn adding_number_and_string_is_runtime_error() {
    let mut vm = fresh_vm();
    let r = vm.interpret("print 1 + \"a\";");
    assert_eq!(r, Err(InterpretError::RuntimeError("Both operands must be numbers")));
}

#[test]
fn negating_a_string_is_runtime_error() {
    let mut vm = fresh_vm();
    let r = vm.interpret("print -\"a\";");
    assert_eq!(r, Err(InterpretError::RuntimeError("Operand must be a number.")));
}

#[test]
fn comparing_strings_is_runtime_error() {
    let mut vm = fresh_vm();
    let r = vm.interpret("print \"a\" < \"b\";");
    assert_eq!(r, Err(InterpretError::RuntimeError("Both operands must be numbers")));
}

#[test]
fn assigning_undefined_global_is_runtime_error() {
    let mut vm = fresh_vm();
    let r = vm.interpret("z = 3;");
    assert_eq!(r, Err(InterpretError::RuntimeError("Undefined variable.")));
}

#[test]
fn compile_error_reports_line_and_lexeme() {
    let mut vm = fresh_vm();
    let r = vm.interpret("print 1 +;\n");
    assert!(matches!(r, Err(InterpretError::CompileError(_))));
    assert!(vm.diagnostics().iter().any(|d| d.contains("[line 1] Error at `;`: Expect expression.")));
}

#[test]
fn error_recovery_reports_later_statements() {
    let mut vm = fresh_vm();
    let r = vm.interpret("print +;\nprint -;\n");
    assert!(matches!(r, Err(InterpretError::CompileError(_))));
    assert!(vm.diagnostics().len() >= 2);
}

#[test]
fn run_string_runs_a_program() {
    assert!(bylox::run_string("print 1;").is_ok());
    assert!(bylox::run_string("print y;").is_err());
}

#[test]
fn division_by_zero_follows_ieee() {
    let (r, out) = run_lines("print 1 / 0; print 0 / 0;");
    assert!(r.is_ok());
    assert_eq!(out, vec!["+Inf", "NaN"]);
}

#[test]
fn long_constant_form_executes() {
    let mut chunk = Chunk::default();
    for i in 0..257u32 {
        chunk.write_constant(bylox::value::Value::Number((i as f64).to_bits()), 1);
    }
    chunk.write(bylox::chunk::opcode_to_byte(bylox::chunk::OpCode::Print), 1);
    for _ in 0..256 {
        chunk.write(bylox::chunk::opcode_to_byte(bylox::chunk::OpCode::Pop), 1);
    }
    chunk.write(bylox::chunk::opcode_to_byte(bylox::chunk::OpCode::Return), 1);

    let mut vm = Vm::new(Box::new(chunk));
    assert!(vm.run().is_ok());
    assert_eq!(vm.output().clone(), vec!["256".to_string()]);
}

#[test]
fn long_global_forms_execute() {
    let mut source = String::new();
    for i in 0..200 {
        source.push_str(&format!("var v{} = {};\n", i, i));
    }
    source.push_str("v199 = v199 + 1;\n");
    source.push_str("print v199;\n");

    let mut vm = fresh_vm();
    assert!(vm.interpret(&source).is_ok());
    assert_eq!(vm.output().clone(), vec!["200".to_string()]);
}

#[test]
fn redefinition_overwrites_silently() {
    let (r, out) = run_lines("var x = 1; var x = 2; print x;");
    assert!(r.is_ok());
    assert_eq!(out, vec!["2"]);
}

#[test]
fn newlines_in_strings_count_toward_lines() {
    let mut vm = fresh_vm();
    let r = vm.interpret("var s = \"a\nb\";\nprint y;");
    assert_eq!(r, Err(InterpretError::RuntimeError("Undefined variable.")));
    assert!(vm.diagnostics().iter().any(|d| d.contains("[line 3] in script")));
}

#[test]
fn runtime_fault_reports_the_faulting_instructions_line() {
    // the negation faults on line 1; the following Print instruction
    // belongs to line 2, so past-the-instruction attribution would
    // misreport this
    let mut vm = fresh_vm();
    let r = vm.interpret("print -\"a\"\n;");
    assert_eq!(r, Err(InterpretError::RuntimeError("Operand must be a number.")));
    assert!(vm.diagnostics().iter().any(|d| d.contains("[line 1] in script")));
}
