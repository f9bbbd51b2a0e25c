use chicken_knife::lexer::{is_special_char, parse_int, parse_string, skip_whitespace};
use chicken_knife::machine::{Effect, Num, RuntimeError, Step};
use chicken_knife::parser::{compile_bareword, ParseError, Parser};
use chicken_knife::text::chars_of;
use chicken_knife::value::{Instr, Literal, Magic, Value};
use chicken_knife::vm::VM;

fn float_of(t: &Vec<char>) -> Option<u64> {
    t.iter().collect::<String>().parse::<f64>().ok().map(|f| f.to_bits())
}

fn as_f64(n: Num) -> f64 {
    match n {
        Num::Int(i) => i as f64,
        Num::Float(b) => f64::from_bits(b),
    }
}

fn float_result(m: Magic, a: f64, b: f64) -> Literal {
    let truth = |x: bool| Literal::Int(if x { 1 } else { 0 });
    match m {
        Magic::Add => Literal::Float((a + b).to_bits()),
        Magic::Sub => Literal::Float((a - b).to_bits()),
        Magic::Mul => Literal::Float((a * b).to_bits()),
        Magic::Div => Literal::Float((a / b).to_bits()),
        Magic::Mod => Literal::Float((a % b).to_bits()),
        Magic::Eq => truth(a == b),
        Magic::Neq => truth(a != b),
        Magic::Lt => truth(a < b),
        Magic::Gt => truth(a > b),
        Magic::Leq => truth(a <= b),
        _ => truth(a >= b),
    }
}

/// Compiles and runs a whole source text, doing the float work a host does.
fn exec(vm: &mut VM, src: &str) -> Step {
    let mut p = Parser::new();
    let f = p.parse(vm, src, true, &float_of).expect("source compiles");
    let mut step = vm.run(f, 100_000);
    loop {
        match step {
            Step::Effect(Effect::Float(m, a, b)) => {
                vm.push_literal(float_result(m, as_f64(a), as_f64(b)));
                step = vm.resume(100_000);
            }
            other => return other,
        }
    }
}

fn top_int(vm: &VM) -> Option<i64> {
    match vm.stack.last() {
        Some(Value::Lit(Literal::Int(n))) => Some(*n),
        _ => None,
    }
}

fn top_float(vm: &VM) -> Option<f64> {
    match vm.stack.last() {
        Some(Value::Lit(Literal::Float(b))) => Some(f64::from_bits(*b)),
        _ => None,
    }
}

fn top_str(vm: &VM) -> Option<String> {
    match vm.stack.last() {
        Some(Value::Lit(Literal::Str(s))) => Some(s.clone()),
        _ => None,
    }
}

#[test]
fn interning_a_name_twice_gives_one_id() {
    let mut vm = VM::new();
    let a = vm.get_id(&chars_of("x")).unwrap();
    let b = vm.get_id(&chars_of("x")).unwrap();
    assert_eq!(a, b);
}

#[test]
fn distinct_names_get_distinct_ids() {
    let mut vm = VM::new();
    let a = vm.get_id(&chars_of("x")).unwrap();
    let b = vm.get_id(&chars_of("y")).unwrap();
    let c = vm.get_id(&chars_of("xy")).unwrap();
    assert_ne!(a, b);
    assert_ne!(a, c);
    assert_ne!(b, c);
}

#[test]
fn store_covers_every_allocated_id() {
    let mut vm = VM::empty();
    let mut highest = 0;
    for k in 0..50u32 {
        let id = if k % 2 == 0 {
            vm.alloc_id().unwrap()
        } else {
            vm.get_id(&chars_of(&format!("n{}", k))).unwrap()
        };
        assert_eq!(id, k);
        highest = id;
        assert!(vm.global.len() > highest as usize);
    }
    assert!(vm.global.len() as u32 >= vm.sym_cnt);
    assert_eq!(highest, 49);
}

#[test]
fn integer_literal_lands_on_the_stack() {
    let mut vm = VM::new();
    assert!(matches!(exec(&mut vm, "42"), Step::Done));
    assert_eq!(top_int(&vm), Some(42));
}

#[test]
fn float_literal_lands_on_the_stack() {
    let mut vm = VM::new();
    assert!(matches!(exec(&mut vm, "3.5"), Step::Done));
    assert_eq!(top_float(&vm), Some(3.5));
}

#[test]
fn triple_fence_keeps_inner_double_quote_run() {
    let s: Vec<char> = "'''hello''world'''".chars().collect();
    let (text, end) = parse_string(&s, 0).unwrap();
    assert_eq!(text.iter().collect::<String>(), "hello''world");
    assert_eq!(end, s.len());
}

#[test]
fn double_fence_closes_at_first_equal_run() {
    let s: Vec<char> = "''hello''world''".chars().collect();
    let (text, end) = parse_string(&s, 0).unwrap();
    assert_eq!(text.iter().collect::<String>(), "hello");
    assert_eq!(end, 9);
}

#[test]
fn single_fence_folds_odd_inner_run_by_half() {
    let s: Vec<char> = "'a'''b'".chars().collect();
    let (text, end) = parse_string(&s, 0).unwrap();
    assert_eq!(text.iter().collect::<String>(), "a''b");
    assert_eq!(end, 7);
}

#[test]
fn single_fence_doubled_quote_escapes_one() {
    let s: Vec<char> = "\"say \"\"hi\"\" x\" rest".chars().collect();
    let (text, end) = parse_string(&s, 0).unwrap();
    assert_eq!(text.iter().collect::<String>(), "say \"hi\" x");
    assert_eq!(end, 14);
}

#[test]
fn unclosed_string_is_incomplete_then_resumes() {
    let mut vm = VM::new();
    let mut p = Parser::new();
    assert_eq!(p.parse(&mut vm, "1 `ab", false, &float_of).unwrap_err(), ParseError::Incomplete);
    let f = p.parse(&mut vm, "c` 2", false, &float_of).unwrap();
    assert_eq!(f.instrs.len(), 3);
    assert!(matches!(vm.run(f, 1000), Step::Done));
    assert_eq!(top_int(&vm), Some(2));
    vm.stack.pop();
    assert_eq!(top_str(&vm).as_deref(), Some("abc"));
}

#[test]
fn unclosed_string_at_end_is_fatal() {
    let mut vm = VM::new();
    let mut p = Parser::new();
    assert_eq!(p.parse(&mut vm, "'abc", true, &float_of).unwrap_err(), ParseError::Unterminated);
}

#[test]
fn applied_block_adds() {
    let mut vm = VM::new();
    assert!(matches!(exec(&mut vm, "(1 2 +) $=f f"), Step::Done));
    assert_eq!(top_int(&vm), Some(3));
    assert_eq!(vm.stack.len(), 1);
}

#[test]
fn bare_close_is_fatal() {
    let mut vm = VM::new();
    let mut p = Parser::new();
    assert_eq!(p.parse(&mut vm, ")", false, &float_of).unwrap_err(), ParseError::UnexpectedClose);
}

#[test]
fn dangling_open_is_fatal_at_end() {
    let mut vm = VM::new();
    let mut p = Parser::new();
    assert_eq!(p.parse(&mut vm, "(1 2", true, &float_of).unwrap_err(), ParseError::Unterminated);
}

#[test]
fn dangling_open_is_incomplete_mid_stream() {
    let mut vm = VM::new();
    let mut p = Parser::new();
    assert_eq!(p.parse(&mut vm, "(1 2\n", false, &float_of).unwrap_err(), ParseError::Incomplete);
    let f = p.parse(&mut vm, "+) $=g g", false, &float_of).unwrap();
    assert!(matches!(vm.run(f, 1000), Step::Done));
    assert_eq!(top_int(&vm), Some(3));
}

#[test]
fn adds_integers() {
    let mut vm = VM::new();
    assert!(matches!(exec(&mut vm, "2 3 +"), Step::Done));
    assert_eq!(top_int(&vm), Some(5));
}

#[test]
fn division_by_zero_fails() {
    let mut vm = VM::new();
    assert!(matches!(exec(&mut vm, "5 0 /"), Step::Failed(RuntimeError::DivisionByZero)));
    assert_eq!(vm.stack.len(), 2);
    assert!(vm.call_frame.is_empty());
}

#[test]
fn modulo_by_zero_fails() {
    let mut vm = VM::new();
    assert!(matches!(exec(&mut vm, "5 0 %"), Step::Failed(RuntimeError::DivisionByZero)));
}

#[test]
fn float_and_integer_add_to_float() {
    let mut vm = VM::new();
    assert!(matches!(exec(&mut vm, "2.0 3 +"), Step::Done));
    assert_eq!(top_float(&vm), Some(5.0));
}

#[test]
fn variable_store_and_load() {
    let mut vm = VM::new();
    assert!(matches!(exec(&mut vm, "5 $=x $x $x +"), Step::Done));
    assert_eq!(top_int(&vm), Some(10));
    assert_eq!(vm.stack.len(), 1);
}

#[test]
fn add_on_empty_stack_underflows_without_popping() {
    let mut vm = VM::new();
    assert!(matches!(exec(&mut vm, "+"), Step::Failed(RuntimeError::StackUnderflow)));
    assert!(vm.stack.is_empty());
    assert!(matches!(exec(&mut vm, "7 +"), Step::Failed(RuntimeError::StackUnderflow)));
    assert_eq!(top_int(&vm), Some(7));
    assert_eq!(vm.stack.len(), 1);
}

#[test]
fn exit_hands_its_code_to_the_host() {
    let mut vm = VM::new();
    assert!(matches!(exec(&mut vm, "0 exit"), Step::Effect(Effect::Exit(0))));
    assert!(vm.stack.is_empty());
}

#[test]
fn exit_needs_an_integer() {
    let mut vm = VM::new();
    assert!(matches!(exec(&mut vm, "'a' exit"), Step::Failed(RuntimeError::TypeMismatch)));
}

#[test]
fn integer_arithmetic_wraps() {
    let mut vm = VM::new();
    exec(&mut vm, "9223372036854775807 1 +");
    assert_eq!(top_int(&vm), Some(i64::MIN));
    exec(&mut vm, "-9223372036854775808 -1 /");
    assert_eq!(top_int(&vm), Some(i64::MIN));
    exec(&mut vm, "-9223372036854775808 -1 %");
    assert_eq!(top_int(&vm), Some(0));
    exec(&mut vm, "-7 2 /");
    assert_eq!(top_int(&vm), Some(-3));
    exec(&mut vm, "-7 2 %");
    assert_eq!(top_int(&vm), Some(-1));
    exec(&mut vm, "6 7 *");
    assert_eq!(top_int(&vm), Some(42));
    exec(&mut vm, "2 9 -");
    assert_eq!(top_int(&vm), Some(-7));
}

#[test]
fn comparisons_push_one_or_zero() {
    let mut vm = VM::new();
    exec(&mut vm, "1 2 <");
    assert_eq!(top_int(&vm), Some(1));
    exec(&mut vm, "1 2 >=");
    assert_eq!(top_int(&vm), Some(0));
    exec(&mut vm, "3 3 ==");
    assert_eq!(top_int(&vm), Some(1));
    exec(&mut vm, "'ab' 'ab' ==");
    assert_eq!(top_int(&vm), Some(1));
    exec(&mut vm, "'ab' 'ac' !=");
    assert_eq!(top_int(&vm), Some(1));
    exec(&mut vm, "1.5 2 <");
    assert_eq!(top_int(&vm), Some(1));
}

#[test]
fn ordering_strings_is_a_type_mismatch() {
    let mut vm = VM::new();
    assert!(matches!(exec(&mut vm, "'a' 'b' <"), Step::Failed(RuntimeError::TypeMismatch)));
    assert!(matches!(exec(&mut vm, "'a' 1 +"), Step::Failed(RuntimeError::TypeMismatch)));
}

#[test]
fn logic_treats_zero_and_nil_as_false() {
    let mut vm = VM::new();
    exec(&mut vm, "0 not");
    assert_eq!(top_int(&vm), Some(1));
    exec(&mut vm, "1 0 and");
    assert_eq!(top_int(&vm), Some(0));
    exec(&mut vm, "0 'x' or");
    assert_eq!(top_int(&vm), Some(1));
    exec(&mut vm, "$unset not");
    assert_eq!(top_int(&vm), Some(1));
}

#[test]
fn negation_keeps_the_kind() {
    let mut vm = VM::new();
    exec(&mut vm, "5 neg");
    assert_eq!(top_int(&vm), Some(-5));
    exec(&mut vm, "2.5 neg");
    assert_eq!(top_float(&vm), Some(-2.5));
}

#[test]
fn unknown_name_is_undefined_application() {
    let mut vm = VM::new();
    assert!(matches!(exec(&mut vm, "frobnicate"), Step::Failed(RuntimeError::UndefinedApplication)));
    assert!(vm.call_frame.is_empty());
}

#[test]
fn store_on_empty_stack_underflows() {
    let mut vm = VM::new();
    assert!(matches!(exec(&mut vm, "$=x"), Step::Failed(RuntimeError::StackUnderflow)));
}

#[test]
fn print_hands_the_value_to_the_host() {
    let mut vm = VM::new();
    match exec(&mut vm, "'hi' println") {
        Step::Effect(Effect::Println(Value::Lit(Literal::Str(s)))) => assert_eq!(s, "hi"),
        other => panic!("unexpected {:?}", other),
    }
    assert!(vm.stack.is_empty());
    assert!(matches!(vm.resume(10), Step::Done));
}

#[test]
fn exhausted_input_aborts() {
    let mut vm = VM::new();
    assert!(matches!(exec(&mut vm, "readln"), Step::Effect(Effect::Readln)));
    assert_eq!(vm.supply_input(None), Err(RuntimeError::InputExhausted));
    assert!(vm.call_frame.is_empty());
}

#[test]
fn supplied_input_is_pushed() {
    let mut vm = VM::new();
    assert!(matches!(exec(&mut vm, "read 1 +"), Step::Effect(Effect::Read)));
    assert_eq!(vm.supply_input(Some(Literal::Int(41))), Ok(()));
    assert!(matches!(vm.resume(100), Step::Done));
    assert_eq!(top_int(&vm), Some(42));
}

#[test]
fn comments_run_to_end_of_line() {
    let mut vm = VM::new();
    exec(&mut vm, "1 # 2 3 +\n4 +");
    assert_eq!(top_int(&vm), Some(5));
    assert_eq!(vm.stack.len(), 1);
}

#[test]
fn bareword_forms() {
    let mut vm = VM::new();
    let x = vm.get_id(&chars_of("x")).unwrap();
    assert_eq!(compile_bareword(&mut vm, &chars_of("$=x"), None), Some(Instr::Store(x)));
    assert_eq!(compile_bareword(&mut vm, &chars_of("$x"), None), Some(Instr::Load(x)));
    let plus = vm.get_id(&chars_of("+")).unwrap();
    assert_eq!(compile_bareword(&mut vm, &chars_of("+"), None), Some(Instr::App(plus)));
    let fresh = vm.sym_cnt;
    assert_eq!(compile_bareword(&mut vm, &chars_of("17"), None), Some(Instr::Load(fresh)));
    assert!(matches!(vm.global[fresh as usize], Value::Lit(Literal::Int(17))));
    let fresh = vm.sym_cnt;
    let bits = 0.25f64.to_bits();
    assert_eq!(compile_bareword(&mut vm, &chars_of("0.25"), Some(bits)), Some(Instr::Load(fresh)));
    assert!(matches!(vm.global[fresh as usize], Value::Lit(Literal::Float(b)) if b == bits));
}

#[test]
fn integer_token_grammar() {
    assert_eq!(parse_int(&chars_of("42")), Some(42));
    assert_eq!(parse_int(&chars_of("+7")), Some(7));
    assert_eq!(parse_int(&chars_of("-9223372036854775808")), Some(i64::MIN));
    assert_eq!(parse_int(&chars_of("9223372036854775807")), Some(i64::MAX));
    assert_eq!(parse_int(&chars_of("9223372036854775808")), None);
    assert_eq!(parse_int(&chars_of("-")), None);
    assert_eq!(parse_int(&chars_of("")), None);
    assert_eq!(parse_int(&chars_of("1a")), None);
    assert_eq!(parse_int(&chars_of("3.5")), None);
}

#[test]
fn special_characters_and_whitespace() {
    for c in ['(', ')', '\'', '"', '`', '#', ' ', '\t', '\n', '\u{3000}'] {
        assert!(is_special_char(c));
    }
    for c in ['a', '$', '=', '+', '1'] {
        assert!(!is_special_char(c));
    }
    let s: Vec<char> = "  \t x".chars().collect();
    assert_eq!(skip_whitespace(&s, 0), 4);
    assert_eq!(skip_whitespace(&s, 4), 4);
}

#[test]
fn strings_become_literals() {
    let mut vm = VM::new();
    exec(&mut vm, "`tick`");
    assert_eq!(top_str(&vm).as_deref(), Some("tick"));
}

#[test]
fn exhausted_id_space_is_fatal() {
    let mut vm = VM::empty();
    vm.sym_cnt = u32::MAX;
    let mut p = Parser::new();
    assert_eq!(p.parse(&mut vm, "17", true, &float_of).unwrap_err(), ParseError::SymbolsExhausted);
    assert_eq!(vm.alloc_id(), None);
}

#[test]
fn endless_recursion_runs_out_of_fuel() {
    let mut vm = VM::new();
    let mut p = Parser::new();
    let f = p.parse(&mut vm, "(g) $=g g", true, &float_of).unwrap();
    assert!(matches!(vm.run(f, 1000), Step::Continue));
    assert!(!vm.call_frame.is_empty());
}

#[test]
fn nested_blocks_compile_to_function_slots() {
    let mut vm = VM::new();
    assert!(matches!(exec(&mut vm, "((2 3 *) $=six six 1 +) $=seven seven"), Step::Done));
    assert_eq!(top_int(&vm), Some(7));
}

#[test]
fn a_function_equals_itself() {
    let mut vm = VM::new();
    exec(&mut vm, "(1 2 +) $=f $f $f ==");
    assert_eq!(top_int(&vm), Some(1));
    exec(&mut vm, "(1) (2) ==");
    assert_eq!(top_int(&vm), Some(0));
}

#[test]
fn resumed_string_keeps_text_from_the_quote() {
    let mut vm = VM::new();
    let mut p = Parser::new();
    assert_eq!(p.parse(&mut vm, "'abc", false, &float_of).unwrap_err(), ParseError::Incomplete);
    let f = p.parse(&mut vm, "def'", false, &float_of).unwrap();
    assert!(matches!(vm.run(f, 100), Step::Done));
    assert_eq!(top_str(&vm).as_deref(), Some("abcdef"));
}

#[test]
fn open_block_then_end_of_input_is_fatal() {
    let mut vm = VM::new();
    let mut p = Parser::new();
    assert_eq!(p.parse(&mut vm, "(", false, &float_of).unwrap_err(), ParseError::Incomplete);
    assert_eq!(p.parse(&mut vm, "", true, &float_of).unwrap_err(), ParseError::Unterminated);
}

#[test]
fn parsing_keeps_existing_bindings() {
    let mut vm = VM::new();
    let plus = vm.get_id(&chars_of("+")).unwrap();
    let mut p = Parser::new();
    p.parse(&mut vm, "1 2 + $=x 'hi' (3)", true, &float_of).unwrap();
    assert_eq!(vm.get_id(&chars_of("+")), Some(plus));
    assert!(matches!(vm.global[plus as usize], Value::Magic(Magic::Add)));
}
