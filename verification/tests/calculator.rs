use dsa_toolkit::calculator::command::{
    classify_input, is_memory_clear, is_memory_save, parse_command, Command, InputType,
};
use dsa_toolkit::calculator::error::CalcError;
use dsa_toolkit::calculator::machine::{is_number, run, Operation};
use dsa_toolkit::calculator::names::{Constant, Function};
use dsa_toolkit::calculator::parser::{
    compile, parse_addition, parse_expression, parse_factor, parse_multiplication, parse_power,
    parse_unary, BinaryOp, Instr,
};
use dsa_toolkit::calculator::token::{tokenize, Token};
use dsa_toolkit::calculator::value::{
    equals_zero, greater_than_one, less_than_minus_one, less_than_zero,
};
use dsa_toolkit::calculator::Calculator;

fn arith(op: Operation<String>) -> u64 {
    let value = match op {
        Operation::Literal(text) => text.parse::<f64>().unwrap(),
        Operation::Negate(a) => -f64::from_bits(a),
        Operation::Binary(op, a, b) => {
            let a = f64::from_bits(a);
            let b = f64::from_bits(b);
            match op {
                BinaryOp::Add => a + b,
                BinaryOp::Sub => a - b,
                BinaryOp::Mul => a * b,
                BinaryOp::Div => a / b,
                BinaryOp::Rem => a % b,
                BinaryOp::Pow => a.powf(b),
            }
        }
        Operation::Call(f, a) => {
            let a = f64::from_bits(a);
            match f {
                Function::Sin => a.sin(),
                Function::Cos => a.cos(),
                Function::Tan => a.tan(),
                Function::Asin => a.asin(),
                Function::Acos => a.acos(),
                Function::Atan => a.atan(),
                Function::Ln => a.ln(),
                Function::Log2 => a.log2(),
                Function::Log10 => a.log10(),
                Function::Exp => a.exp(),
                Function::Sqrt => a.sqrt(),
                Function::Round => a.round(),
                Function::Floor => a.floor(),
                Function::Ceil => a.ceil(),
                Function::Abs => a.abs(),
            }
        }
    };
    value.to_bits()
}

fn eval(calc: &mut Calculator, line: &str) -> Result<f64, String> {
    match calc.evaluate(line, arith) {
        Ok(bits) => Ok(f64::from_bits(bits)),
        Err(e) => Err(e.message()),
    }
}

fn value_of(line: &str) -> f64 {
    let mut calc = Calculator::new();
    eval(&mut calc, line).unwrap()
}

fn error_of(line: &str) -> String {
    let mut calc = Calculator::new();
    eval(&mut calc, line).unwrap_err()
}

fn text(s: &str) -> String {
    s.to_string()
}

#[test]
fn tokens_of_a_mixed_line() {
    let tokens = tokenize("2 + 3.5*sin(pi) ** m4 ^ _ % x1").unwrap();
    assert_eq!(
        tokens,
        vec![
            Token::Number(text("2")),
            Token::Operator('+'),
            Token::Number(text("3.5")),
            Token::Operator('*'),
            Token::Function(text("sin")),
            Token::LeftParen,
            Token::Constant(text("pi")),
            Token::RightParen,
            Token::Power,
            Token::Memory(4),
            Token::Power,
            Token::LastResult,
            Token::Operator('%'),
            Token::Function(text("x1")),
            Token::EOF,
        ]
    );
}

#[test]
fn tokens_of_an_empty_line() {
    assert_eq!(tokenize("").unwrap(), vec![Token::EOF]);
    assert_eq!(tokenize("  \t ").unwrap(), vec![Token::EOF]);
}

#[test]
fn tokenizer_skips_what_begins_no_token() {
    let tokens = tokenize("2 $ # 3\n").unwrap();
    assert_eq!(
        tokens,
        vec![Token::Number(text("2")), Token::Number(text("3")), Token::EOF]
    );
}

#[test]
fn tokenizer_tells_constants_memory_and_functions_apart() {
    for name in ["pi", "e", "phi", "tau", "sqrt2", "sqrt3"] {
        assert_eq!(
            tokenize(name).unwrap(),
            vec![Token::Constant(text(name)), Token::EOF]
        );
    }
    for slot in 0..10usize {
        let line = format!("m{}", slot);
        assert_eq!(tokenize(&line).unwrap(), vec![Token::Memory(slot), Token::EOF]);
    }
    for name in ["m", "mm", "m10", "ma", "M1", "c1", "sqrt", "pie", "E"] {
        assert_eq!(
            tokenize(name).unwrap(),
            vec![Token::Function(text(name)), Token::EOF]
        );
    }
}

#[test]
fn tokenizer_reads_letters_beyond_ascii_into_a_word() {
    assert_eq!(
        tokenize("sin\u{3b1}2+1").unwrap(),
        vec![
            Token::Function(text("sin\u{3b1}2")),
            Token::Operator('+'),
            Token::Number(text("1")),
            Token::EOF
        ]
    );
    assert_eq!(
        tokenize("\u{3b1}1").unwrap(),
        vec![Token::Number(text("1")), Token::EOF]
    );
    assert_eq!(
        tokenize("ab\u{663}").unwrap(),
        vec![Token::Function(text("ab")), Token::EOF]
    );
}

#[test]
fn tokenizer_star_forms() {
    assert_eq!(
        tokenize("2***3").unwrap(),
        vec![
            Token::Number(text("2")),
            Token::Power,
            Token::Operator('*'),
            Token::Number(text("3")),
            Token::EOF
        ]
    );
    assert_eq!(
        tokenize("2* *3").unwrap(),
        vec![
            Token::Number(text("2")),
            Token::Operator('*'),
            Token::Operator('*'),
            Token::Number(text("3")),
            Token::EOF
        ]
    );
}

#[test]
fn tokenizer_numbers() {
    assert_eq!(
        tokenize("1. .5 007").unwrap(),
        vec![
            Token::Number(text("1.")),
            Token::Number(text(".5")),
            Token::Number(text("007")),
            Token::EOF
        ]
    );
    for bad in [".", "1.2.3", "..", "1..", "3 + ."] {
        assert_eq!(tokenize(bad), Err(CalcError::InvalidNumber));
    }
}

#[test]
fn numerals_agree_with_the_float_parser() {
    for t in ["0", "1", "1.", ".5", "12.75", "000.000", ".", "1.2.3", "", "1e5", "-1", "..", "1 "] {
        let digits_and_dots = t.chars().all(|c| c.is_ascii_digit() || c == '.');
        let expected = digits_and_dots && t.parse::<f64>().is_ok();
        assert_eq!(is_number(t), expected, "{:?}", t);
    }
}

#[test]
fn program_of_a_line_is_postfix() {
    let tokens = tokenize("-(1+m2)*sqrt(_)").unwrap();
    let program = compile(&tokens);
    assert_eq!(program.fault, None);
    assert_eq!(
        program.code,
        vec![
            Instr::Number(text("1")),
            Instr::Memory(2),
            Instr::Binary(BinaryOp::Add),
            Instr::Negate,
            Instr::LastResult,
            Instr::Call(Function::Sqrt),
            Instr::Binary(BinaryOp::Mul),
        ]
    );
}

#[test]
fn program_keeps_the_steps_before_a_parse_error() {
    let tokens = tokenize("1 + 2 * (3 - ").unwrap();
    let program = compile(&tokens);
    assert_eq!(program.fault, Some(CalcError::UnexpectedEnd));
    assert_eq!(
        program.code,
        vec![
            Instr::Number(text("1")),
            Instr::Number(text("2")),
            Instr::Number(text("3")),
        ]
    );
    let memory = [0u64; 10];
    assert_eq!(run(program, &memory, 0, &arith), Err(CalcError::UnexpectedEnd));
}

#[test]
fn parsing_functions_advance_the_position() {
    let tokens = tokenize("2 ** 3 * 4 + 5").unwrap();
    let mut pos = 0;
    let mut code = Vec::new();
    assert_eq!(parse_factor(&tokens, &mut pos, &mut code), Ok(()));
    assert_eq!(pos, 1);
    let mut pos = 0;
    let mut code = Vec::new();
    assert_eq!(parse_unary(&tokens, &mut pos, &mut code), Ok(()));
    assert_eq!(pos, 1);
    let mut pos = 0;
    let mut code = Vec::new();
    assert_eq!(parse_power(&tokens, &mut pos, &mut code), Ok(()));
    assert_eq!(pos, 3);
    let mut pos = 0;
    let mut code = Vec::new();
    assert_eq!(parse_multiplication(&tokens, &mut pos, &mut code), Ok(()));
    assert_eq!(pos, 5);
    let mut pos = 0;
    let mut code = Vec::new();
    assert_eq!(parse_addition(&tokens, &mut pos, &mut code), Ok(()));
    assert_eq!(pos, 7);
    assert_eq!(code.len(), 7);
    let mut pos = 7;
    let mut code = Vec::new();
    assert_eq!(
        parse_expression(&tokens, &mut pos, &mut code),
        Err(CalcError::UnexpectedEnd)
    );
    let mut pos = 40;
    assert_eq!(
        parse_factor(&tokens, &mut pos, &mut code),
        Err(CalcError::UnexpectedEnd)
    );
    assert!(code.is_empty());
}

#[test]
fn unknown_constant_token_is_refused() {
    let tokens = vec![Token::Constant(text("omega")), Token::EOF];
    let program = compile(&tokens);
    assert_eq!(program.fault, Some(CalcError::UnknownConstant(text("omega"))));
    assert_eq!(
        CalcError::UnknownConstant(text("omega")).message(),
        "Unknown constant: omega"
    );
}

#[test]
fn precedence_of_product_over_sum() {
    assert_eq!(value_of("2+3*4"), 14.0);
    assert_eq!(value_of("2 + 3 * 4"), 14.0);
    assert_eq!(value_of("(2+3)*4"), 20.0);
    assert_eq!(value_of("10 - 4 - 3"), 3.0);
    assert_eq!(value_of("100 / 10 / 5"), 2.0);
    assert_eq!(value_of("7 % 4 * 2"), 6.0);
    assert_eq!(value_of("2 * 3 ** 2"), 18.0);
}

#[test]
fn power_is_right_associative() {
    assert_eq!(value_of("2**3**2"), 512.0);
    assert_eq!(value_of("2^3^2"), 512.0);
    assert_eq!(value_of("2 ** 3 ^ 2"), 512.0);
}

#[test]
fn sign_binds_tighter_than_power() {
    assert_eq!(value_of("-2**2"), 4.0);
    assert_eq!(value_of("-(2**2)"), -4.0);
    assert_eq!(value_of("2**-2"), 0.25);
    assert_eq!(value_of("--3"), 3.0);
    assert_eq!(value_of("+-+3"), -3.0);
    assert_eq!(value_of("2 - -3"), 5.0);
}

#[test]
fn functions_and_constants() {
    assert!((value_of("sin(pi/2)") - 1.0).abs() < 1e-12);
    assert_eq!(value_of("round(pi*100)/100"), 3.14);
    assert_eq!(value_of("cos(0)"), 1.0);
    assert_eq!(value_of("tan(0)"), 0.0);
    assert_eq!(value_of("asin(1)"), std::f64::consts::FRAC_PI_2);
    assert_eq!(value_of("acos(1)"), 0.0);
    assert_eq!(value_of("atan(0)"), 0.0);
    assert_eq!(value_of("ln(e)"), 1.0);
    assert_eq!(value_of("log2(8)"), 3.0);
    assert_eq!(value_of("log10(1000)"), 3.0);
    assert_eq!(value_of("exp(0)"), 1.0);
    assert_eq!(value_of("sqrt(16)"), 4.0);
    assert_eq!(value_of("sqrt(0)"), 0.0);
    assert_eq!(value_of("round(2.5)"), 3.0);
    assert_eq!(value_of("floor(2.7)"), 2.0);
    assert_eq!(value_of("ceil(2.1)"), 3.0);
    assert_eq!(value_of("abs(-7.5)"), 7.5);
    assert_eq!(value_of("abs(0-7.5)"), 7.5);
    assert_eq!(value_of("tau"), 2.0 * std::f64::consts::PI);
    assert_eq!(value_of("phi"), (1.0 + 5.0_f64.sqrt()) / 2.0);
    assert_eq!(value_of("sqrt2 * sqrt2"), std::f64::consts::SQRT_2 * std::f64::consts::SQRT_2);
    assert_eq!(value_of("sqrt(sqrt3*sqrt3)"), (3.0_f64.sqrt() * 3.0_f64.sqrt()).sqrt());
}

#[test]
fn constants_have_the_bits_of_their_doubles() {
    assert_eq!(Constant::Pi.bits(), std::f64::consts::PI.to_bits());
    assert_eq!(Constant::E.bits(), std::f64::consts::E.to_bits());
    assert_eq!(Constant::Phi.bits(), ((1.0 + 5.0_f64.sqrt()) / 2.0).to_bits());
    assert_eq!(Constant::Tau.bits(), (2.0 * std::f64::consts::PI).to_bits());
    assert_eq!(Constant::Sqrt2.bits(), std::f64::consts::SQRT_2.to_bits());
    assert_eq!(Constant::Sqrt3.bits(), 3.0_f64.sqrt().to_bits());
}

#[test]
fn names_round_trip() {
    let functions = [
        Function::Sin,
        Function::Cos,
        Function::Tan,
        Function::Asin,
        Function::Acos,
        Function::Atan,
        Function::Ln,
        Function::Log2,
        Function::Log10,
        Function::Exp,
        Function::Sqrt,
        Function::Round,
        Function::Floor,
        Function::Ceil,
        Function::Abs,
    ];
    for f in functions {
        assert_eq!(Function::from_name(f.name()), Some(f));
    }
    assert_eq!(Function::from_name("sinh"), None);
    assert_eq!(Function::from_name("Sin"), None);
    assert_eq!(Function::from_name(""), None);
    let constants = [
        Constant::Pi,
        Constant::E,
        Constant::Phi,
        Constant::Tau,
        Constant::Sqrt2,
        Constant::Sqrt3,
    ];
    for c in constants {
        assert_eq!(Constant::from_name(c.name()), Some(c));
    }
    assert_eq!(Constant::from_name("PI"), None);
    assert_eq!(Constant::from_name("sqrt"), None);
}

#[test]
fn division_and_modulo_by_zero() {
    assert!(error_of("1/0").starts_with("Division by zero"));
    assert_eq!(error_of("1/0"), "Division by zero");
    assert_eq!(error_of("1 / (2 - 2)"), "Division by zero");
    assert_eq!(error_of("1 / -0"), "Division by zero");
    assert_eq!(error_of("5 % 0"), "Modulo by zero");
    assert_eq!(error_of("5 % (0 * -1)"), "Modulo by zero");
    assert_eq!(value_of("0 / 5"), 0.0);
    assert_eq!(value_of("1 / 0.5"), 2.0);
}

#[test]
fn domain_errors() {
    assert!(error_of("sqrt(-1)").starts_with("sqrt requires non-negative"));
    assert_eq!(error_of("sqrt(-1)"), "sqrt requires non-negative argument");
    assert_eq!(error_of("sqrt(0-1)"), "sqrt requires non-negative argument");
    assert_eq!(error_of("asin(2)"), "asin requires argument between -1 and 1");
    assert_eq!(error_of("asin(-1.5)"), "asin requires argument between -1 and 1");
    assert_eq!(error_of("acos(1.0001)"), "acos requires argument between -1 and 1");
    assert_eq!(error_of("acos(-2)"), "acos requires argument between -1 and 1");
    assert_eq!(error_of("ln(0)"), "ln requires positive argument");
    assert_eq!(error_of("ln(-1)"), "ln requires positive argument");
    assert_eq!(error_of("log2(0)"), "log2 requires positive argument");
    assert_eq!(error_of("log10(-3)"), "log10 requires positive argument");
    assert_eq!(value_of("asin(-1)"), -std::f64::consts::FRAC_PI_2);
    assert_eq!(value_of("acos(-1)"), std::f64::consts::PI);
    assert_eq!(value_of("sqrt(-0)"), 0.0);
}

#[test]
fn syntax_errors() {
    assert_eq!(error_of("1.2.3"), "Invalid number");
    assert_eq!(
        error_of("foo(1)"),
        "Unknown function 'foo'. Available functions: sin, cos, tan, asin, acos, atan, ln, log2, log10, exp, sqrt, round, floor, ceil, abs"
    );
    assert_eq!(error_of("sin 1"), "Function 'sin' requires parentheses: sin(...)");
    assert_eq!(error_of("sin"), "Function 'sin' requires parentheses: sin(...)");
    assert_eq!(error_of("(1 + 2"), "Expected closing parenthesis");
    assert_eq!(error_of("sqrt(4"), "Expected closing parenthesis");
    assert_eq!(error_of(""), "Unexpected end of expression");
    assert_eq!(error_of("2 +"), "Unexpected end of expression");
    assert_eq!(error_of("("), "Unexpected end of expression");
    assert_eq!(
        error_of("2 + * 3"),
        "Expected number, function, constant, memory location, _, or opening parenthesis"
    );
    assert_eq!(
        error_of(")"),
        "Expected number, function, constant, memory location, _, or opening parenthesis"
    );
    assert_eq!(error_of("1 2"), "Unexpected tokens at end of expression");
    assert_eq!(error_of("(1))"), "Unexpected tokens at end of expression");
}

#[test]
fn the_first_error_in_reading_order_wins() {
    assert_eq!(error_of("1/0 +"), "Division by zero");
    assert_eq!(error_of("(1/0"), "Division by zero");
    assert_eq!(error_of("sqrt(-1) foo"), "sqrt requires non-negative argument");
    assert_eq!(error_of("foo(1/0)"), error_of("foo(1)"));
    assert_eq!(error_of("2 + ) / 0"), error_of(")"));
    assert_eq!(error_of("1/0 + 1.2.3"), "Invalid number");
    assert_eq!(error_of("ln(0) 5"), "ln requires positive argument");
}

#[test]
fn last_result_is_recalled_by_underscore() {
    let mut calc = Calculator::new();
    assert_eq!(eval(&mut calc, "_"), Ok(0.0));
    assert_eq!(eval(&mut calc, "6 * 7"), Ok(42.0));
    assert_eq!(eval(&mut calc, "_"), Ok(42.0));
    assert_eq!(eval(&mut calc, "_"), Ok(42.0));
    assert_eq!(eval(&mut calc, "_ * 2"), Ok(84.0));
    assert_eq!(eval(&mut calc, "_"), Ok(84.0));
    assert_eq!(f64::from_bits(calc.last_result()), 84.0);
}

#[test]
fn memory_round_trip() {
    let mut calc = Calculator::new();
    assert_eq!(eval(&mut calc, "m3"), Ok(0.0));
    assert_eq!(eval(&mut calc, "2 ** 10"), Ok(1024.0));
    calc.memory_store(3);
    assert_eq!(eval(&mut calc, "5"), Ok(5.0));
    assert_eq!(eval(&mut calc, "m3"), Ok(1024.0));
    assert_eq!(eval(&mut calc, "sqrt(m3) + m4"), Ok(32.0));
    assert_eq!(eval(&mut calc, "m3"), Ok(1024.0));
    assert_eq!(f64::from_bits(calc.recall(3)), 1024.0);
    calc.memory_clear(3);
    assert_eq!(eval(&mut calc, "m3"), Ok(0.0));
    assert_eq!(calc.recall(3), 0);
    assert_eq!(eval(&mut calc, "9"), Ok(9.0));
    calc.memory_store(0);
    calc.memory_store(9);
    assert_eq!(eval(&mut calc, "m0 + m9 + m3"), Ok(18.0));
}

#[test]
fn failed_evaluation_leaves_the_last_result() {
    let mut calc = Calculator::new();
    assert_eq!(eval(&mut calc, "3 + 4"), Ok(7.0));
    for bad in ["1/0", "2 +", "foo(2)", "1.2.3", "sqrt(-4)", "5 5", "(", "7 % 0", "3 + 4 + ln(0)"] {
        assert!(eval(&mut calc, bad).is_err());
        assert_eq!(eval(&mut calc, "_"), Ok(7.0));
        assert_eq!(f64::from_bits(calc.last_result()), 7.0);
    }
}

#[test]
fn clear_result_zeroes_only_the_last_result() {
    let mut calc = Calculator::new();
    assert_eq!(eval(&mut calc, "11"), Ok(11.0));
    calc.memory_store(5);
    calc.clear_result();
    assert_eq!(calc.last_result(), 0);
    assert_eq!(eval(&mut calc, "m5"), Ok(11.0));
    calc.clear_result();
    assert_eq!(eval(&mut calc, "_"), Ok(0.0));
}

#[test]
fn special_values_propagate() {
    assert!(value_of("sqrt(0/1) - ln(1) / 1 + 0 * (1 / 0.0000001)").abs() == 0.0);
    assert_eq!(value_of("10 ** 400"), f64::INFINITY);
    assert!(value_of("10 ** 400 - 10 ** 400").is_nan());
    assert!(value_of("sqrt(10 ** 400 - 10 ** 400)").is_nan());
    assert!(value_of("ln(10 ** 400 - 10 ** 400)").is_nan());
    assert!(value_of("asin(10 ** 400 - 10 ** 400)").is_nan());
    assert!(value_of("1 / (10 ** 400 - 10 ** 400)").is_nan());
    assert_eq!(error_of("asin(10 ** 400)"), "asin requires argument between -1 and 1");
    assert_eq!(error_of("ln(-(10 ** 400))"), "ln requires positive argument");
}

#[test]
fn comparisons_on_bits_agree_with_floats() {
    let samples = [
        0.0,
        -0.0,
        1.0,
        -1.0,
        0.5,
        -0.5,
        1.0000000000000002,
        -1.0000000000000002,
        0.9999999999999999,
        -0.9999999999999999,
        f64::MIN_POSITIVE,
        -f64::MIN_POSITIVE,
        5e-324,
        -5e-324,
        f64::MAX,
        f64::MIN,
        f64::INFINITY,
        f64::NEG_INFINITY,
        f64::NAN,
        -f64::NAN,
        f64::from_bits(0x7FF0_0000_0000_0001),
        f64::from_bits(0xFFF0_0000_0000_0001),
        f64::from_bits(0xFFFF_FFFF_FFFF_FFFF),
        2.0,
        -2.0,
        3.14,
        -1e300,
    ];
    for x in samples {
        let bits = x.to_bits();
        assert_eq!(equals_zero(bits), x == 0.0, "{:?}", x);
        assert_eq!(less_than_zero(bits), x < 0.0, "{:?}", x);
        assert_eq!(greater_than_one(bits), x > 1.0, "{:?}", x);
        assert_eq!(less_than_minus_one(bits), x < -1.0, "{:?}", x);
    }
}

#[test]
fn lines_are_classified() {
    assert_eq!(parse_command("q"), Command::Exit);
    assert_eq!(parse_command("quit"), Command::Exit);
    assert_eq!(parse_command("  exit\n"), Command::Exit);
    assert_eq!(parse_command("?"), Command::Help);
    assert_eq!(parse_command("help"), Command::Help);
    assert_eq!(parse_command("clear"), Command::ClearResult);
    assert_eq!(parse_command("m0"), Command::SaveMemory(0));
    assert_eq!(parse_command(" m9 "), Command::SaveMemory(9));
    assert_eq!(parse_command("c3"), Command::ClearMemory(3));
    assert_eq!(parse_command("\tc7\r\n"), Command::ClearMemory(7));
    assert_eq!(parse_command("m3 + 1"), Command::Evaluate(text("m3 + 1")));
    assert_eq!(parse_command("  2 * 3  "), Command::Evaluate(text("2 * 3")));
    assert_eq!(parse_command("Quit"), Command::Evaluate(text("Quit")));
    assert_eq!(parse_command("m10"), Command::Evaluate(text("m10")));
    assert_eq!(parse_command("ma"), Command::Evaluate(text("ma")));
    assert_eq!(parse_command("m\u{663}"), Command::Evaluate(text("m\u{663}")));
    assert_eq!(parse_command("\u{2003}q\u{a0}"), Command::Exit);
    assert_eq!(parse_command(""), Command::Evaluate(text("")));
}

#[test]
fn memory_lines_are_recognised() {
    assert_eq!(is_memory_save("m4"), Some(4));
    assert_eq!(is_memory_save("  m4  "), Some(4));
    assert_eq!(is_memory_save("m"), None);
    assert_eq!(is_memory_save("m44"), None);
    assert_eq!(is_memory_save("c4"), None);
    assert_eq!(is_memory_save("mx"), None);
    assert_eq!(is_memory_clear("c0"), Some(0));
    assert_eq!(is_memory_clear(" c9\n"), Some(9));
    assert_eq!(is_memory_clear("m9"), None);
    assert_eq!(is_memory_clear("c"), None);
    assert_eq!(classify_input("m1"), InputType::MemorySave(1));
    assert_eq!(classify_input(" c2 "), InputType::MemoryClear(2));
    assert_eq!(classify_input("m1+c2"), InputType::Expression);
    assert_eq!(classify_input("clear"), InputType::Expression);
}

#[test]
fn every_error_has_its_message() {
    assert_eq!(CalcError::<String>::InvalidNumber.message(), "Invalid number");
    assert_eq!(
        CalcError::MissingParentheses(text("abs")).message(),
        "Function 'abs' requires parentheses: abs(...)"
    );
    assert_eq!(
        CalcError::<String>::ExpectedClosingParenthesis.message(),
        "Expected closing parenthesis"
    );
    assert_eq!(CalcError::<String>::UnexpectedEnd.message(), "Unexpected end of expression");
    assert_eq!(
        CalcError::<String>::UnexpectedTokens.message(),
        "Unexpected tokens at end of expression"
    );
    assert_eq!(CalcError::<String>::DivisionByZero.message(), "Division by zero");
    assert_eq!(CalcError::<String>::ModuloByZero.message(), "Modulo by zero");
    assert_eq!(
        CalcError::<String>::OutsideUnitInterval(Function::Acos).message(),
        "acos requires argument between -1 and 1"
    );
    assert_eq!(
        CalcError::<String>::NotPositive(Function::Log10).message(),
        "log10 requires positive argument"
    );
    assert_eq!(
        CalcError::<String>::Negative(Function::Sqrt).message(),
        "sqrt requires non-negative argument"
    );
}

#[test]
fn operations_are_handed_out_in_postfix_order() {
    let asked: std::cell::RefCell<Vec<Operation<String>>> = std::cell::RefCell::new(Vec::new());
    let recording = |op: Operation<String>| {
        asked.borrow_mut().push(op.clone());
        arith(op)
    };
    let mut calc = Calculator::new();
    let result = calc.evaluate("7 - 2 * sin(-m1) ** 2", recording);
    assert_eq!(result.map(f64::from_bits), Ok(7.0));
    let seven = 7.0_f64.to_bits();
    let two = 2.0_f64.to_bits();
    let zero = 0.0_f64.to_bits();
    let minus_zero = (-0.0_f64).to_bits();
    assert_eq!(
        *asked.borrow(),
        vec![
            Operation::Literal(text("7")),
            Operation::Literal(text("2")),
            Operation::Negate(zero),
            Operation::Call(Function::Sin, minus_zero),
            Operation::Literal(text("2")),
            Operation::Binary(BinaryOp::Pow, minus_zero, two),
            Operation::Binary(BinaryOp::Mul, two, zero),
            Operation::Binary(BinaryOp::Sub, seven, zero),
        ]
    );
}

#[test]
fn nothing_is_handed_out_after_an_error() {
    let asked: std::cell::RefCell<Vec<Operation<String>>> = std::cell::RefCell::new(Vec::new());
    let recording = |op: Operation<String>| {
        asked.borrow_mut().push(op.clone());
        arith(op)
    };
    let mut calc = Calculator::new();
    let result = calc.evaluate("1 / 0 + 5 * 6", recording);
    assert_eq!(result, Err(CalcError::DivisionByZero));
    assert_eq!(
        *asked.borrow(),
        vec![Operation::Literal(text("1")), Operation::Literal(text("0"))]
    );
    asked.borrow_mut().clear();
    let recording = |op: Operation<String>| {
        asked.borrow_mut().push(op.clone());
        arith(op)
    };
    assert_eq!(calc.evaluate("3 + 1.1.1", recording), Err(CalcError::InvalidNumber));
    assert!(asked.borrow().is_empty());
}

#[test]
fn program_of_nested_powers() {
    let tokens = tokenize("2**3**2").unwrap();
    let program = compile(&tokens);
    assert_eq!(program.fault, None);
    assert_eq!(
        program.code,
        vec![
            Instr::Number(text("2")),
            Instr::Number(text("3")),
            Instr::Number(text("2")),
            Instr::Binary(BinaryOp::Pow),
            Instr::Binary(BinaryOp::Pow),
        ]
    );
    let tokens = tokenize("-2**2").unwrap();
    let program = compile(&tokens);
    assert_eq!(
        program.code,
        vec![
            Instr::Number(text("2")),
            Instr::Negate,
            Instr::Number(text("2")),
            Instr::Binary(BinaryOp::Pow),
        ]
    );
}

#[test]
fn new_calculator_is_all_zero() {
    let calc = Calculator::new();
    assert_eq!(calc.last_result(), 0);
    for slot in 0..10 {
        assert_eq!(calc.recall(slot), 0);
    }
    assert_eq!(f64::from_bits(calc.last_result()), 0.0);
}
