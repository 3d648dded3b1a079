use sexpr::arena::{init_storage, tree_eq, CellStorage};
use sexpr::cell::NIL_INDEX;
use sexpr::env::{bytes_eq, DefaultNS, Env};
use sexpr::eval::{evaluate, EvalError};
use sexpr::parser::{ParseError, ParseOutcome, Parser};
use sexpr::print::print_exp;

fn setup(capacity: usize) -> (CellStorage, Env, DefaultNS) {
    let storage = init_storage(capacity);
    let mut env = Env::new();
    let ns = DefaultNS::new(&mut env);
    (storage, env, ns)
}

fn parse_ok(text: &str, storage: &mut CellStorage, env: &mut Env) -> usize {
    let mut parser = Parser::new();
    match parser.parse(&text.as_bytes().to_vec(), storage, env) {
        ParseOutcome::Complete(idx) => idx,
        other => panic!("expected a complete parse of {:?}, got {:?}", text, other),
    }
}

fn eval_to_text(text: &str) -> Vec<u8> {
    let (mut storage, mut env, ns) = setup(128);
    let idx = parse_ok(text, &mut storage, &mut env);
    let res = evaluate(idx, &mut storage, &env, &ns).expect("evaluation should succeed");
    print_exp(res, &storage, &env)
}

fn eval_to_err(text: &str) -> EvalError {
    let (mut storage, mut env, ns) = setup(128);
    let idx = parse_ok(text, &mut storage, &mut env);
    evaluate(idx, &mut storage, &env, &ns).expect_err("evaluation should fail")
}

#[test]
fn add_two_three_is_five() {
    assert_eq!(eval_to_text("(add 2 3)"), b"5".to_vec());
}

#[test]
fn div_seven_two_truncates() {
    assert_eq!(eval_to_text("(div 7 2)"), b"3".to_vec());
}

#[test]
fn mod_seven_two_is_one() {
    assert_eq!(eval_to_text("(mod 7 2)"), b"1".to_vec());
}

#[test]
fn div_by_zero_is_an_error() {
    assert_eq!(eval_to_err("(div 1 0)"), EvalError::DivisionByZero);
}

#[test]
fn mod_by_zero_is_an_error() {
    assert_eq!(eval_to_err("(mod 3 0)"), EvalError::DivisionByZero);
}

#[test]
fn sub_goes_negative() {
    assert_eq!(eval_to_text("(sub 1 2)"), b"-1".to_vec());
}

#[test]
fn mul_exact() {
    assert_eq!(eval_to_text("(mul 6 7)"), b"42".to_vec());
}

#[test]
fn add_wraps_around() {
    assert_eq!(eval_to_text("(add 2147483647 1)"), b"-2147483648".to_vec());
}

#[test]
fn div_min_by_minus_one_wraps() {
    // (sub (sub 0 2147483647) 1) is the smallest number; dividing it by -1
    // wraps back to itself instead of aborting.
    assert_eq!(
        eval_to_text("(div (sub (sub 0 2147483647) 1) (sub 0 1))"),
        b"-2147483648".to_vec()
    );
}

#[test]
fn mod_min_by_minus_one_is_zero() {
    assert_eq!(
        eval_to_text("(mod (sub (sub 0 2147483647) 1) (sub 0 1))"),
        b"0".to_vec()
    );
}

#[test]
fn rem_sign_follows_dividend() {
    assert_eq!(eval_to_text("(mod (sub 0 7) 2)"), b"-1".to_vec());
    assert_eq!(eval_to_text("(div (sub 0 7) 2)"), b"-3".to_vec());
}

#[test]
fn cons_prints_as_dotted_pair() {
    assert_eq!(eval_to_text("(cons 1 2)"), b"(1 . 2)".to_vec());
}

#[test]
fn hd_of_cons_is_first() {
    assert_eq!(eval_to_text("(hd (cons 1 2))"), b"1".to_vec());
}

#[test]
fn tl_of_cons_is_second() {
    assert_eq!(eval_to_text("(tl (cons 1 2))"), b"2".to_vec());
}

#[test]
fn hd_of_number_fails_not_cons() {
    assert!(matches!(eval_to_err("(hd 5)"), EvalError::NotCons(_)));
}

#[test]
fn quoted_list_prints_like_the_literal() {
    let (mut storage, mut env, ns) = setup(128);
    let literal = parse_ok("(1 2 3)", &mut storage, &mut env);
    let quoted = parse_ok("(' (1 2 3))", &mut storage, &mut env);
    let res = evaluate(quoted, &mut storage, &env, &ns).expect("quote should succeed");
    assert_eq!(
        print_exp(res, &storage, &env),
        print_exp(literal, &storage, &env)
    );
    assert_eq!(print_exp(res, &storage, &env), b"(1 2 3)".to_vec());
}

#[test]
fn quote_does_not_evaluate_its_operand() {
    assert_eq!(eval_to_text("(' (add 1 2))"), b"(add 1 2)".to_vec());
}

#[test]
fn one_operand_quote_succeeds() {
    assert_eq!(eval_to_text("(' 5)"), b"5".to_vec());
}

#[test]
fn two_operand_quote_fails_non_unary() {
    assert_eq!(eval_to_err("(' 1 2)"), EvalError::NonUnary);
}

#[test]
fn add_with_one_operand_fails_non_binary() {
    assert_eq!(eval_to_err("(add 1)"), EvalError::NonBinary);
}

#[test]
fn hd_with_two_operands_fails_non_unary() {
    assert_eq!(eval_to_err("(hd (cons 1 2) 3)"), EvalError::NonUnary);
}

#[test]
fn unknown_operator_fails() {
    assert!(matches!(
        eval_to_err("(foo 1 2)"),
        EvalError::UnknownOperator(_)
    ));
}

#[test]
fn number_head_fails_illegal_operator() {
    assert_eq!(eval_to_err("(1 2)"), EvalError::IllegalOperator);
}

#[test]
fn non_numeric_operand_fails() {
    assert_eq!(eval_to_err("(add () 1)"), EvalError::NonNumeric);
}

#[test]
fn atoms_evaluate_to_themselves() {
    assert_eq!(eval_to_text("5"), b"5".to_vec());
    assert_eq!(eval_to_text("()"), b"()".to_vec());
}

#[test]
fn improper_list_prints_dotted() {
    let (mut storage, mut env, _ns) = setup(128);
    let idx = parse_ok("(1 2 . 3)", &mut storage, &mut env);
    assert_eq!(print_exp(idx, &storage, &env), b"(1 2 . 3)".to_vec());
}

#[test]
fn capacity_alloc_one_more_than_free_fails() {
    // Three slots: the nil sentinel plus two usable cells. The third parse
    // of an atom must fail with a capacity error, not abort.
    let (mut storage, mut env, _ns) = setup(3);
    assert_eq!(storage.free_count(), 2);
    parse_ok("1", &mut storage, &mut env);
    parse_ok("2", &mut storage, &mut env);
    let mut parser = Parser::new();
    assert_eq!(
        parser.parse(&b"3".to_vec(), &mut storage, &mut env),
        ParseOutcome::Invalid(ParseError::OutOfCells)
    );
}

#[test]
fn capacity_eval_failure_is_recoverable() {
    // Enough room to parse, none left to build the cons result.
    let (mut storage, mut env, ns) = setup(7);
    let idx = parse_ok("(cons 1 2)", &mut storage, &mut env);
    assert_eq!(storage.free_count(), 0);
    assert_eq!(
        evaluate(idx, &mut storage, &env, &ns),
        Err(EvalError::OutOfCells)
    );
}

#[test]
fn arithmetic_leaves_no_leak() {
    let (mut storage, mut env, ns) = setup(64);
    let before = storage.free_count();
    let idx = parse_ok("(add 2 3)", &mut storage, &mut env);
    let res = evaluate(idx, &mut storage, &env, &ns).unwrap();
    storage.free_cell(res);
    storage.free_cell(idx);
    assert_eq!(storage.free_count(), before);
}

#[test]
fn cons_leaves_no_leak() {
    let (mut storage, mut env, ns) = setup(64);
    let before = storage.free_count();
    let idx = parse_ok("(cons 1 (cons 2 3))", &mut storage, &mut env);
    let res = evaluate(idx, &mut storage, &env, &ns).unwrap();
    storage.free_cell(res);
    storage.free_cell(idx);
    assert_eq!(storage.free_count(), before);
}

#[test]
fn quote_leaves_no_leak() {
    let (mut storage, mut env, ns) = setup(64);
    let before = storage.free_count();
    let idx = parse_ok("(' (1 2 3))", &mut storage, &mut env);
    let res = evaluate(idx, &mut storage, &env, &ns).unwrap();
    storage.free_cell(res);
    storage.free_cell(idx);
    assert_eq!(storage.free_count(), before);
}

#[test]
fn hd_keeps_the_intermediate_pair_alive() {
    // The pair that (cons 1 2) builds is reachable neither from the input
    // tree nor from hd's result, so freeing both still leaves it live: one
    // cell stays out of the free list.
    let (mut storage, mut env, ns) = setup(64);
    let before = storage.free_count();
    let idx = parse_ok("(hd (cons 1 2))", &mut storage, &mut env);
    let res = evaluate(idx, &mut storage, &env, &ns).unwrap();
    storage.free_cell(res);
    storage.free_cell(idx);
    assert_eq!(storage.free_count(), before - 1);
}

#[test]
fn freeing_nil_and_out_of_range_is_ignored() {
    let (mut storage, _env, _ns) = setup(4);
    let before = storage.free_count();
    storage.free_cell(NIL_INDEX);
    storage.free_cell(1000);
    assert_eq!(storage.free_count(), before);
}

#[test]
fn double_free_is_ignored() {
    let (mut storage, mut env, _ns) = setup(8);
    let idx = parse_ok("7", &mut storage, &mut env);
    storage.free_cell(idx);
    let after_first = storage.free_count();
    storage.free_cell(idx);
    assert_eq!(storage.free_count(), after_first);
}

#[test]
fn round_trip_reparses_to_equal_structure() {
    let cases: [&str; 7] = [
        "5",
        "foo",
        "()",
        "(1 2 3)",
        "(1 2 . 3)",
        "(add (cons 1 2) 3)",
        "(' (1 (2 3) . 4))",
    ];
    for text in cases.iter() {
        let (mut storage, mut env, _ns) = setup(128);
        let first = parse_ok(text, &mut storage, &mut env);
        let printed = print_exp(first, &storage, &env);
        let mut parser = Parser::new();
        let second = match parser.parse(&printed, &mut storage, &mut env) {
            ParseOutcome::Complete(idx) => idx,
            other => panic!("reparse of {:?} failed: {:?}", printed, other),
        };
        assert!(tree_eq(&storage, first, second), "round trip of {:?}", text);
    }
}

#[test]
fn incomplete_input_is_distinguished_from_errors() {
    let (mut storage, mut env, _ns) = setup(64);
    let mut parser = Parser::new();
    assert_eq!(
        parser.parse(&b"(add 1".to_vec(), &mut storage, &mut env),
        ParseOutcome::Incomplete
    );
    assert_eq!(
        parser.parse(&b"".to_vec(), &mut storage, &mut env),
        ParseOutcome::Incomplete
    );
    assert_eq!(
        parser.parse(&b"@".to_vec(), &mut storage, &mut env),
        ParseOutcome::Invalid(ParseError::UnrecognizedChar)
    );
    assert_eq!(
        parser.parse(&b")".to_vec(), &mut storage, &mut env),
        ParseOutcome::Invalid(ParseError::UnexpectedToken)
    );
    assert_eq!(
        parser.parse(&b"(1 . 2 3)".to_vec(), &mut storage, &mut env),
        ParseOutcome::Invalid(ParseError::UnexpectedToken)
    );
}

#[test]
fn number_literals_too_large_are_rejected() {
    let (mut storage, mut env, _ns) = setup(64);
    let mut parser = Parser::new();
    assert_eq!(
        parser.parse(&b"2147483648".to_vec(), &mut storage, &mut env),
        ParseOutcome::Invalid(ParseError::NumberTooLarge)
    );
    let idx = parse_ok("2147483647", &mut storage, &mut env);
    assert_eq!(print_exp(idx, &storage, &env), b"2147483647".to_vec());
}

#[test]
fn interning_is_stable() {
    let mut env = Env::new();
    let a = env.add_sym(b"alpha".to_vec());
    let b = env.add_sym(b"beta".to_vec());
    let a2 = env.add_sym(b"alpha".to_vec());
    assert_eq!(a, a2);
    assert_ne!(a, b);
}

#[test]
fn operator_indices_are_distinct() {
    let mut env = Env::new();
    let ns = DefaultNS::new(&mut env);
    let all = [
        ns.add, ns.sub, ns.mul, ns.div, ns.modu, ns.cons, ns.hd, ns.tl, ns.quote,
    ];
    for i in 0..all.len() {
        for j in 0..all.len() {
            if i != j {
                assert_ne!(all[i], all[j]);
            }
        }
    }
}

#[test]
fn bytes_eq_compares_contents() {
    assert!(bytes_eq(&b"abc".to_vec(), &b"abc".to_vec()));
    assert!(!bytes_eq(&b"abc".to_vec(), &b"abd".to_vec()));
    assert!(!bytes_eq(&b"abc".to_vec(), &b"ab".to_vec()));
}

#[test]
fn whitespace_is_skipped() {
    assert_eq!(eval_to_text("  ( add\t2\n 3 )  "), b"5".to_vec());
}

#[test]
fn latin1_letter_bytes_lex_as_symbols() {
    // 0xB5 is the micro sign: alphanumeric when the byte is read as its
    // code point, so it forms a symbol atom, like the original's
    // byte-as-char classification.
    let (mut storage, mut env, _ns) = setup(64);
    let idx = parse_ok(core::str::from_utf8(b"1").unwrap(), &mut storage, &mut env);
    let _ = idx;
    let mut parser = Parser::new();
    let input: Vec<u8> = vec![0xB5, 0xE9];
    match parser.parse(&input, &mut storage, &mut env) {
        ParseOutcome::Complete(sym) => {
            assert_eq!(print_exp(sym, &storage, &env), input);
        }
        other => panic!("expected a symbol parse, got {:?}", other),
    }
}

#[test]
fn no_break_space_is_whitespace() {
    let (mut storage, mut env, ns) = setup(64);
    let mut parser = Parser::new();
    let mut input: Vec<u8> = Vec::new();
    input.extend_from_slice(b"(add");
    input.push(0xA0);
    input.extend_from_slice(b"2 3)");
    match parser.parse(&input, &mut storage, &mut env) {
        ParseOutcome::Complete(idx) => {
            let res = evaluate(idx, &mut storage, &env, &ns).unwrap();
            assert_eq!(print_exp(res, &storage, &env), b"5".to_vec());
        }
        other => panic!("expected a parse, got {:?}", other),
    }
}
