use nxpch::preprocessor::expr::{checked_evaluate, evaluate, EvalResult, ExprDiagnostic};
use nxpch::preprocessor::macros::{contains_name, MacroDefine, MacroDiagnostic};
use nxpch::preprocessor::table::MacroTable;
use nxpch::preprocessor::token::IntParseError;
use nxpch::preprocessor::{
    PreprocessorDiagnostic, PreprocessorDirective, PreprocessorDirectiveInstruction,
    PreprocessorState,
};
use nxpch::utils::SourceSpan;

fn names() -> MacroTable {
    let mut table = MacroTable::new();
    table.insert("REAL_MACRO".to_string(), MacroDefine::create_const("REAL_MACRO", "1"));
    table
}

fn eval(expr: &str) -> EvalResult {
    evaluate(expr, &MacroDefine::len_vec(0, expr.len()), &names())
}

#[test]
fn test_primary() {
    assert_eq!(eval(""), Ok(0));
    assert_eq!(eval("   "), Ok(0));

    assert_eq!(eval("an_identifier"), Ok(0));

    assert_eq!(eval("0"), Ok(0));
    assert_eq!(eval("5"), Ok(5));
    assert_eq!(eval("10"), Ok(10));
    assert_eq!(eval("0x0"), Ok(0x0));
    assert_eq!(eval("0xA"), Ok(0xA));
    assert_eq!(eval("0x10"), Ok(0x10));
    assert_eq!(eval("0b0"), Ok(0b0));
    assert_eq!(eval("0b1"), Ok(0b1));
    assert_eq!(eval("0b10"), Ok(0b10));
    assert_eq!(eval("00"), Ok(0o0));
    assert_eq!(eval("04"), Ok(0o4));
    assert_eq!(eval("010"), Ok(0o10));
    assert_eq!(eval("-0x8000000000000000"), Ok(-0x8000000000000000));
    assert_eq!(
        eval("0x8000000000000000"),
        Err(ExprDiagnostic::InvalidNumber {
            cause: IntParseError::PosOverflow,
            at: 0..18,
        })
    );
    assert_eq!(
        IntParseError::PosOverflow.message(),
        i64::from_str_radix("8000000000000000", 16).err().unwrap().to_string(),
    );

    assert_eq!(eval("defined(REAL_MACRO)"), Ok(1));
    assert_eq!(eval("defined(FAKE_MACRO)"), Ok(0));
    assert_eq!(
        eval("defined(bad syntax)"),
        Err(ExprDiagnostic::UnexpectedToken {
            expected: "end parenthesis after macro name",
            found: "Identifier",
            at: 12..18,
        }),
    );
    assert_eq!(
        eval("invalid_function(5)"),
        Err(ExprDiagnostic::UnknownFunction {
            function: "invalid_function".to_string(),
            at: 0..16,
        }),
    );

    assert_eq!(
        eval("(0"),
        Err(ExprDiagnostic::Eol {
            expected: "end parenthesis after sub-expression",
            at: 1,
        })
    );
}

#[test]
fn test_other() {
    assert_eq!(eval("-0"), Ok(0));
    assert_eq!(eval("-10"), Ok(-10));
    assert_eq!(eval("-0x10"), Ok(-0x10));
    assert_eq!(eval("-0b10"), Ok(-0b10));
    assert_eq!(eval("-010"), Ok(-0o10));
    assert_eq!(eval("-0x7fffffffffffffff"), Ok(-0x7fffffffffffffff));
}

#[test]
fn operators_bind_as_in_c() {
    assert_eq!(eval("1 + 2 * 3"), Ok(7));
    assert_eq!(eval("(1 + 2) * 3"), Ok(9));
    assert_eq!(eval("7 / 2 - 7 % 2"), Ok(2));
    assert_eq!(eval("-7 / 2"), Ok(-3));
    assert_eq!(eval("1 << 4 | 1"), Ok(17));
    assert_eq!(eval("6 & 3 ^ 1"), Ok(3));
    assert_eq!(eval("1 < 2 && 2 <= 2"), Ok(1));
    assert_eq!(eval("1 > 2 || 3 >= 4"), Ok(0));
    assert_eq!(eval("!0 + ~0"), Ok(0));
    assert_eq!(eval("5 == 5"), Ok(1));
}

#[test]
fn wrong_expressions() {
    assert_eq!(eval("$"), Err(ExprDiagnostic::UnknownToken { at: 0..1 }));
    assert_eq!(eval("1 2"), Err(ExprDiagnostic::UnexpectedTrailer { at: 2..3 }));
    assert!(matches!(eval("1 +"), Err(ExprDiagnostic::Eol { .. })));
    assert!(matches!(eval("1 + )"), Err(ExprDiagnostic::UnexpectedToken { .. })));
}

#[test]
fn arithmetic_without_a_value() {
    let table = names();
    for expr in ["1 / 0", "1 % 0", "0x7fffffffffffffff + 1", "1 << 64"] {
        let offsets = MacroDefine::len_vec(0, expr.len());
        assert!(checked_evaluate(expr, &offsets, &table).is_none(), "{}", expr);
    }
    let offsets = MacroDefine::len_vec(0, 5);
    assert_eq!(checked_evaluate("1 / 1", &offsets, &table), Some(Ok(1)));
}

fn parse_in_place(s: &str) -> Result<MacroDefine, Vec<MacroDiagnostic>> {
    let mut diags = vec![];
    let result = MacroDefine::parse(s, 0, &mut diags);
    if diags.is_empty() {
        Ok(result.unwrap())
    } else {
        Err(diags)
    }
}

#[test]
fn test_parse() {
    assert_eq!(
        parse_in_place("MACRO_NAME"),
        Ok(MacroDefine {
            name: "MACRO_NAME".to_string(),
            args: None,
            expansion: "".to_string(),
            declaration_range: (0, 10),
            expansion_offset: 10,
        }),
    );
    assert_eq!(
        parse_in_place("MACRO_NAME expansion"),
        Ok(MacroDefine {
            name: "MACRO_NAME".to_string(),
            args: None,
            expansion: "expansion".to_string(),
            declaration_range: (0, 10),
            expansion_offset: 11,
        }),
    );
    assert_eq!(
        parse_in_place("MACRO_NAME() another"),
        Ok(MacroDefine {
            name: "MACRO_NAME".to_string(),
            args: Some(vec![]),
            expansion: "another".to_string(),
            declaration_range: (0, 12),
            expansion_offset: 13,
        }),
    );
    assert_eq!(
        parse_in_place("MACRO_NAME(arg1, arg2) expansion"),
        Ok(MacroDefine {
            name: "MACRO_NAME".to_string(),
            args: Some(vec!["arg1".to_string(), "arg2".to_string()]),
            expansion: "expansion".to_string(),
            declaration_range: (0, 22),
            expansion_offset: 23,
        }),
    );
}

#[test]
fn test_parse_failure() {
    assert_eq!(
        parse_in_place("general: invalidity"),
        Err(vec![MacroDiagnostic::InvalidMacro { at: (0, 19) }]),
    );
    assert_eq!(
        parse_in_place("INVALID_ARGUMENT(arg with space,)"),
        Err(vec![
            MacroDiagnostic::InvalidArg { at: (17, 14) },
            MacroDiagnostic::InvalidArg { at: (32, 0) },
        ]),
    );
}

#[test]
fn test_expand_parsed() {
    assert_eq!(
        parse_in_place("MACRO_NAME").unwrap().expand_parsed(None),
        Some(("".into(), vec![])),
    );
    assert_eq!(
        parse_in_place("MACRO_NAME expansion").unwrap().expand_parsed(None),
        Some(("expansion".into(), MacroDefine::len_vec(11, 9))),
    );
    assert_eq!(
        parse_in_place("MACRO_NAME() another").unwrap().expand_parsed(Some(&[])),
        Some(("another".into(), MacroDefine::len_vec(13, 7))),
    );
    assert_eq!(
        parse_in_place("MACRO_NAME(arg1, arg2) (arg1) * (arg2)")
            .unwrap()
            .expand_parsed(Some(&[("5", 100), ("8", 200)])),
        Some(("(5) * (8)".into(), vec![23, 100, 28, 29, 30, 31, 32, 200, 37])),
    );
    assert_eq!(
        parse_in_place("MACRO_NAME(arg1, arg2) (arg1) * (arg2)").unwrap().expand_parsed(None),
        None,
    );
    assert_eq!(
        parse_in_place("MACRO_NAME(arg1, arg2) (arg2) * (arg1)")
            .unwrap()
            .expand_parsed(Some(&[("arg1", 100), ("arg2", 200)])),
        Some((
            "(arg2) * (arg1)".into(),
            vec![23, 200, 201, 202, 203, 28, 29, 30, 31, 32, 100, 101, 102, 103, 37]
        )),
    );
    assert_eq!(parse_in_place("MACRO_NAME").unwrap().expand_parsed(Some(&[])), None);
    assert_eq!(
        parse_in_place("MACRO_NAME").unwrap().expand_parsed(Some(&[("arg1", 100)])),
        None,
    );
}

fn macro_table() -> MacroTable {
    let mut macros = MacroTable::new();
    for (name, define) in [
        ("BLANK_MACRO", "BLANK_MACRO"),
        ("SIMPLE_MACRO", "SIMPLE_MACRO something"),
        ("SIMPLE_MACRO_REQUIRED_ARGS", "SIMPLE_MACRO_REQUIRED_ARGS() other"),
        ("ARG_MACRO", "ARG_MACRO(arg) hello & (arg)"),
        ("MULTI_ARG_MACRO", "MULTI_ARG_MACRO(arg1, arg2) ((arg1) | (arg2))"),
        (
            "RECURSIVE_MACRO",
            "RECURSIVE_MACRO(arg1, arg2) ARG_MACRO(arg2) * arg1 + arg2 * ARG_MACRO(arg1)",
        ),
        (
            "FANCY_RECURSIVE_MACRO",
            "RECURSIVE_MACRO(arg1, arg2, target_macro) target_macro(arg1, arg2)",
        ),
        ("REFERENCE_MACRO", "REFERENCE_MACRO ARG_MACRO"),
    ] {
        macros.insert(name.to_string(), parse_in_place(define).unwrap());
    }
    macros
}

#[test]
fn test_expand_all_in() {
    let macros = macro_table();
    let test_expand = move |code: &str| {
        let mut diags = vec![];
        let result = MacroDefine::expand_all_in(code, 100, &macros, &mut diags);
        (result.0, diags, result.1)
    };

    assert_eq!(
        test_expand("a + b"),
        ("a + b".into(), vec![], MacroDefine::len_vec(100, 5)),
    );
    assert_eq!(
        test_expand("a + BLANK_MACRO"),
        ("a + ".into(), vec![], MacroDefine::len_vec(100, 4)),
    );
    assert_eq!(
        test_expand("a + SIMPLE_MACRO"),
        (
            "a + something".into(),
            vec![],
            [
                MacroDefine::len_vec(100, 4).as_slice(),
                MacroDefine::len_vec(13, 9).as_slice(),
            ]
            .concat(),
        ),
    );
    assert_eq!(
        test_expand("a + SIMPLE_MACRO + BLANK_MACRO + c + SIMPLE_MACRO"),
        (
            "a + something +  + c + something".into(),
            vec![],
            [
                MacroDefine::len_vec(100, 4).as_slice(),
                MacroDefine::len_vec(13, 9).as_slice(),
                MacroDefine::len_vec(116, 3).as_slice(),
                MacroDefine::len_vec(130, 7).as_slice(),
                MacroDefine::len_vec(13, 9).as_slice(),
            ]
            .concat(),
        ),
    );
    assert_eq!(
        test_expand("SIMPLE_MACRO()"),
        (
            "something()".into(),
            vec![],
            [
                MacroDefine::len_vec(13, 9).as_slice(),
                MacroDefine::len_vec(112, 2).as_slice(),
            ]
            .concat(),
        ),
    );
    assert_eq!(
        test_expand("SIMPLE_MACRO_REQUIRED_ARGS()"),
        ("other".into(), vec![], MacroDefine::len_vec(29, 5)),
    );
    assert_eq!(
        test_expand("SIMPLE_MACRO_REQUIRED_ARGS"),
        (
            "SIMPLE_MACRO_REQUIRED_ARGS".into(),
            vec![],
            MacroDefine::len_vec(100, 26),
        ),
    );
    assert_eq!(
        test_expand("ARG_MACRO(55)"),
        (
            "hello & (55)".into(),
            vec![],
            [
                MacroDefine::len_vec(15, 9).as_slice(),
                MacroDefine::len_vec(110, 2).as_slice(),
                MacroDefine::len_vec(27, 1).as_slice(),
            ]
            .concat(),
        ),
    );
    assert_eq!(
        test_expand("ARG_MACRO(with space)"),
        (
            "hello & (with space)".into(),
            vec![],
            [
                MacroDefine::len_vec(15, 9).as_slice(),
                MacroDefine::len_vec(110, 10).as_slice(),
                MacroDefine::len_vec(27, 1).as_slice(),
            ]
            .concat(),
        ),
    );
    assert_eq!(
        test_expand("1 + ARG_MACRO(55, too many) + 2"),
        (
            "1 + ARG_MACRO(55, too many) + 2".into(),
            vec![MacroDiagnostic::WrongNumberOfMacroArgs {
                expected: 1,
                found: 2,
                call_site: (104, 23),
                declaration_site: (0, 14),
            }],
            MacroDefine::len_vec(100, 31),
        ),
    );
    assert_eq!(
        test_expand("SIMPLE_MACRO(no arg)"),
        (
            "something(no arg)".into(),
            vec![],
            [
                MacroDefine::len_vec(13, 9).as_slice(),
                MacroDefine::len_vec(112, 8).as_slice(),
            ]
            .concat(),
        ),
    );
    assert_eq!(
        test_expand("something()"),
        ("something()".into(), vec![], MacroDefine::len_vec(100, 11)),
    );
    assert_eq!(
        test_expand("ARG_MACRO"),
        ("ARG_MACRO".into(), vec![], MacroDefine::len_vec(100, 9)),
    );
    assert_eq!(
        test_expand(
            "SIMPLE_MACRO(^) * ARG_MACRO(55) + MULTI_ARG_MACRO(58, %) / MULTI_ARG_MACRO(%)",
        ),
        (
            "something(^) * hello & (55) + ((58) | (%)) / MULTI_ARG_MACRO(%)".into(),
            vec![MacroDiagnostic::WrongNumberOfMacroArgs {
                expected: 2,
                found: 1,
                call_site: (159, 18),
                declaration_site: (0, 27),
            }],
            [
                MacroDefine::len_vec(13, 9).as_slice(),
                MacroDefine::len_vec(112, 6).as_slice(),
                MacroDefine::len_vec(15, 9).as_slice(),
                MacroDefine::len_vec(128, 2).as_slice(),
                MacroDefine::len_vec(27, 1).as_slice(),
                MacroDefine::len_vec(131, 3).as_slice(),
                MacroDefine::len_vec(28, 2).as_slice(),
                MacroDefine::len_vec(150, 2).as_slice(),
                MacroDefine::len_vec(34, 5).as_slice(),
                MacroDefine::len_vec(154, 1).as_slice(),
                MacroDefine::len_vec(43, 2).as_slice(),
                MacroDefine::len_vec(156, 21).as_slice(),
            ]
            .concat(),
        ),
    );
    assert_eq!(
        test_expand("RECURSIVE_MACRO(89, 90)"),
        (
            "hello & (90) * 89 + 90 * hello & (89)".into(),
            vec![],
            [
                MacroDefine::len_vec(15, 9).as_slice(),
                MacroDefine::len_vec(120, 2).as_slice(),
                MacroDefine::len_vec(27, 1).as_slice(),
                MacroDefine::len_vec(43, 3).as_slice(),
                MacroDefine::len_vec(116, 2).as_slice(),
                MacroDefine::len_vec(50, 3).as_slice(),
                MacroDefine::len_vec(120, 2).as_slice(),
                MacroDefine::len_vec(57, 3).as_slice(),
                MacroDefine::len_vec(15, 9).as_slice(),
                MacroDefine::len_vec(116, 2).as_slice(),
                MacroDefine::len_vec(27, 1).as_slice(),
            ]
            .concat(),
        ),
    );
    assert_eq!(
        test_expand("FANCY_RECURSIVE_MACRO(89, 90, MULTI_ARG_MACRO)"),
        (
            "((89) | (90))".into(),
            vec![],
            [
                MacroDefine::len_vec(28, 2).as_slice(),
                MacroDefine::len_vec(122, 2).as_slice(),
                MacroDefine::len_vec(34, 5).as_slice(),
                MacroDefine::len_vec(126, 2).as_slice(),
                MacroDefine::len_vec(43, 2).as_slice(),
            ]
            .concat(),
        ),
    );
    assert_eq!(
        test_expand("REFERENCE_MACRO(55)"),
        (
            "hello & (55)".into(),
            vec![],
            [
                MacroDefine::len_vec(15, 9).as_slice(),
                MacroDefine::len_vec(116, 2).as_slice(),
                MacroDefine::len_vec(27, 1).as_slice(),
            ]
            .concat(),
        ),
    );
}

#[test]
fn an_endless_expansion_is_given_up() {
    let mut table = MacroTable::new();
    table.insert("X".to_string(), parse_in_place("X X").unwrap());
    let mut diags = vec![];
    assert_eq!(MacroDefine::expand_within("X", 0, &table, 1000, &mut diags), None);
    assert_eq!(
        MacroDefine::expand_within("Y", 7, &table, 1000, &mut diags),
        Some(("Y".to_string(), vec![7]))
    );
    assert_eq!(diags, []);
}

#[test]
fn every_byte_of_an_expansion_has_an_offset() {
    let table = macro_table();
    for code in ["", "RECURSIVE_MACRO(1, ARG_MACRO(2))", "é SIMPLE_MACRO", "ARG_MACRO(((é)))"] {
        let mut diags = vec![];
        let (text, offsets) = MacroDefine::expand_all_in(code, 0, &table, &mut diags);
        assert_eq!(text.len(), offsets.len());
    }
}

#[test]
fn defines_from_the_command_line() {
    assert_eq!(
        MacroDefine::from_str("NAME value"),
        Ok(MacroDefine {
            name: "NAME".to_string(),
            args: None,
            expansion: "value".to_string(),
            declaration_range: (0, 4),
            expansion_offset: 5,
        })
    );
    assert_eq!(
        MacroDefine::from_str("NAME(a b)"),
        Err(MacroDiagnostic::InvalidArg { at: (5, 3) })
    );
    let define = MacroDefine::from_str("NAME value").unwrap();
    assert_eq!(define.to_text(), "NAME value");
    assert_eq!(MacroDefine::from_str(&define.to_text()), Ok(define.clone()));
    let with_args = MacroDefine::from_str("NAME(a, b) a + b").unwrap();
    assert_eq!(with_args.to_text(), "NAME)a, b) a + b");
    assert!(MacroDefine::from_str(&with_args.to_text()).is_err());
    assert_eq!(define.full_span(), SourceSpan::new(0, 10));
    assert!(contains_name("1 + a"));
    assert!(!contains_name("1 + 2"));
}

#[test]
fn tables_of_macros() {
    let mut table = MacroTable::new();
    let one = MacroDefine::create_const("A", "1");
    let two = MacroDefine::create_const("A", "2");
    assert_eq!(table.insert("A".to_string(), one.clone()), None);
    assert_eq!(table.insert("A".to_string(), two.clone()), Some(one));
    assert_eq!(table.get("A"), Some(&two));
    assert!(table.contains_key("A"));
    table.remove("A");
    assert_eq!(table.get("A"), None);
    table.insert("B".to_string(), two);
    table.clear();
    assert!(!table.contains_key("B"));
}

fn test_code(code: &str, expected_code: &str, expected_diags: &[PreprocessorDiagnostic]) {
    let mut diags = vec![];
    let mut result = String::new();
    let mut preprocessor = PreprocessorState::new();
    let mut offset = 0;
    for line in code.lines() {
        if line.starts_with('#') {
            if let Some(directive) = PreprocessorDirective::parse(line, offset, &mut diags) {
                preprocessor.exec(directive, &mut diags);
            }
        } else if preprocessor.active() {
            result.push_str(&preprocessor.preprocess_line(line, offset, &mut diags).0);
            result.push('\n');
        }
        offset += line.len() + 1;
    }
    preprocessor.end(&mut diags);

    assert_eq!(diags, expected_diags);
    assert_eq!(result, expected_code);
}

#[test]
fn test_basic() {
    test_code("hello\n", "hello\n", &[]);

    test_code("#define X 5\nX\n", "5\n", &[]);

    test_code("#ifdef NONEXISTENT\nhello\n#endif\n", "", &[]);

    test_code(
        "#if 1\nhello\n",
        "hello\n",
        &[PreprocessorDiagnostic::Unterminated { keyword: "if", at: SourceSpan::new(0, 3) }],
    );

    test_code(
        "#if 0\nhello\n",
        "",
        &[PreprocessorDiagnostic::Unterminated { keyword: "if", at: SourceSpan::new(0, 3) }],
    );

    test_code(
        "#define DO_MATH(a, b, c) a + b > c\n#if DO_MATH(5, 10, 14)\nmath_success\n#endif\n",
        "math_success\n",
        &[],
    );

    test_code(
        "#endif\n",
        "",
        &[PreprocessorDiagnostic::MissingIf { keyword: "endif", at: SourceSpan::new(0, 6) }],
    );
}

#[test]
fn test_if_elif_else() {
    test_code(
        "#define HELLO\n#ifdef HELLO\none\n#elif WORLD\ntwo\n#else\nthree\n#endif\n",
        "one\n",
        &[],
    );
    test_code(
        "#define WORLD\n#ifdef HELLO\none\n#elif WORLD\ntwo\n#else\nthree\n#endif\n",
        "three\n",
        &[],
    );
    test_code(
        "#define WORLD 5\n#ifdef HELLO\none\n#elif WORLD\ntwo\n#else\nthree\n#endif\n",
        "two\n",
        &[],
    );
    test_code(
        "#ifdef HELLO\none\n#elif WORLD\ntwo\n#else\nthree\n#endif\n",
        "three\n",
        &[],
    );
    test_code(
        "#define WORLD 5\n#ifdef HELLO\none\n#elif WORLD\ntwo\n#else\nthree\n",
        "two\n",
        &[PreprocessorDiagnostic::Unterminated { keyword: "else", at: SourceSpan::new(49, 5) }],
    );
}

#[test]
fn defining_twice_and_taking_back() {
    test_code(
        "#define A 1\n#define A 2\nA\n#undef A\nA\n",
        "2\nA\n",
        &[PreprocessorDiagnostic::DuplicateDefine {
            name: "A".to_string(),
            at: SourceSpan::new(12, 9),
            original: SourceSpan::new(8, 1),
        }],
    );
}

#[test]
fn messages_of_the_source() {
    test_code(
        "#warning 'take care'\n#error \"stop\"\n",
        "",
        &[
            PreprocessorDiagnostic::UserWarning {
                message: "take care".to_string(),
                at: SourceSpan::new(9, 11),
            },
            PreprocessorDiagnostic::UserError {
                message: "stop".to_string(),
                at: SourceSpan::new(28, 6),
            },
        ],
    );
}

#[test]
fn nested_blocks() {
    test_code(
        "#if 0\n#if 1\na\n#else\nb\n#endif\n#else\n#ifndef X\nc\n#elifdef X\nd\n#endif\n#endif\n",
        "c\n",
        &[],
    );
}

#[test]
fn directives_name_their_keywords() {
    let mut diags = vec![];
    let directive = PreprocessorDirective::parse("#if  1 + 1 ", 100, &mut diags).unwrap();
    assert_eq!(diags, []);
    assert_eq!(directive.keyword_span, SourceSpan::new(100, 3));
    assert_eq!(directive.body_span, SourceSpan::new(105, 5));
    assert_eq!(directive.instruction.keyword(), "if");
    assert_eq!(directive.instruction, PreprocessorDirectiveInstruction::If("1 + 1".to_string()));
    assert!(PreprocessorDirective::parse("#nonsense", 0, &mut diags).is_none());
    assert!(!diags.is_empty());
}

#[test]
fn conditions_that_cannot_be_told() {
    let mut diags = vec![];
    let mut state = PreprocessorState::new();
    let fault = PreprocessorDirective::parse("#if 1 / 0", 0, &mut diags).unwrap();
    assert!(!state.checked_exec(fault, 1000, &mut diags));
    state.define(MacroDefine::create_const("LOOP", "LOOP"), &mut diags);
    let endless = PreprocessorDirective::parse("#if LOOP", 0, &mut diags).unwrap();
    assert!(!state.checked_exec(endless, 1000, &mut diags));
    assert_eq!(state.preprocess_within("LOOP", 0, 1000, &mut diags), None);
    let fine = PreprocessorDirective::parse("#if 0", 0, &mut diags).unwrap();
    assert!(state.checked_exec(fine, 1000, &mut diags));
    assert!(!state.active());
    assert_eq!(diags, []);
}

#[test]
fn a_blank_expression_needs_no_places() {
    assert_eq!(evaluate("", &[], &names()), Ok(0));
    assert_eq!(evaluate(" \t ", &[], &names()), Ok(0));
    assert_eq!(evaluate("1 + 1", &[], &names()), Ok(2));
}

#[test]
fn names_and_whether_they_are_defined() {
    assert_eq!(eval("defined(REAL_MACRO)"), Ok(1));
    assert_eq!(eval("defined(_other9)"), Ok(0));
    assert_eq!(eval("REAL_MACRO"), Ok(0));
    assert_eq!(eval("_other9"), Ok(0));
}

#[test]
fn errors_move_with_the_places_of_the_bytes() {
    let at = |expr: &str, start: usize| {
        evaluate(expr, &MacroDefine::len_vec(start, expr.len()), &names())
    };
    assert_eq!(at("1 $", 0), Err(ExprDiagnostic::UnknownToken { at: 2..3 }));
    assert_eq!(at("1 $", 70), Err(ExprDiagnostic::UnknownToken { at: 72..73 }));
    let (here, there) = (at("(1", 0), at("(1", 70));
    match (here, there) {
        (
            Err(ExprDiagnostic::Eol { expected: a, at: 1 }),
            Err(ExprDiagnostic::Eol { expected: b, at: 71 }),
        ) => assert_eq!(a, b),
        other => panic!("{:?}", other),
    }
    assert_eq!(at("2 * 3", 70), at("2 * 3", 0));
}

#[test]
fn an_expanded_text_stays_as_it_is() {
    let table = macro_table();
    for code in ["a + BLANK_MACRO", "RECURSIVE_MACRO(1, ARG_MACRO(2))", "ARG_MACRO SIMPLE_MACRO"] {
        let mut diags = vec![];
        let (text, _) = MacroDefine::expand_all_in(code, 3, &table, &mut diags);
        assert_eq!(diags, []);
        let (again, offsets) = MacroDefine::expand_all_in(&text, 9, &table, &mut diags);
        assert_eq!(again, text);
        assert_eq!(offsets, MacroDefine::len_vec(9, text.len()));
        assert_eq!(diags, []);
    }
}

#[test]
fn keywords_stand_before_the_first_space() {
    let lines = [
        "#if 1", "#elif  1", "#else", "#endif", "#ifdef A", "#ifndef A", "#elifdef A",
        "#elifndef A", "#define A", "#undef A", "#error 'a'", "#warning 'a'",
    ];
    let mut keywords = vec![];
    for line in lines {
        let mut diags = vec![];
        let directive = PreprocessorDirective::parse(line, 0, &mut diags).unwrap();
        let keyword = directive.instruction.keyword();
        assert_eq!(format!("#{}", keyword), line.split(' ').next().unwrap());
        assert!(!keywords.contains(&keyword));
        keywords.push(keyword);
    }
    assert_eq!(keywords.len(), 12);
}
