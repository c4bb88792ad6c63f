use doco::jpf::expression::{
    interprete, make_comparison, variable_map, Ast, Condition, Expression, Op, Type, Variable,
};
use doco::jpf::grammar::{
    parse_comparision, parse_declaration, parse_number, parse_parentheses,
    parse_variable_declaration, read_declaration, Reading,
};
use doco::range::Range;

#[test]
fn test_parse_variable_declaration() {
    assert_eq!(
        Some(((String::from("a"), Type::SInt32), 10)),
        parse_variable_declaration(&b"'a':sint32"[..], 0),
    );
}

#[test]
fn test_parse_comparison() {
    assert_eq!(
        Some((Ast::Lt(String::from("a"), 2), 7)),
        parse_comparision(&b"'a' < 2"[..], 0),
    );
}

#[test]
fn test_parse_simple_declaration() {
    let m = vec![Variable {
        name: String::from("a"),
        typ: Type::SInt64,
        range: Range::from(1, i64::MAX),
    }];
    let output = parse_declaration(&b"[L]declare 'a':sint64 in (('a' > 0))"[..]);
    assert_eq!(Some(Condition::Conditions(m)), output);
}

#[test]
fn test_parse_complex_declaration() {
    let m = vec![
        Variable {
            name: String::from("a"),
            typ: Type::SInt32,
            range: Range::from(i32::MIN as i64, -1),
        },
        Variable {
            name: String::from("b"),
            typ: Type::SInt64,
            range: Range::from(i64::MIN, 1).union(&Range::from(3, i64::MAX)),
        },
    ];
    let output = parse_declaration(
        &b"[L]declare 'a':sint32, 'b':sint64 in (((sint64)'a' < 0) && ((sint8)'b' != 2))"[..],
    );
    assert_eq!(Some(Condition::Conditions(m)), output);
}

#[test]
fn test_parse_complex_nested_declaration() {
    let m = vec![
        Variable {
            name: String::from("a"),
            typ: Type::SInt32,
            range: Range::from(i32::MIN as i64, -1),
        },
        Variable {
            name: String::from("b"),
            typ: Type::SInt64,
            range: Range::from(i64::MIN, 1).union(&Range::from(3, 12)),
        },
    ];
    let output = parse_declaration(
        &b"[L]declare 'a':sint32, 'b':sint64 in (((sint64)'a' < 0) && (((sint8)'b' != 2) && ((sint8)'b' <= 12)))"[..],
    );
    assert_eq!(Some(Condition::Conditions(m)), output);
}

#[test]
fn test_parse_simple_real_declaration() {
    let m = vec![Variable {
        name: String::from("n"),
        typ: Type::SInt32,
        range: Range::from(0, 1),
    }];
    let output = parse_declaration(
        &b"[L]declare 'n':sint32 in (((sint64)'n' >= 0) && ((sint64)'n' < 2))"[..],
    );
    assert_eq!(Some(Condition::Conditions(m)), output);
}

#[test]
fn the_trivial_declaration_is_true() {
    assert_eq!(Some(Condition::True), parse_declaration(b"[L]true"));
    assert_eq!(
        Expression::Parsed(Condition::True),
        Expression::from_str("[L]true")
    );
}

#[test]
fn type_ranges() {
    assert_eq!(&vec![(-128, 127)], Type::SInt8.range().get_ranges());
    assert_eq!(&vec![(-32768, 32767)], Type::SInt16.range().get_ranges());
    assert_eq!(
        &vec![(-2147483648, 2147483647)],
        Type::SInt32.range().get_ranges()
    );
    assert_eq!(
        &vec![(i64::MIN, i64::MAX)],
        Type::SInt64.range().get_ranges()
    );
    assert_eq!((-128, 127), Type::SInt8.bounds());
}

fn one(text: &str) -> Vec<(i64, i64)> {
    match parse_declaration(text.as_bytes()) {
        Some(Condition::Conditions(vars)) => {
            assert_eq!(1, vars.len());
            vars[0].range.get_ranges().clone()
        }
        other => panic!("not read: {:?}", other),
    }
}

#[test]
fn each_operator_narrows_to_its_interval() {
    assert_eq!(vec![(-128, 4)], one("[L]declare 'x':sint8 in ('x' < 5)"));
    assert_eq!(vec![(-128, 5)], one("[L]declare 'x':sint8 in ('x' <= 5)"));
    assert_eq!(vec![(6, 127)], one("[L]declare 'x':sint8 in ('x' > 5)"));
    assert_eq!(vec![(5, 127)], one("[L]declare 'x':sint8 in ('x' >= 5)"));
    assert_eq!(vec![(5, 5)], one("[L]declare 'x':sint8 in ('x' == 5)"));
    assert_eq!(
        vec![(-128, 4), (6, 127)],
        one("[L]declare 'x':sint8 in ('x' != 5)")
    );
    assert_eq!(
        vec![(-32768, -8)],
        one("[L]declare 'x':sint16 in ('x' < -7)")
    );
}

#[test]
fn comparisons_at_the_ends_of_the_integers() {
    assert_eq!(
        Vec::<(i64, i64)>::new(),
        one("[L]declare 'x':sint64 in ('x' > 9223372036854775807)")
    );
    assert_eq!(
        Vec::<(i64, i64)>::new(),
        one("[L]declare 'x':sint64 in ('x' < -9223372036854775808)")
    );
    assert_eq!(
        vec![(i64::MIN + 1, i64::MAX)],
        one("[L]declare 'x':sint64 in ('x' != -9223372036854775808)")
    );
    assert_eq!(
        vec![(i64::MIN, i64::MAX - 1)],
        one("[L]declare 'x':sint64 in ('x' != 9223372036854775807)")
    );
    assert_eq!(
        Vec::<(i64, i64)>::new(),
        one("[L]declare 'x':sint8 in ('x' == 1000)")
    );
}

#[test]
fn numbers() {
    assert_eq!(Some((0, 1)), parse_number(b"0", 0));
    assert_eq!(Some((7, 3)), parse_number(b"007", 0));
    assert_eq!(Some((-12, 5)), parse_number(b"x -12", 2));
    assert_eq!(Some((i64::MAX, 19)), parse_number(b"9223372036854775807", 0));
    assert_eq!(None, parse_number(b"9223372036854775808", 0));
    assert_eq!(Some((i64::MIN, 20)), parse_number(b"-9223372036854775808", 0));
    assert_eq!(None, parse_number(b"-9223372036854775809", 0));
    assert_eq!(None, parse_number(b"99999999999999999999999999", 0));
    assert_eq!(None, parse_number(b"-", 0));
    assert_eq!(None, parse_number(b"", 0));
    assert_eq!(None, parse_number(b"12", 5));
    assert_eq!(Some((12, 2)), parse_number(b"12ab", 0));
}

#[test]
fn space_around_an_operator_is_free() {
    assert_eq!(
        Some((Ast::Gte(String::from("ab1"), -3), 9)),
        parse_comparision(b"'ab1'>=-3", 0)
    );
    assert_eq!(
        Some((Ast::Neq(String::from("a"), 3), 12)),
        parse_comparision(b"'a' \t!=\r\n  3", 0)
    );
    assert_eq!(
        Some((Ast::Eq(String::from("a"), 3), 16)),
        parse_comparision(b"(sint16)'a' == 3", 0)
    );
    assert_eq!(None, parse_comparision(b"(sint16) 'a' == 3", 0));
    assert_eq!(None, parse_comparision(b"'a' = 3", 0));
    assert_eq!(None, parse_comparision(b"'' == 3", 0));
    assert_eq!(None, parse_comparision(b"'a b' == 3", 0));
}

#[test]
fn groups_nest() {
    let (ast, end) = parse_parentheses(b"(('a' < 1) && (('b' > 2) && ('c' == 3)))", 0).unwrap();
    assert_eq!(40, end);
    assert_eq!(
        Ast::And(vec![
            Ast::Lt(String::from("a"), 1),
            Ast::And(vec![
                Ast::Gt(String::from("b"), 2),
                Ast::Eq(String::from("c"), 3),
            ]),
        ]),
        ast
    );
    assert_eq!(None, parse_parentheses(b"()", 0));
    assert_eq!(None, parse_parentheses(b"(('a' < 1) && )", 0));
    assert_eq!(None, parse_parentheses(b"(('a' < 1)&&('b' < 1))", 0));
    assert_eq!(None, parse_parentheses(b"(('a' < 1)", 0));
}

#[test]
fn the_whole_text_must_be_a_declaration() {
    assert_eq!(None, parse_declaration(b"[L]true "));
    assert_eq!(None, parse_declaration(b" [L]true"));
    assert_eq!(None, parse_declaration(b"[L]declare 'a':sint64 in (('a' > 0)) "));
    assert_eq!(None, parse_declaration(b"[L]declare 'a':sint64 in "));
    assert_eq!(None, parse_declaration(b"[L]declare 'a':sint65 in ('a' > 0)"));
    assert_eq!(None, parse_declaration(b"[L]declare 'a':sint64,'b':sint8 in ('a' > 0)"));
    assert_eq!(None, parse_declaration(b""));
    assert_eq!(None, parse_declaration("[L]declare 'é':sint64 in ('é' > 0)".as_bytes()));
}

#[test]
fn a_comparison_of_an_undeclared_variable_is_not_read() {
    assert_eq!(None, parse_declaration(b"[L]declare 'a':sint64 in ('b' > 0)"));
    assert_eq!(
        Expression::Unparsable(String::from("[L]declare 'a':sint64 in ('b' > 0)")),
        Expression::from_str("[L]declare 'a':sint64 in ('b' > 0)")
    );
    let mut vars = variable_map(vec![(String::from("a"), Type::SInt8)]);
    assert_eq!(None, interprete(&mut vars, &Ast::Lt(String::from("b"), 1)));
    let mut vars = variable_map(vec![(String::from("a"), Type::SInt8)]);
    assert_eq!(
        None,
        interprete(
            &mut vars,
            &Ast::And(vec![
                Ast::Lt(String::from("a"), 1),
                Ast::Lt(String::from("b"), 1)
            ])
        )
    );
}

#[test]
fn a_later_declaration_of_a_name_counts() {
    let vars = variable_map(vec![
        (String::from("a"), Type::SInt8),
        (String::from("b"), Type::SInt16),
        (String::from("a"), Type::SInt32),
    ]);
    assert_eq!(
        vec![
            Variable {
                name: String::from("a"),
                typ: Type::SInt32,
                range: Type::SInt32.range()
            },
            Variable {
                name: String::from("b"),
                typ: Type::SInt16,
                range: Type::SInt16.range()
            },
        ],
        vars
    );
}

#[test]
fn interpreting_narrows_in_turn() {
    let mut vars = variable_map(vec![
        (String::from("a"), Type::SInt8),
        (String::from("b"), Type::SInt8),
    ]);
    let ast = Ast::And(vec![
        make_comparison(String::from("a"), Op::Gte, 0),
        make_comparison(String::from("b"), Op::Neq, 0),
        Ast::And(vec![make_comparison(String::from("a"), Op::Lt, 10)]),
    ]);
    assert_eq!(Some(()), interprete(&mut vars, &ast));
    assert_eq!(&vec![(0, 9)], vars[0].range.get_ranges());
    assert_eq!(&vec![(-128, -1), (1, 127)], vars[1].range.get_ranges());
}

#[test]
fn make_comparison_picks_the_variant() {
    assert_eq!(Ast::Eq(String::from("a"), 1), make_comparison(String::from("a"), Op::Eq, 1));
    assert_eq!(Ast::Neq(String::from("a"), 1), make_comparison(String::from("a"), Op::Neq, 1));
    assert_eq!(Ast::Lt(String::from("a"), 1), make_comparison(String::from("a"), Op::Lt, 1));
    assert_eq!(Ast::Lte(String::from("a"), 1), make_comparison(String::from("a"), Op::Lte, 1));
    assert_eq!(Ast::Gt(String::from("a"), 1), make_comparison(String::from("a"), Op::Gt, 1));
    assert_eq!(Ast::Gte(String::from("a"), 1), make_comparison(String::from("a"), Op::Gte, 1));
}

#[test]
fn what_is_not_read_loses_its_casts() {
    assert_eq!(
        Expression::Unparsable(String::from("[L]declare 'n':sint32 in ('n' >= 0.5)")),
        Expression::from_str("[L]declare 'n':sint32 in ((sint64)'n' >= 0.5)")
    );
    assert_eq!(
        Expression::Unparsable(String::from("'a' + 'b' <  && f")),
        Expression::from_str("(sint32)'a' + 'b' < (x1) && f()")
    );
    assert_eq!(
        Expression::Unparsable(String::from("(a b) (a-b)")),
        Expression::from_str("(a b) (a-b)")
    );
    assert_eq!(Expression::Unparsable(String::new()), Expression::from_str(""));
}

#[test]
fn unparsable_keeps_the_text_where_nothing_was_stripped() {
    assert_eq!(
        Expression::Unparsable(String::from("whole")),
        Expression::unparsable("whole", None)
    );
    assert_eq!(
        Expression::Unparsable(String::from("rest")),
        Expression::unparsable("whole", Some(String::from("rest")))
    );
}

#[test]
fn three_outcomes_of_reading() {
    assert_eq!(
        Reading::Read(Condition::True),
        read_declaration(b"[L]true")
    );
    assert_eq!(
        Reading::Read(Condition::Conditions(vec![Variable {
            name: String::from("a"),
            typ: Type::SInt8,
            range: Range::from(1, 127),
        }])),
        read_declaration(b"[L]declare 'a':sint8 in (('a' > 0))")
    );
    assert_eq!(
        Reading::Unresolved,
        read_declaration(b"[L]declare 'a':sint8 in (('b' > 0))")
    );
    assert_eq!(
        Reading::Unresolved,
        read_declaration(b"[L]declare 'a':sint8 in (('a' > 0) && ('A' > 0))")
    );
    assert_eq!(
        Reading::NoDeclaration,
        read_declaration(b"[L]declare 'a':sint8 in (('b' > 0)) ")
    );
    assert_eq!(Reading::NoDeclaration, read_declaration(b"f(x)"));
    assert_eq!(Reading::NoDeclaration, read_declaration(b""));
}

#[test]
fn a_path_is_read_or_left_out() {
    assert_eq!(
        None,
        Expression::from_path("[L]declare 'a':sint8 in (('b' > 0))")
    );
    assert_eq!(
        Some(Expression::Parsed(Condition::True)),
        Expression::from_path("[L]true")
    );
    assert_eq!(
        Some(Expression::Unparsable(String::from("'a' + f"))),
        Expression::from_path("(sint8)'a' + f()")
    );
    assert_eq!(
        Some(Expression::from_str("[L]declare 'a':sint8 in (('a' > 0))")),
        Expression::from_path("[L]declare 'a':sint8 in (('a' > 0))")
    );
}

#[test]
fn a_failing_interpretation_stops_where_it_fails() {
    let mut vars = variable_map(vec![
        (String::from("a"), Type::SInt8),
        (String::from("c"), Type::SInt16),
    ]);
    let ast = Ast::And(vec![
        Ast::Gte(String::from("a"), 0),
        Ast::And(vec![
            Ast::Lt(String::from("c"), 7),
            Ast::Lt(String::from("b"), 1),
            Ast::Lt(String::from("c"), 0),
        ]),
        Ast::Lt(String::from("a"), 5),
    ]);
    assert_eq!(None, interprete(&mut vars, &ast));
    assert_eq!(
        vec![
            Variable {
                name: String::from("a"),
                typ: Type::SInt8,
                range: Range::from(0, 127),
            },
            Variable {
                name: String::from("c"),
                typ: Type::SInt16,
                range: Range::from(-32768, 6),
            },
        ],
        vars
    );
    let mut vars = variable_map(vec![(String::from("a"), Type::SInt8)]);
    assert_eq!(None, interprete(&mut vars, &Ast::Lt(String::from("b"), 1)));
    assert_eq!(variable_map(vec![(String::from("a"), Type::SInt8)]), vars);
}
