use doco::jpf::expression::{Condition, Expression, Type, Variable};
use doco::jpf::{
    process_output, ranges_to_string, reduce, variable_conditions_to_string, variable_to_string,
    NoValidValue,
};
use doco::range::Range;

fn var(name: &str, typ: Type, parts: &[(i64, i64)]) -> Variable {
    let mut range = Range::from(1, 0);
    for &(l, u) in parts {
        range = range.union(&Range::from(l, u));
    }
    Variable {
        name: String::from(name),
        typ,
        range,
    }
}

fn path(vars: Vec<Variable>) -> Expression {
    Expression::Parsed(Condition::Conditions(vars))
}

fn text(r: Result<String, NoValidValue>) -> String {
    r.unwrap()
}

#[test]
fn the_whole_type_renders_as_nothing() {
    assert_eq!("", text(ranges_to_string(&[(-128, 127)], "x", -128, 127)));
    assert_eq!("", text(variable_to_string(&var("x", Type::SInt8, &[(-128, 127)]))));
    assert_eq!(
        "",
        text(variable_to_string(&var("x", Type::SInt64, &[(i64::MIN, i64::MAX)])))
    );
}

#[test]
fn a_single_point_renders_with_both_bounds() {
    assert_eq!(
        "('x' >= 5 && 'x' <= 5)",
        text(variable_to_string(&var("x", Type::SInt8, &[(5, 5)])))
    );
}

#[test]
fn bounds_at_the_ends_of_the_type_are_left_out() {
    assert_eq!(
        "('x' <= 5)",
        text(ranges_to_string(&[(-128, 5)], "x", -128, 127))
    );
    assert_eq!(
        "('x' >= -5)",
        text(ranges_to_string(&[(-5, 127)], "x", -128, 127))
    );
    assert_eq!(
        "('x' <= -2) || ('x' >= 0 && 'x' <= 3) || ('x' >= 100)",
        text(ranges_to_string(
            &[(-128, -2), (0, 3), (100, 127)],
            "x",
            -128,
            127
        ))
    );
    assert_eq!(
        "('v1' >= -9223372036854775807 && 'v1' <= 9223372036854775806)",
        text(ranges_to_string(
            &[(i64::MIN + 1, i64::MAX - 1)],
            "v1",
            i64::MIN,
            i64::MAX
        ))
    );
    assert_eq!(
        "('x' <= -9223372036854775808)",
        text(ranges_to_string(&[(i64::MIN, i64::MIN)], "x", i64::MIN, i64::MAX))
    );
    assert_eq!("()", text(ranges_to_string(&[(i64::MIN, 127)], "x", -128, 127)));
    assert_eq!("()", text(ranges_to_string(&[(-200, 200)], "x", -128, 127)));
}

#[test]
fn no_interval_is_an_error() {
    let e = ranges_to_string(&[], "x", -128, 127).unwrap_err();
    assert_eq!("No valid value for 'x'", e.description());
    assert_eq!(
        "No valid value for 'abc'",
        NoValidValue::for_variable("abc").description()
    );
    let e = variable_to_string(&var("n", Type::SInt8, &[])).unwrap_err();
    assert_eq!("No valid value for 'n'", e.description());
}

#[test]
fn a_real_declaration_is_read_and_rendered() {
    let read = Expression::from_str(
        "[L]declare 'n':sint32 in (((sint64)'n' >= 0) && ((sint64)'n' < 2))",
    );
    assert_eq!(path(vec![var("n", Type::SInt32, &[(0, 1)])]), read);
    assert_eq!(
        "('n' >= 0 && 'n' <= 1)",
        text(reduce(&vec![read], false))
    );
}

#[test]
fn two_paths_for_one_variable_are_united() {
    let paths = vec![
        path(vec![var("a", Type::SInt32, &[(i32::MIN as i64, -1)])]),
        path(vec![var("a", Type::SInt32, &[(1, i32::MAX as i64)])]),
    ];
    assert_eq!("('a' <= -1) || ('a' >= 1)", text(reduce(&paths, false)));
    let texts = vec![
        String::from("[L]declare 'a':sint32 in ('a' < 0)"),
        String::from("[L]declare 'a':sint32 in ('a' > 0)"),
    ];
    assert_eq!(
        "('a' <= -1) || ('a' >= 1)",
        text(process_output(&texts, false))
    );
}

#[test]
fn without_paths() {
    assert_eq!("True", text(reduce(&vec![], true)));
    assert_eq!("No satisfiable value", text(reduce(&vec![], false)));
    assert_eq!("True", text(process_output(&vec![], true)));
    assert_eq!("No satisfiable value", text(process_output(&vec![], false)));
}

#[test]
fn a_true_path_decides() {
    let paths = vec![
        path(vec![var("a", Type::SInt32, &[(1, 5)])]),
        Expression::Unparsable(String::from("f(x)")),
        path(vec![var("b", Type::SInt8, &[])]),
        Expression::Parsed(Condition::True),
        path(vec![var("c", Type::SInt32, &[(1, 5)])]),
    ];
    assert_eq!("True", text(reduce(&paths, false)));
    assert_eq!("True", text(reduce(&paths, true)));
    let texts = vec![
        String::from("[L]declare 'a':sint32 in ('a' < 0)"),
        String::from("[L]true"),
        String::from("no declaration"),
    ];
    assert_eq!("True", text(process_output(&texts, false)));
}

#[test]
fn fragments_in_their_order() {
    let paths = vec![
        path(vec![var("b", Type::SInt8, &[(1, 5)])]),
        path(vec![
            var("x", Type::SInt8, &[(0, 127)]),
            var("y", Type::SInt8, &[(-128, 127)]),
            var("z", Type::SInt8, &[(-128, -1), (1, 127)]),
        ]),
        Expression::Unparsable(String::from("f(x)")),
        path(vec![var("a", Type::SInt16, &[(7, 7)])]),
        path(vec![var("b", Type::SInt32, &[(6, 9)])]),
        Expression::Unparsable(String::from("g(y)")),
        path(vec![]),
    ];
    assert_eq!(
        "(('b' >= 1 && 'b' <= 9)) || (('a' >= 7 && 'a' <= 7)) || (('x' >= 0) && ('z' <= -1) || ('z' >= 1)) || (f(x)) || (g(y))",
        text(reduce(&paths, true))
    );
}

#[test]
fn one_fragment_has_no_parentheses_around_it() {
    assert_eq!(
        "f(x)",
        text(reduce(&vec![Expression::Unparsable(String::from("f(x)"))], false))
    );
    assert_eq!(
        "('x' >= 0) && ('z' <= -1)",
        text(reduce(
            &vec![path(vec![
                var("x", Type::SInt8, &[(0, 127)]),
                var("z", Type::SInt8, &[(-128, -1)]),
            ])],
            false
        ))
    );
}

#[test]
fn no_fragment_is_true() {
    assert_eq!(
        "True",
        text(reduce(
            &vec![path(vec![var("x", Type::SInt8, &[(-128, 127)])])],
            false
        ))
    );
    assert_eq!(
        "True",
        text(reduce(
            &vec![
                path(vec![var("x", Type::SInt8, &[(-128, 0)])]),
                path(vec![var("x", Type::SInt8, &[(1, 127)])]),
                path(vec![
                    var("y", Type::SInt8, &[(-128, 127)]),
                    var("z", Type::SInt16, &[(-32768, 32767)]),
                ]),
            ],
            false
        ))
    );
}

#[test]
fn the_first_type_of_a_name_stays() {
    let paths = vec![
        path(vec![var("a", Type::SInt8, &[(-128, 0)])]),
        path(vec![var("a", Type::SInt32, &[(1, 127)])]),
    ];
    assert_eq!("True", text(reduce(&paths, false)));
}

#[test]
fn a_variable_without_a_value_fails_the_whole() {
    let paths = vec![
        Expression::Unparsable(String::from("f(x)")),
        path(vec![var("a", Type::SInt8, &[(1, 2)])]),
        path(vec![
            var("x", Type::SInt8, &[(0, 127)]),
            var("y", Type::SInt8, &[]),
            var("z", Type::SInt8, &[]),
        ]),
        path(vec![var("b", Type::SInt8, &[])]),
    ];
    let e = reduce(&paths, false).unwrap_err();
    assert_eq!("No valid value for 'b'", e.description());
    let e = reduce(&paths[..3].iter().map(copy).collect(), false).unwrap_err();
    assert_eq!("No valid value for 'y'", e.description());
    let texts = vec![String::from(
        "[L]declare 'k':sint8 in (('k' < 0) && ('k' > 0))",
    )];
    let e = process_output(&texts, true).unwrap_err();
    assert_eq!("No valid value for 'k'", e.description());
}

fn copy(e: &Expression) -> Expression {
    match e {
        Expression::Unparsable(s) => Expression::Unparsable(s.clone()),
        Expression::Parsed(Condition::True) => Expression::Parsed(Condition::True),
        Expression::Parsed(Condition::Conditions(v)) => {
            Expression::Parsed(Condition::Conditions(v.iter().map(|x| x.clone()).collect()))
        }
    }
}

#[test]
fn a_group_joins_its_variables() {
    assert_eq!(
        "('x' >= 0) && ('z' <= -1) || ('z' >= 1)",
        text(variable_conditions_to_string(&vec![
            var("x", Type::SInt8, &[(0, 127)]),
            var("y", Type::SInt8, &[(-128, 127)]),
            var("z", Type::SInt8, &[(-128, -1), (1, 127)]),
        ]))
    );
    assert_eq!("", text(variable_conditions_to_string(&vec![])));
}

#[test]
fn texts_that_are_not_read_pass_through() {
    let texts = vec![
        String::from("[L]declare 'a':sint32 in ('a' < 0)"),
        String::from("(sint32)'a' + (sint32)'b' < 3"),
        String::from("[L]declare 'a':sint32, 'b':sint8 in (('a' > 5) && ('b' == 1))"),
    ];
    assert_eq!(
        "(('a' <= -1)) || (('a' >= 6) && ('b' >= 1 && 'b' <= 1)) || ('a' + 'b' < 3)",
        text(process_output(&texts, false))
    );
}

#[test]
fn a_path_with_an_undeclared_variable_is_dropped() {
    let texts = vec![
        String::from("[L]declare 'a':sint32 in (('b' > 0))"),
        String::from("[L]declare 'a':sint32 in (('a' > 0))"),
    ];
    assert_eq!("('a' >= 1)", text(process_output(&texts, false)));
    assert_eq!("('a' >= 1)", text(process_output(&texts, true)));
    let texts = vec![
        String::from("[L]declare 'a':sint32 in (('a' > 0))"),
        String::from("[L]declare 'a':sint32 in (('a' < 0) && ('b' > 0))"),
        String::from("no declaration"),
    ];
    assert_eq!(
        "(('a' >= 1)) || (no declaration)",
        text(process_output(&texts, false))
    );
}

#[test]
fn a_dropped_path_gives_no_error() {
    let texts = vec![
        String::from("[L]declare 'a':sint8 in (('a' < 0) && ('a' > 0) && ('b' > 0))"),
        String::from("[L]declare 'a':sint8 in (('a' == 3))"),
    ];
    assert_eq!("('a' >= 3 && 'a' <= 3)", text(process_output(&texts, false)));
}

#[test]
fn where_every_path_is_dropped_the_precondition_is_true() {
    let texts = vec![
        String::from("[L]declare 'a':sint32 in (('b' > 0))"),
        String::from("[L]declare 'x':sint8, 'y':sint8 in (('x' > 0) && ('z' < 0))"),
    ];
    assert_eq!("True", text(process_output(&texts, false)));
    assert_eq!("True", text(process_output(&texts, true)));
}
