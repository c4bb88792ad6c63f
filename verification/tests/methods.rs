use doco::jpf;
use doco::text::{bytes_to_string, chars_of, join, push_decimal, split_at_char, split_words};
use doco::{argument_to_string, method_to_string, parse_java_method, signature, JavaArgParseError};

#[test]
fn test_parse_nullary_method() {
    assert_eq!(
        (
            String::from("isEmpty"),
            String::from("DataStructures.StackAr.isEmpty()")
        ),
        parse_java_method("DataStructures", "StackAr", "    public boolean isEmpty( )")
            .unwrap()
    );
}

#[test]
fn arguments_are_turned_round() {
    assert_eq!(
        (
            String::from("isPrime"),
            String::from("com.google.common.math.IntMath.isPrime(n:int,)")
        ),
        parse_java_method(
            "com.google.common.math",
            "IntMath",
            "public static boolean isPrime(int n) {"
        )
        .unwrap()
    );
    assert_eq!(
        (String::from("top"), String::from("p.C.top(i:int,s:String,)")),
        parse_java_method("p", "C", "Object top(int i,   String\ts)").unwrap()
    );
}

#[test]
fn annotations_are_left_out() {
    assert_eq!(
        (String::from("f"), String::from("p.C.f(x:Object,n:int,)")),
        parse_java_method("p", "C", "void f(@Nullable Object x, @A @B int n)").unwrap()
    );
}

#[test]
fn a_malformed_argument_is_an_error() {
    let e = parse_java_method("p", "C", "void f(int)").unwrap_err();
    assert_eq!("Malformed argument int in method f", e.description());
    let e = parse_java_method("p", "C", "void f(int a, final int b)").unwrap_err();
    assert_eq!("Malformed argument  final int b in method f", e.description());
    let e = parse_java_method("p", "C", "void f(int a,)").unwrap_err();
    assert_eq!("Malformed argument  in method f", e.description());
    assert_eq!(
        "Malformed argument a b c in method m",
        JavaArgParseError::from("a b c", "m").description()
    );
}

#[test]
fn without_a_method_nothing_is_found() {
    assert_eq!(
        (String::new(), String::new()),
        parse_java_method("p", "C", "int x = 3;").unwrap()
    );
}

#[test]
fn every_method_of_a_declaration_is_taken() {
    assert_eq!(
        (String::from("g"), String::from("p.C.f(a:int,)p.C.g()")),
        parse_java_method("p", "C", "f(int a) g()").unwrap()
    );
}

#[test]
fn the_strict_reading_wants_an_argument() {
    let e = jpf::parse_java_method("p", "C", "boolean isEmpty( )").unwrap_err();
    assert_eq!("Malformed argument  in method isEmpty", e.description());
    assert_eq!(
        (String::from("f"), String::from("p.C.f(a:int,)")),
        jpf::parse_java_method("p", "C", "void f(int a)").unwrap()
    );
}

#[test]
fn signature_from_given_matches() {
    let matches = vec![
        vec![
            Some(String::from("f(int a)")),
            Some(String::from("f")),
            Some(String::from("int a")),
        ],
        vec![Some(String::from("whole")), None, Some(String::from("int a"))],
        vec![Some(String::from("short"))],
        vec![
            Some(String::from("g()")),
            Some(String::from("g")),
            Some(String::new()),
        ],
    ];
    assert_eq!(
        (String::from("g"), String::from("p.C.f(a:int,)p.C.g()")),
        signature("p", "C", &matches, true).unwrap()
    );
    let e = signature("p", "C", &matches, false).unwrap_err();
    assert_eq!("Malformed argument  in method g", e.description());
    assert_eq!(
        (String::new(), String::new()),
        signature("p", "C", &vec![], true).unwrap()
    );
}

#[test]
fn one_argument() {
    assert_eq!(Some(String::from("n:int,")), argument_to_string(" int  n "));
    assert_eq!(Some(String::from("n:int,")), argument_to_string("@X int @Y n"));
    assert_eq!(None, argument_to_string("int"));
    assert_eq!(None, argument_to_string(""));
    assert_eq!(None, argument_to_string("final int n"));
    assert_eq!(
        Ok(String::from("p.C.m(b:A,d:C,)")),
        method_to_string("p", "C", "m", "A b,C d", true)
    );
    assert_eq!(Ok(String::from("p.C.m()")), method_to_string("p", "C", "m", "", true));
    assert_eq!(Err(String::new()), method_to_string("p", "C", "m", "", false));
    assert_eq!(
        Err(String::from(" x")),
        method_to_string("p", "C", "m", "A b, x,C", true)
    );
}

#[test]
fn splitting_at_a_character() {
    let v = |s: &str| split_at_char(s, ',');
    assert_eq!(vec![String::new()], v(""));
    assert_eq!(vec!["a"], v("a"));
    assert_eq!(vec!["a", "b"], v("a,b"));
    assert_eq!(vec!["", "a", "", "b", ""], v(",a,,b,"));
    assert_eq!(vec!["-Xmx1g", "-ea"], split_at_char("-Xmx1g -ea", ' '));
    assert_eq!(vec!["é", "ü"], split_at_char("é\nü", '\n'));
}

#[test]
fn splitting_into_words() {
    assert_eq!(Vec::<String>::new(), split_words(""));
    assert_eq!(Vec::<String>::new(), split_words(" \t\n "));
    assert_eq!(vec!["a", "bc", "d"], split_words("  a bc\t\nd "));
    assert_eq!(vec!["a", "b"], split_words("a\u{2003}b"));
    assert_eq!(vec!["x"], split_words("x"));
}

#[test]
fn joining_and_numbers() {
    assert_eq!("", join(&vec![], ", "));
    assert_eq!("a", join(&vec![String::from("a")], ", "));
    assert_eq!(
        "a, , b",
        join(
            &vec![String::from("a"), String::new(), String::from("b")],
            ", "
        )
    );
    let mut s = String::from("n=");
    push_decimal(&mut s, 0);
    s.push(' ');
    push_decimal(&mut s, -7);
    s.push(' ');
    push_decimal(&mut s, 1234567890);
    s.push(' ');
    push_decimal(&mut s, i64::MIN);
    s.push(' ');
    push_decimal(&mut s, i64::MAX);
    assert_eq!(
        "n=0 -7 1234567890 -9223372036854775808 9223372036854775807",
        s
    );
    assert_eq!(vec!['a', 'é', 'z'], chars_of("aéz"));
    assert_eq!("bc", bytes_to_string(b"abcd", 1, 3));
    assert_eq!("", bytes_to_string(b"abcd", 2, 2));
}

#[test]
fn the_settings_of_the_symbolic_execution() {
    let config = doco::Config {
        jpf_home: String::from("/opt/jpf"),
        jvm_flags: String::from("-Xmx1g -ea"),
        classpath: vec![String::from("a.jar"), String::from("b")],
        daikon_classpath: vec![String::from("daikon.jar")],
        max_depth: 3,
    };
    assert_eq!("a.jar;b", jpf::classpath(&config));
    assert_eq!(
        vec!["-Xmx1g", "-ea", "-jar", "/opt/jpf/build/RunJPF.jar", "/tmp/x/run.jpf"],
        jpf::arguments(&config, "/opt/jpf/build/RunJPF.jar", "/tmp/x/run.jpf")
    );
    assert_eq!(
        "Unable to construct path to out.json",
        jpf::InvalidPath::from("out.json").description()
    );
    assert!(jpf::SPF_TEMPLATE.contains("summary.methods={{method_name}}\n"));
    assert!(jpf::SPF_TEMPLATE.starts_with("\nshell="));
}
