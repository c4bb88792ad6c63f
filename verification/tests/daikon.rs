use doco::daikon::invariants::{
    classify, entity_from, escape, invariant_from, Entity, Event, Inferences, Invariant,
    InvariantList, Invariants, Parser,
};
use doco::daikon::{chicory_arguments, classpath, dyncomp_arguments, Error};
use doco::ftw::{not_a_directory, FileTraverseError};
use doco::Config;

const REPORT: &str = "Daikon version 5.8.2
x == null
A.skipped:::ENTER
===========================================================================
DataStructures.StackAr:::OBJECT
this.theArray != null
this.topOfStack >= -1
some text that is no invariant
===========================================================================
DataStructures.StackAr.isEmpty():::ENTER
this.topOfStack == -1
DataStructures.StackAr.isEmpty():::EXIT
return == true
(this.topOfStack == -1)  ==>  (return == true)
DataStructures.StackAr.isEmpty():::EXIT8
return == false
DataStructures.StackAr.push(Object):::ENTER
x != null
DataStructures.StackAr.push(Object):::EXIT;condition=\"x > 0\"
this.topOfStack >= 0
DataStructures.StackAr.push(Object):::EXIT;condition=\"x <= 0\"
s == \"a\"
DataStructures.StackAr.last():::ENTER
y == null
";

fn comparison(lhs: &str, operator: &str, rhs: &str) -> Invariant {
    Invariant::Comparison {
        lhs: String::from(lhs),
        operator: String::from(operator),
        rhs: String::from(rhs),
    }
}

#[test]
fn a_report_is_read() {
    let list = Invariants::parse(REPORT).unwrap();
    assert_eq!(3, list.len());
    assert_eq!(
        Some(&vec![Inferences {
            cond: String::new(),
            pre: vec![
                Invariant::NotNull {
                    exp: String::from("this.theArray")
                },
                comparison("this.topOfStack", ">=", "-1"),
            ],
            post: vec![],
        }]),
        list.get("DataStructures.StackAr")
    );
    assert_eq!(
        Some(&vec![Inferences {
            cond: String::new(),
            pre: vec![comparison("this.topOfStack", "==", "-1")],
            post: vec![comparison("return", "==", "true")],
        }]),
        list.get("DataStructures.StackAr.isEmpty()")
    );
    assert_eq!(
        Some(&vec![
            Inferences {
                cond: String::new(),
                pre: vec![Invariant::NotNull {
                    exp: String::from("x")
                }],
                post: vec![],
            },
            Inferences {
                cond: String::from("x > 0"),
                pre: vec![],
                post: vec![comparison("this.topOfStack", ">=", "0")],
            },
            Inferences {
                cond: String::from("x <= 0"),
                pre: vec![],
                post: vec![comparison("s", "==", "\"a\"")],
            },
        ]),
        list.get("DataStructures.StackAr.push(Object)")
    );
    assert_eq!(None, list.get("DataStructures.StackAr.last()"));
    assert_eq!(None, list.get("A.skipped"));
}

#[test]
fn what_a_report_says_of_a_method() {
    let list = Invariants::parse(REPORT).unwrap();
    let found = list
        .invariants_for("DataStructures", "StackAr", "public boolean isEmpty( )")
        .unwrap();
    assert_eq!(1, found.len());
    assert_eq!(
        "#doco-daikon {\"cond\":\"\",\"pre\":[\"this.topOfStack == -1\"],\"post\":[\"return == true\"]}",
        found[0].to_text()
    );
    let found = list
        .invariants_for("DataStructures", "StackAr", "public void push(Object x)")
        .unwrap();
    assert_eq!(3, found.len());
    assert_eq!(
        "#doco-daikon {\"cond\":\"x <= 0\",\"pre\":[],\"post\":[\"s == \\\"a\\\"\"]}",
        found[2].to_text()
    );
    assert_eq!(
        None,
        list.invariants_for("DataStructures", "StackAr", "public void pop()")
    );
    assert_eq!(
        None,
        list.invariants_for("DataStructures", "StackAr", "public void push(Object)")
    );
}

#[test]
fn an_operator_that_null_does_not_take_is_an_error() {
    let e = Invariants::parse("===\nA.f():::ENTER\nx < null\n").unwrap_err();
    assert_eq!("Invalid operator on NULL: <", e.description());
    assert!(Invariants::parse("x < null\n===\nA.f():::ENTER\n").is_ok());
    assert!(Invariants::parse("===\nA.f():::OTHER\nx < null\n").is_ok());
    let e = invariant_from(&String::from("x"), &String::from(">="), &String::from("null"))
        .unwrap_err();
    assert_eq!("Invalid operator on NULL: >=", e.description());
}

#[test]
fn an_empty_report_has_no_entry() {
    assert_eq!(0, Invariants::parse("").unwrap().len());
    assert_eq!("Total: 0 entities", Invariants::parse("").unwrap().to_text());
}

#[test]
fn the_list_as_text() {
    let list = Invariants::parse(REPORT).unwrap();
    assert_eq!(
        "DataStructures.StackAr\n\
         #doco-daikon {\"cond\":\"\",\"pre\":[\"this.theArray is not NULL\",\"this.topOfStack >= -1\"],\"post\":[]}\n\
         DataStructures.StackAr.isEmpty()\n\
         #doco-daikon {\"cond\":\"\",\"pre\":[\"this.topOfStack == -1\"],\"post\":[\"return == true\"]}\n\
         DataStructures.StackAr.push(Object)\n\
         #doco-daikon {\"cond\":\"\",\"pre\":[\"x is not NULL\"],\"post\":[]}\n\
         #doco-daikon {\"cond\":\"x > 0\",\"pre\":[],\"post\":[\"this.topOfStack >= 0\"]}\n\
         #doco-daikon {\"cond\":\"x <= 0\",\"pre\":[],\"post\":[\"s == \\\"a\\\"\"]}\n\
         Total: 3 entities",
        list.to_text()
    );
}

#[test]
fn invariants_in_words() {
    assert_eq!(
        "x is NULL",
        Invariant::Null {
            exp: String::from("x")
        }
        .to_text()
    );
    assert_eq!(
        "x is not NULL",
        Invariant::NotNull {
            exp: String::from("x")
        }
        .to_text()
    );
    assert_eq!("x >= y", comparison("x", ">=", "y").to_text());
    assert_eq!(
        "x is unchanged",
        Invariant::Original {
            source: String::from("x"),
            target: String::from("x")
        }
        .to_text()
    );
    assert_eq!(
        "x == original value of y",
        Invariant::Original {
            source: String::from("x"),
            target: String::from("y")
        }
        .to_text()
    );
    assert_eq!("a\\\"b\\\"\\\"c", escape("a\"b\"\"c"));
    assert_eq!("", escape(""));
}

#[test]
fn lines_are_classified() {
    assert_eq!(Event::Separator, classify("====="));
    assert_eq!(Event::Other, classify("== ==="));
    assert_eq!(Event::Other, classify(""));
    assert_eq!(Event::Implication, classify("(a == b)  ==>  (c == d)"));
    assert_eq!(
        Event::Parts(vec![(
            String::from("a.b"),
            String::from("!="),
            String::from("null")
        )]),
        classify("a.b != null")
    );
    assert_eq!(
        Event::Entities(vec![Entity {
            name: String::from("A.f(int)"),
            kind: String::from("EXIT12"),
            condition: String::from("not(x > 0)"),
        }]),
        classify("A.f(int):::EXIT12;condition=\"not(x > 0)\"")
    );
    assert_eq!(
        Event::Entities(vec![Entity {
            name: String::from("A"),
            kind: String::from("OBJECT"),
            condition: String::new(),
        }]),
        classify("A:::OBJECT")
    );
}

#[test]
fn an_entity_from_given_matches() {
    let groups = vec![
        Some(String::from("A:::ENTER;rest")),
        Some(String::from("A")),
        Some(String::from("ENTER")),
        Some(String::from("rest")),
    ];
    let conditions = vec![
        vec![Some(String::from("w1")), Some(String::from("first"))],
        vec![Some(String::from("w2")), Some(String::from("last"))],
    ];
    assert_eq!(
        Entity {
            name: String::from("A"),
            kind: String::from("ENTER"),
            condition: String::from("last")
        },
        entity_from(&groups, true, &conditions)
    );
    assert_eq!(
        Entity {
            name: String::from("A"),
            kind: String::from("ENTER"),
            condition: String::new()
        },
        entity_from(&groups, false, &conditions)
    );
    assert_eq!(
        Entity {
            name: String::new(),
            kind: String::new(),
            condition: String::new()
        },
        entity_from(&vec![None, None], true, &vec![])
    );
}

#[test]
fn the_parser_step_by_step() {
    let mut p = Parser::new();
    let entity = |name: &str, kind: &str, condition: &str| {
        Event::Entities(vec![Entity {
            name: String::from(name),
            kind: String::from(kind),
            condition: String::from(condition),
        }])
    };
    let parts = |l: &str, o: &str, r: &str| {
        Event::Parts(vec![(String::from(l), String::from(o), String::from(r))])
    };
    p.step(&parts("a", "==", "b")).unwrap();
    p.step(&entity("X", "ENTER", "")).unwrap();
    assert!(!p.started);
    assert_eq!("", p.entity);
    p.step(&Event::Separator).unwrap();
    assert!(p.started);
    p.step(&entity("A", "ENTER", "")).unwrap();
    p.step(&parts("a", "==", "null")).unwrap();
    p.step(&Event::Implication).unwrap();
    p.step(&Event::Other).unwrap();
    p.step(&Event::Separator).unwrap();
    assert_eq!(
        vec![Invariant::Null {
            exp: String::from("a")
        }],
        p.pre
    );
    p.step(&entity("A", "EXIT", "")).unwrap();
    p.step(&parts("r", ">", "0")).unwrap();
    assert!(p.at_exit);
    assert_eq!(vec![comparison("r", ">", "0")], p.post);
    assert_eq!(0, p.inferences.len());
    p.step(&entity("A", "EXIT", "c")).unwrap();
    assert_eq!(1, p.inferences.len());
    assert!(p.pre.is_empty() && p.post.is_empty());
    assert_eq!("c", p.cond);
    p.step(&entity("A", "WEIRD", "d")).unwrap();
    assert!(p.skipping);
    assert_eq!("c", p.cond);
    p.step(&parts("r", "<", "null")).unwrap();
    assert!(p.post.is_empty());
    p.step(&entity("B", "OBJECT", "c")).unwrap();
    assert!(!p.skipping && !p.at_exit);
    assert_eq!(0, p.inferences.len());
    assert_eq!(1, p.list.len());
    assert_eq!(2, p.list.get("A").unwrap().len());
    assert!(p.step(&parts("r", "<", "null")).is_err());
}

#[test]
fn a_later_entry_of_a_name_takes_the_place() {
    let mut list = InvariantList::new();
    list.insert(String::from("a"), vec![]);
    list.insert(String::from("b"), vec![]);
    list.insert(
        String::from("a"),
        vec![Inferences {
            cond: String::from("c"),
            pre: vec![],
            post: vec![],
        }],
    );
    assert_eq!(2, list.len());
    assert_eq!(1, list.get("a").unwrap().len());
    assert_eq!(
        "a\n#doco-daikon {\"cond\":\"c\",\"pre\":[],\"post\":[]}\nb\nTotal: 2 entities",
        list.to_text()
    );
}

#[test]
fn how_the_inference_is_run() {
    let config = Config {
        jpf_home: String::from("/opt/jpf"),
        jvm_flags: String::from("-ea"),
        classpath: vec![String::from("bin"), String::from("lib/x.jar")],
        daikon_classpath: vec![String::from("daikon.jar")],
        max_depth: 3,
    };
    assert_eq!("daikon.jar:bin:lib/x.jar", classpath(&config));
    assert_eq!(
        vec!["-cp", "daikon.jar:bin:lib/x.jar", "daikon.DynComp", "p.q.Tester"],
        dyncomp_arguments(&config, "p.q", "Tester")
    );
    assert_eq!(
        vec![
            "-cp",
            "daikon.jar:bin:lib/x.jar",
            "daikon.Chicory",
            "--daikon-online",
            "--comparability-file",
            "Tester.decls-DynComp",
            "p.q.Tester"
        ],
        chicory_arguments(&config, "p.q", "Tester")
    );
}

#[test]
fn errors_in_words() {
    assert_eq!(
        "Invalid tests directory: /t",
        Error::InvalidTestsDirectory(String::from("/t")).to_text()
    );
    assert_eq!(
        "Daikon failure.\nFile: f\nReason: r",
        Error::DynamicAnalysisFailure(String::from("f"), String::from("r")).to_text()
    );
    assert_eq!("Not a directory: /x", not_a_directory("/x"));
    let e = FileTraverseError::for_non_directory("/x");
    assert_eq!("/x", e.path);
    assert_eq!(
        "Error processing file /x (Not a directory: /x)",
        e.to_text()
    );
}
