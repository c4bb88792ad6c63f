//! How the tools that infer invariants are run.

use vstd::prelude::*;
use vstd::string::*;
use crate::text::{join, joined, texts};
use crate::Config;

pub mod invariants;

verus! {

/// What can go wrong when invariants are inferred.
#[derive(Debug, PartialEq)]
pub enum Error {
    InvalidTestsDirectory(String),
    DynamicAnalysisFailure(String, String),
}

/// What an error says.
pub open spec fn error_text(e: Error) -> Seq<char> {
    match e {
        Error::InvalidTestsDirectory(dir) => "Invalid tests directory: "@ + dir@,
        Error::DynamicAnalysisFailure(file, reason) => "Daikon failure.\nFile: "@ + file@
            + "\nReason: "@ + reason@,
    }
}

impl Error {
    /// What the error says.
    pub fn to_text(&self) -> (r: String)
        ensures
            r@ == error_text(*self),
    {
        let mut r = String::new();
        match self {
            Error::InvalidTestsDirectory(dir) => {
                r.append("Invalid tests directory: ");
                r.append(dir.as_str());
                assert(r@ =~= error_text(*self));
            },
            Error::DynamicAnalysisFailure(file, reason) => {
                r.append("Daikon failure.\nFile: ");
                r.append(file.as_str());
                r.append("\nReason: ");
                r.append(reason.as_str());
                assert(r@ =~= error_text(*self));
            },
        }
        r
    }
}

/// The name of the file that the inferred invariants go to.
pub const DAIKON_INV_PATH: &'static str = "daikon.txt";

/// The class that finds out which variables can be compared.
pub const DAIKON_DYNCOMP: &'static str = "daikon.DynComp";

/// The class that traces a run.
pub const DAIKON_CHICORY: &'static str = "daikon.Chicory";

/// The class path of the tools and of the program, with colons between its
/// entries.
pub open spec fn classpath_text(config: Config) -> Seq<char> {
    joined(texts(config.daikon_classpath@) + texts(config.classpath@), ":"@)
}

/// The class path of the tools and of the program, with colons between its
/// entries.
pub fn classpath(config: &Config) -> (r: String)
    ensures
        r@ == classpath_text(*config),
{
    let mut v: Vec<String> = Vec::new();
    let mut k: usize = 0;
    assert(texts(v@) =~= texts(config.daikon_classpath@).take(0));
    while k < config.daikon_classpath.len()
        invariant
            k <= config.daikon_classpath.len(),
            texts(v@) == texts(config.daikon_classpath@).take(k as int),
        decreases config.daikon_classpath.len() - k,
    {
        let ghost before = texts(v@);
        let cp = config.daikon_classpath[k].clone();
        v.push(cp);
        k += 1;
        assert(texts(v@) =~= before.push(cp@));
        assert(texts(v@) =~= texts(config.daikon_classpath@).take(k as int));
    }
    assert(texts(config.daikon_classpath@).take(k as int) =~= texts(config.daikon_classpath@));
    let mut j: usize = 0;
    assert(texts(v@) =~= texts(config.daikon_classpath@) + texts(config.classpath@).take(0));
    while j < config.classpath.len()
        invariant
            j <= config.classpath.len(),
            texts(v@) == texts(config.daikon_classpath@) + texts(config.classpath@).take(j as int),
        decreases config.classpath.len() - j,
    {
        let ghost before = texts(v@);
        let cp = config.classpath[j].clone();
        v.push(cp);
        j += 1;
        assert(texts(v@) =~= before.push(cp@));
        assert(texts(v@) =~= texts(config.daikon_classpath@) + texts(config.classpath@).take(
            j as int,
        ));
    }
    assert(texts(config.classpath@).take(j as int) =~= texts(config.classpath@));
    join(&v, ":")
}

/// A class with its package.
pub fn qualified(package: &str, class: &str) -> (r: String)
    ensures
        r@ == package@ + "."@ + class@,
{
    let mut r = String::new();
    r.append(package);
    r.append(".");
    r.append(class);
    assert(r@ =~= package@ + "."@ + class@);
    r
}

/// The arguments with which `java` finds out which variables of a class can
/// be compared.
pub fn dyncomp_arguments(config: &Config, package: &str, class: &str) -> (args: Vec<String>)
    ensures
        texts(args@) == seq![
            "-cp"@,
            classpath_text(*config),
            DAIKON_DYNCOMP@,
            package@ + "."@ + class@,
        ],
{
    let mut args: Vec<String> = Vec::new();
    args.push("-cp".to_owned());
    args.push(classpath(config));
    args.push(DAIKON_DYNCOMP.to_owned());
    args.push(qualified(package, class));
    assert(texts(args@) =~= seq![
        "-cp"@,
        classpath_text(*config),
        DAIKON_DYNCOMP@,
        package@ + "."@ + class@,
    ]);
    args
}

/// The arguments with which `java` traces a run of a class and infers its
/// invariants.
pub fn chicory_arguments(config: &Config, package: &str, class: &str) -> (args: Vec<String>)
    ensures
        texts(args@) == seq![
            "-cp"@,
            classpath_text(*config),
            DAIKON_CHICORY@,
            "--daikon-online"@,
            "--comparability-file"@,
            class@ + ".decls-DynComp"@,
            package@ + "."@ + class@,
        ],
{
    let mut decls = String::new();
    decls.append(class);
    decls.append(".decls-DynComp");
    assert(decls@ =~= class@ + ".decls-DynComp"@);
    let mut args: Vec<String> = Vec::new();
    args.push("-cp".to_owned());
    args.push(classpath(config));
    args.push(DAIKON_CHICORY.to_owned());
    args.push("--daikon-online".to_owned());
    args.push("--comparability-file".to_owned());
    args.push(decls);
    args.push(qualified(package, class));
    assert(texts(args@) =~= seq![
        "-cp"@,
        classpath_text(*config),
        DAIKON_CHICORY@,
        "--daikon-online"@,
        "--comparability-file"@,
        class@ + ".decls-DynComp"@,
        package@ + "."@ + class@,
    ]);
    args
}

} // verus!
