//! Reduces the path conditions that a symbolic execution reports for a
//! method to one precondition: the inputs for which the method is known to
//! run without an error. Beside it stand the settings of the tools that
//! are run, and what a report of inferred invariants says of a method.

use vstd::prelude::*;
use vstd::string::*;
use crate::pattern::{captures_all, groups_view, matches_view, regex_captures};
use crate::text::{split, split_at_char, split_words, texts, words};

pub mod daikon;
pub mod ftw;
pub mod jpf;
pub mod pattern;
pub mod range;
pub mod range_laws;
pub mod text;
pub mod text_laws;

verus! {

/// Where the tools are and how they are run.
#[derive(Debug, PartialEq)]
pub struct Config {
    pub jpf_home: String,
    pub jvm_flags: String,
    pub classpath: Vec<String>,
    pub daikon_classpath: Vec<String>,
    pub max_depth: u32,
}

/// An argument in the declaration of a method that is not a type and a
/// name.
#[derive(Debug, PartialEq)]
pub struct JavaArgParseError {
    description: String,
}

impl View for JavaArgParseError {
    type V = Seq<char>;

    /// What the error says.
    closed spec fn view(&self) -> Seq<char> {
        self.description@
    }
}

/// What the error says of the argument `arg` of the method `method`.
pub open spec fn malformed_argument(arg: Seq<char>, method: Seq<char>) -> Seq<char> {
    "Malformed argument "@ + arg + " in method "@ + method
}

impl JavaArgParseError {
    /// The error for the argument `arg` of the method `method`.
    pub fn from(arg: &str, method: &str) -> (e: JavaArgParseError)
        ensures
            e@ == malformed_argument(arg@, method@),
    {
        let mut description = String::new();
        description.append("Malformed argument ");
        description.append(arg);
        description.append(" in method ");
        description.append(method);
        assert(description@ =~= malformed_argument(arg@, method@));
        JavaArgParseError { description }
    }

    /// What the error says.
    pub fn description(&self) -> (r: &String)
        ensures
            r@ == self@,
    {
        &self.description
    }
}

/// A name, then an opening parenthesis, then what stands before the closing
/// one: the name of a method and its arguments, as its declaration has
/// them.
pub const METHOD_PATTERN: &'static str =
    "(?P<name>\\w+)[ \\t]*\\([ \\t]*(?P<arglist>[^\\)]*)[ \\t]*\\)";

/// The word is an annotation.
pub open spec fn is_annotation(word: Seq<char>) -> bool {
    word.len() > 0 && word[0] == '@'
}

/// Those of the first `n` words that are no annotations.
pub open spec fn plain_words(all: Seq<Seq<char>>, n: int) -> Seq<Seq<char>>
    decreases n,
{
    if n <= 0 {
        Seq::empty()
    } else if is_annotation(all[n - 1]) {
        plain_words(all, n - 1)
    } else {
        plain_words(all, n - 1).push(all[n - 1])
    }
}

/// An argument that is a type and a name, annotations apart, as name, colon,
/// type and comma. `None` for any other argument.
pub open spec fn argument_text(arg: Seq<char>) -> Option<Seq<char>> {
    let plain = plain_words(words(arg), words(arg).len() as int);
    if plain.len() == 2 {
        Some(plain[1] + ":"@ + plain[0] + ","@)
    } else {
        None
    }
}

/// The first `n` arguments as text, or the first of them that is no type
/// and name.
pub open spec fn arguments_text(args: Seq<Seq<char>>, n: int) -> Result<Seq<char>, Seq<char>>
    decreases n,
{
    if n <= 0 {
        Ok(Seq::empty())
    } else {
        match arguments_text(args, n - 1) {
            Err(arg) => Err(arg),
            Ok(text) => match argument_text(args[n - 1]) {
                Some(t) => Ok(text + t),
                None => Err(args[n - 1]),
            },
        }
    }
}

/// The signature of one method: package, class and name with dots between
/// them, then in parentheses the arguments that the commas of `arglist`
/// part. An empty `arglist` is no argument if `empty_ok`, else one
/// argument that is no type and name. The error is the argument that is
/// no type and name.
pub open spec fn method_text(
    package: Seq<char>,
    class: Seq<char>,
    name: Seq<char>,
    arglist: Seq<char>,
    empty_ok: bool,
) -> Result<Seq<char>, Seq<char>> {
    let args = split(arglist, ',');
    let inner = if arglist.len() == 0 && empty_ok {
        Ok(Seq::empty())
    } else {
        arguments_text(args, args.len() as int)
    };
    match inner {
        Ok(text) => Ok(package + "."@ + class + "."@ + name + "("@ + text + ")"@),
        Err(arg) => Err(arg),
    }
}

/// The name and the argument list of a match of `METHOD_PATTERN`: its
/// groups 1 and 2.
pub open spec fn name_and_arguments(groups: Seq<Option<Seq<char>>>) -> Option<
    (Seq<char>, Seq<char>),
> {
    if groups.len() >= 3 && groups[1] is Some && groups[2] is Some {
        Some((groups[1]->0, groups[2]->0))
    } else {
        None
    }
}

/// The name of the last of the first `n` matches and the signatures of all
/// of them, one after the other; or what the error says of the first
/// argument that is no type and name. A match without a name or an
/// argument list counts for nothing.
pub open spec fn signature_text(
    package: Seq<char>,
    class: Seq<char>,
    matches: Seq<Seq<Option<Seq<char>>>>,
    empty_ok: bool,
    n: int,
) -> Result<(Seq<char>, Seq<char>), Seq<char>>
    decreases n,
{
    if n <= 0 {
        Ok((Seq::empty(), Seq::empty()))
    } else {
        match signature_text(package, class, matches, empty_ok, n - 1) {
            Err(e) => Err(e),
            Ok((last, text)) => match name_and_arguments(matches[n - 1]) {
                None => Ok((last, text)),
                Some((name, arglist)) => match method_text(
                    package,
                    class,
                    name,
                    arglist,
                    empty_ok,
                ) {
                    Ok(t) => Ok((name, text + t)),
                    Err(arg) => Err(malformed_argument(arg, name)),
                },
            },
        }
    }
}

/// An argument that is a type and a name, annotations apart, as name, colon,
/// type and comma.
pub fn argument_to_string(arg: &str) -> (r: Option<String>)
    ensures
        match argument_text(arg@) {
            Some(t) => r matches Some(s) && s@ == t,
            None => r is None,
        },
{
    let all = split_words(arg);
    let mut plain: Vec<String> = Vec::new();
    let mut k: usize = 0;
    assert(texts(plain@) =~= plain_words(texts(all@), 0));
    while k < all.len()
        invariant
            k <= all.len(),
            texts(all@) == words(arg@),
            texts(plain@) == plain_words(texts(all@), k as int),
        decreases all.len() - k,
    {
        let ghost before = texts(plain@);
        let word = all[k].as_str();
        assert(word@ == texts(all@)[k as int]);
        let annotation = word.unicode_len() > 0 && word.get_char(0) == '@';
        if !annotation {
            plain.push(all[k].clone());
            assert(texts(plain@) =~= before.push(word@));
        }
        k += 1;
    }
    if plain.len() != 2 {
        return None;
    }
    assert(texts(plain@)[0] == plain[0]@);
    assert(texts(plain@)[1] == plain[1]@);
    let mut r = String::new();
    r.append(plain[1].as_str());
    r.append(":");
    r.append(plain[0].as_str());
    r.append(",");
    assert(r@ =~= plain[1]@ + ":"@ + plain[0]@ + ","@);
    Some(r)
}

/// The signature of one method: see `method_text`. The error is the
/// argument that is no type and name.
pub fn method_to_string(package: &str, class: &str, name: &str, arglist: &str, empty_ok: bool) -> (r:
    Result<String, String>)
    ensures
        match method_text(package@, class@, name@, arglist@, empty_ok) {
            Ok(t) => r matches Ok(s) && s@ == t,
            Err(arg) => r matches Err(a) && a@ == arg,
        },
{
    let mut ret = String::new();
    ret.append(package);
    ret.append(".");
    ret.append(class);
    ret.append(".");
    ret.append(name);
    ret.append("(");
    let ghost head = ret@;
    if !(arglist.unicode_len() == 0 && empty_ok) {
        let args = split_at_char(arglist, ',');
        let mut k: usize = 0;
        assert(ret@ =~= head + Seq::<char>::empty());
        while k < args.len()
            invariant
                k <= args.len(),
                !(arglist@.len() == 0 && empty_ok),
                texts(args@) == split(arglist@, ','),
                arguments_text(texts(args@), k as int) matches Ok(text) && ret@ == head + text,
            decreases args.len() - k,
        {
            assert(texts(args@)[k as int] == args[k as int]@);
            match argument_to_string(args[k].as_str()) {
                Some(t) => {
                    ret.append(t.as_str());
                    proof {
                        let text = arguments_text(texts(args@), k as int)->Ok_0;
                        assert(ret@ =~= head + (text + t@));
                    }
                },
                None => {
                    proof {
                        lemma_arguments_fail(texts(args@), k as int + 1, args.len() as int);
                    }
                    return Err(args[k].clone());
                },
            }
            k += 1;
        }
    }
    ret.append(")");
    proof {
        let inner = if arglist@.len() == 0 && empty_ok {
            Seq::<char>::empty()
        } else {
            arguments_text(split(arglist@, ','), split(arglist@, ',').len() as int)->Ok_0
        };
        assert(ret@ =~= package@ + "."@ + class@ + "."@ + name@ + "("@ + inner + ")"@);
    }
    Ok(ret)
}

/// Once an argument is no type and name, the arguments after it change
/// nothing.
pub proof fn lemma_arguments_fail(args: Seq<Seq<char>>, n: int, m: int)
    requires
        0 <= n <= m,
        arguments_text(args, n) is Err,
    ensures
        arguments_text(args, m) == arguments_text(args, n),
    decreases m - n,
{
    if n < m {
        lemma_arguments_fail(args, n, m - 1);
    }
}

/// Once a method has an argument that is no type and name, the matches
/// after it change nothing.
pub proof fn lemma_signature_fails(
    package: Seq<char>,
    class: Seq<char>,
    matches: Seq<Seq<Option<Seq<char>>>>,
    empty_ok: bool,
    n: int,
    m: int,
)
    requires
        0 <= n <= m,
        signature_text(package, class, matches, empty_ok, n) is Err,
    ensures
        signature_text(package, class, matches, empty_ok, m) == signature_text(
            package,
            class,
            matches,
            empty_ok,
            n,
        ),
    decreases m - n,
{
    if n < m {
        lemma_signature_fails(package, class, matches, empty_ok, n, m - 1);
    }
}

/// What was returned is what was specified: the name and the signature, or
/// the error.
pub open spec fn names(
    r: Result<(String, String), JavaArgParseError>,
    expected: Result<(Seq<char>, Seq<char>), Seq<char>>,
) -> bool {
    match expected {
        Ok((name, text)) => r matches Ok(found) && found.0@ == name && found.1@ == text,
        Err(e) => r matches Err(f) && f@ == e,
    }
}

/// The name of the last method among the matches of `METHOD_PATTERN` in a
/// declaration, and the signatures of all of them: see `signature_text`.
pub fn signature(
    package: &str,
    class: &str,
    matches: &Vec<Vec<Option<String>>>,
    empty_ok: bool,
) -> (r: Result<(String, String), JavaArgParseError>)
    ensures
        names(
            r,
            signature_text(
                package@,
                class@,
                matches_view(matches@),
                empty_ok,
                matches.len() as int,
            ),
        ),
{
    let ghost all = matches_view(matches@);
    let mut ret = String::new();
    let mut name = String::new();
    let mut k: usize = 0;
    while k < matches.len()
        invariant
            k <= matches.len(),
            all == matches_view(matches@),
            signature_text(package@, class@, all, empty_ok, k as int) == Ok::<
                (Seq<char>, Seq<char>),
                Seq<char>,
            >((name@, ret@)),
        decreases matches.len() - k,
    {
        let cap = &matches[k];
        assert(all[k as int] == groups_view(cap@));
        if cap.len() >= 3 {
            assert(groups_view(cap@)[1] == match cap@[1] {
                Some(s) => Some(s@),
                None => None,
            });
            assert(groups_view(cap@)[2] == match cap@[2] {
                Some(s) => Some(s@),
                None => None,
            });
            match (&cap[1], &cap[2]) {
                (Some(found), Some(arglist)) => {
                    match method_to_string(
                        package,
                        class,
                        found.as_str(),
                        arglist.as_str(),
                        empty_ok,
                    ) {
                        Ok(t) => {
                            name = found.clone();
                            ret.append(t.as_str());
                        },
                        Err(arg) => {
                            proof {
                                lemma_signature_fails(
                                    package@,
                                    class@,
                                    all,
                                    empty_ok,
                                    k as int + 1,
                                    matches.len() as int,
                                );
                            }
                            return Err(JavaArgParseError::from(arg.as_str(), found.as_str()));
                        },
                    }
                },
                _ => {},
            }
        }
        k += 1;
    }
    Ok((name, ret))
}

/// The matches of `METHOD_PATTERN` in a declaration, or none where the
/// pattern does not compile.
pub open spec fn method_matches(decl: Seq<char>) -> Seq<Seq<Option<Seq<char>>>> {
    match regex_captures(METHOD_PATTERN@, decl) {
        Some(found) => found,
        None => Seq::empty(),
    }
}

/// The name of the method that a declaration declares, and its signature
/// with package and class: see `signature_text`. A method without
/// arguments has an empty argument list.
pub fn parse_java_method(package: &str, class: &str, decl: &str) -> (r: Result<
    (String, String),
    JavaArgParseError,
>)
    ensures
        names(
            r,
            signature_text(
                package@,
                class@,
                method_matches(decl@),
                true,
                method_matches(decl@).len() as int,
            ),
        ),
{
    match captures_all(METHOD_PATTERN, decl) {
        Some(matches) => signature(package, class, &matches, true),
        None => Ok((String::new(), String::new())),
    }
}

} // verus!
