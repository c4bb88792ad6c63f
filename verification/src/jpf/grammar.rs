//! The grammar of a path condition, and the parser that reads it.
//!
//! ```text
//! declaration   := "[L]true"
//!                | "[L]declare " var_decl (", " var_decl)* " in " group
//! var_decl      := "'" name "'" ":" type
//! type          := "sint8" | "sint16" | "sint32" | "sint64"
//! group         := "(" (comparison | conjunction) ")"
//! conjunction   := group (" && " group)*
//! comparison    := cast? "'" name "'" ws op ws (digits | "-" digits)
//! cast          := "(" type ")"
//! op            := "==" | "!=" | "<=" | ">=" | "<" | ">"
//! ```
//!
//! A name is one or more ASCII letters and digits, `ws` is any number of
//! spaces, tabs, carriage returns and line feeds, and a number must be a
//! 64-bit integer. Each rule is a spec function from the bytes and a position
//! to what stands there and where it ends; the parser returns what the rule
//! says.

use vstd::prelude::*;
use vstd::string::*;
use crate::jpf::expression::{
    declare_all,
    decl_views,
    interpret,
    interprete,
    make_comparison,
    trees,
    variable_map,
    Ast,
    Condition,
    ConditionView,
    Op,
    Tree,
    Type,
};
use crate::text::{bytes_to_string, text_of};

verus! {

/// The bytes of a word of the grammar.
pub open spec fn lit(word: &str) -> Seq<u8> {
    word.spec_bytes()
}

/// Where `word` ends, if it stands in `s` at `pos`.
pub open spec fn token(s: Seq<u8>, pos: int, word: Seq<u8>) -> Option<int> {
    if 0 <= pos && word.len() > 0 && pos + word.len() <= s.len() && s.subrange(
        pos,
        pos + word.len(),
    ) == word {
        Some(pos + word.len())
    } else {
        None
    }
}

/// The kinds of bytes that the grammar takes in runs.
#[derive(Clone, Copy, Debug, PartialEq, Eq)]
pub enum Class {
    /// `0` to `9`.
    Digit,
    /// `0` to `9`, `A` to `Z` and `a` to `z`.
    Alphanumeric,
    /// Space, tab, carriage return and line feed.
    Space,
}

/// The byte is of the class.
pub open spec fn in_class(class: Class, b: u8) -> bool {
    match class {
        Class::Digit => 48 <= b <= 57,
        Class::Alphanumeric => 48 <= b <= 57 || 65 <= b <= 90 || 97 <= b <= 122,
        Class::Space => b == 32 || b == 9 || b == 13 || b == 10,
    }
}

/// How many bytes of the class stand in `s` from `pos` on, without a break.
pub open spec fn run(s: Seq<u8>, pos: int, class: Class) -> int
    decreases s.len() - pos,
{
    if 0 <= pos < s.len() && in_class(class, s[pos]) {
        1 + run(s, pos + 1, class)
    } else {
        0
    }
}

/// The number that decimal digits stand for.
pub open spec fn decimal_value(digits: Seq<u8>) -> nat
    decreases digits.len(),
{
    if digits.len() == 0 {
        0
    } else {
        decimal_value(digits.drop_last()) * 10 + (digits.last() - 48) as nat
    }
}

/// `'name'`: the name, and where the closing quote ends.
pub open spec fn name_at(s: Seq<u8>, pos: int) -> Option<(Seq<char>, int)> {
    match token(s, pos, lit("'")) {
        Some(p) => {
            let n = run(s, p, Class::Alphanumeric);
            if n >= 1 {
                match token(s, p + n, lit("'")) {
                    Some(end) => Some((text_of(s.subrange(p, p + n)), end)),
                    None => None,
                }
            } else {
                None
            }
        },
        None => None,
    }
}

/// The name of a type.
pub open spec fn type_at(s: Seq<u8>, pos: int) -> Option<(Type, int)> {
    if let Some(end) = token(s, pos, lit("sint8")) {
        Some((Type::SInt8, end))
    } else if let Some(end) = token(s, pos, lit("sint16")) {
        Some((Type::SInt16, end))
    } else if let Some(end) = token(s, pos, lit("sint32")) {
        Some((Type::SInt32, end))
    } else if let Some(end) = token(s, pos, lit("sint64")) {
        Some((Type::SInt64, end))
    } else {
        None
    }
}

/// `(type)`: where a cast ends.
pub open spec fn cast_at(s: Seq<u8>, pos: int) -> Option<int> {
    match token(s, pos, lit("(")) {
        Some(p) => match type_at(s, p) {
            Some((_, q)) => token(s, q, lit(")")),
            None => None,
        },
        None => None,
    }
}

/// A name in quotes, with or without a cast before it.
pub open spec fn ident_at(s: Seq<u8>, pos: int) -> Option<(Seq<char>, int)> {
    match cast_at(s, pos) {
        Some(p) => name_at(s, p),
        None => name_at(s, pos),
    }
}

/// A comparison operator.
pub open spec fn op_at(s: Seq<u8>, pos: int) -> Option<(Op, int)> {
    if let Some(end) = token(s, pos, lit("==")) {
        Some((Op::Eq, end))
    } else if let Some(end) = token(s, pos, lit("!=")) {
        Some((Op::Neq, end))
    } else if let Some(end) = token(s, pos, lit("<=")) {
        Some((Op::Lte, end))
    } else if let Some(end) = token(s, pos, lit(">=")) {
        Some((Op::Gte, end))
    } else if let Some(end) = token(s, pos, lit(">")) {
        Some((Op::Gt, end))
    } else if let Some(end) = token(s, pos, lit("<")) {
        Some((Op::Lt, end))
    } else {
        None
    }
}

/// Digits, with or without `-` before them, that stand for a 64-bit integer.
pub open spec fn number_at(s: Seq<u8>, pos: int) -> Option<(i64, int)> {
    let n = run(s, pos, Class::Digit);
    if n >= 1 {
        let v = decimal_value(s.subrange(pos, pos + n));
        if v <= i64::MAX {
            Some((v as i64, pos + n))
        } else {
            None
        }
    } else {
        match token(s, pos, lit("-")) {
            Some(p) => {
                let n = run(s, p, Class::Digit);
                let v = decimal_value(s.subrange(p, p + n));
                if n >= 1 && v <= -i64::MIN {
                    Some(((-v) as i64, p + n))
                } else {
                    None
                }
            },
            None => None,
        }
    }
}

/// A comparison of a variable with a number.
pub open spec fn comparison_at(s: Seq<u8>, pos: int) -> Option<(Tree, int)> {
    match ident_at(s, pos) {
        Some((name, p)) => match op_at(s, p + run(s, p, Class::Space)) {
            Some((op, q)) => match number_at(s, q + run(s, q, Class::Space)) {
                Some((v, end)) => Some((Tree::Compare(name, op, v), end)),
                None => None,
            },
            None => None,
        },
        None => None,
    }
}

/// A comparison or a conjunction, in parentheses.
pub open spec fn group_at(s: Seq<u8>, pos: int) -> Option<(Tree, int)>
    decreases s.len() - pos, 0int,
{
    match token(s, pos, lit("(")) {
        Some(p) => {
            let inner = match comparison_at(s, p) {
                Some(found) => Some(found),
                None => match conjunction_at(s, p) {
                    Some((parts, q)) => Some((Tree::And(parts), q)),
                    None => None,
                },
            };
            match inner {
                Some((tree, q)) => match token(s, q, lit(")")) {
                    Some(end) => Some((tree, end)),
                    None => None,
                },
                None => None,
            }
        },
        None => None,
    }
}

/// One or more groups with ` && ` between them.
pub open spec fn conjunction_at(s: Seq<u8>, pos: int) -> Option<(Seq<Tree>, int)>
    decreases s.len() - pos, 1int,
{
    match group_at(s, pos) {
        Some((first, p)) => if pos < p <= s.len() {
            Some(conjunction_from(s, p, seq![first]))
        } else {
            None
        },
        None => None,
    }
}

/// The groups `found`, and those that follow at `pos`, each after ` && `.
pub open spec fn conjunction_from(s: Seq<u8>, pos: int, found: Seq<Tree>) -> (Seq<Tree>, int)
    decreases s.len() - pos, 1int,
{
    match token(s, pos, lit(" && ")) {
        Some(p) => match group_at(s, p) {
            Some((next, q)) => if p < q <= s.len() {
                conjunction_from(s, q, found.push(next))
            } else {
                (found, pos)
            },
            None => (found, pos),
        },
        None => (found, pos),
    }
}

/// The declaration of a variable: its name and its type.
pub open spec fn declaration_at(s: Seq<u8>, pos: int) -> Option<((Seq<char>, Type), int)> {
    match name_at(s, pos) {
        Some((name, p)) => match token(s, p, lit(":")) {
            Some(q) => match type_at(s, q) {
                Some((typ, end)) => Some(((name, typ), end)),
                None => None,
            },
            None => None,
        },
        None => None,
    }
}

/// One or more declarations with `, ` between them.
pub open spec fn declarations_at(s: Seq<u8>, pos: int) -> Option<(Seq<(Seq<char>, Type)>, int)> {
    match declaration_at(s, pos) {
        Some((first, p)) => Some(declarations_from(s, p, seq![first])),
        None => None,
    }
}

/// The declarations `found`, and those that follow at `pos`, each after
/// `, `.
pub open spec fn declarations_from(s: Seq<u8>, pos: int, found: Seq<(Seq<char>, Type)>) -> (
    Seq<(Seq<char>, Type)>,
    int,
)
    decreases s.len() - pos,
{
    match token(s, pos, lit(", ")) {
        Some(p) => match declaration_at(s, p) {
            Some((next, q)) => if p < q <= s.len() {
                declarations_from(s, q, found.push(next))
            } else {
                (found, pos)
            },
            None => (found, pos),
        },
        None => (found, pos),
    }
}

/// What a text is when it is read as a path condition.
#[derive(Debug, PartialEq)]
pub enum Reading {
    /// A declaration of the grammar, each of whose comparisons names a
    /// declared variable: what it demands.
    Read(Condition),
    /// A declaration of the grammar with a comparison of a variable that
    /// it does not declare.
    Unresolved,
    /// No declaration of the grammar.
    NoDeclaration,
}

/// What a `Reading` stands for.
pub enum ReadingView {
    Read(ConditionView),
    Unresolved,
    NoDeclaration,
}

impl View for Reading {
    type V = ReadingView;

    open spec fn view(&self) -> ReadingView {
        match self {
            Reading::Read(c) => ReadingView::Read(c@),
            Reading::Unresolved => ReadingView::Unresolved,
            Reading::NoDeclaration => ReadingView::NoDeclaration,
        }
    }
}

/// What the whole of `s` is: `[L]true` demands nothing; a declaration of
/// variables and a group demands what interpreting the group leaves to the
/// variables, and is unresolved where the group compares a variable that
/// is not declared; any other text is no declaration.
pub open spec fn reading(s: Seq<u8>) -> ReadingView {
    if s == lit("[L]true") {
        ReadingView::Read(ConditionView::True)
    } else {
        match token(s, 0, lit("[L]declare ")) {
            Some(p) => match declarations_at(s, p) {
                Some((decls, q)) => match token(s, q, lit(" in ")) {
                    Some(r) => match group_at(s, r) {
                        Some((tree, end)) => if end == s.len() {
                            match interpret(declare_all(decls, decls.len() as int), tree) {
                                Some(vars) => ReadingView::Read(ConditionView::Conditions(vars)),
                                None => ReadingView::Unresolved,
                            }
                        } else {
                            ReadingView::NoDeclaration
                        },
                        None => ReadingView::NoDeclaration,
                    },
                    None => ReadingView::NoDeclaration,
                },
                None => ReadingView::NoDeclaration,
            },
            None => ReadingView::NoDeclaration,
        }
    }
}

/// What the whole of `s` demands, if it is a declaration of the grammar
/// and each of its comparisons names a declared variable.
pub open spec fn path_condition(s: Seq<u8>) -> Option<ConditionView> {
    match reading(s) {
        ReadingView::Read(c) => Some(c),
        _ => None,
    }
}

/// The whole of `input` is `word`.
pub fn is_word(input: &[u8], word: &str) -> (r: bool)
    ensures
        r == (input@ == lit(word)),
{
    let bytes = word.as_bytes();
    if bytes.len() != input.len() {
        return false;
    }
    let mut k: usize = 0;
    while k < input.len()
        invariant
            k <= input@.len(),
            bytes@ == lit(word),
            bytes@.len() == input@.len(),
            forall|j: int| 0 <= j < k ==> input@[j] == bytes@[j],
        decreases input.len() - k,
    {
        if input[k] != bytes[k] {
            return false;
        }
        k += 1;
    }
    assert(input@ =~= bytes@);
    true
}

/// Where `word` ends, if it stands in `input` at `pos`.
pub fn tag(input: &[u8], pos: usize, word: &str) -> (r: Option<usize>)
    ensures
        match token(input@, pos as int, lit(word)) {
            Some(end) => r matches Some(e) && e == end && pos < e <= input@.len(),
            None => r is None,
        },
{
    let bytes = word.as_bytes();
    let n = bytes.len();
    if n == 0 || pos > input.len() || n > input.len() - pos {
        return None;
    }
    let mut k: usize = 0;
    while k < n
        invariant
            k <= n,
            n == bytes@.len(),
            bytes@ == lit(word),
            pos + n <= input@.len() <= usize::MAX,
            forall|j: int| 0 <= j < k ==> input@[pos + j] == bytes@[j],
        decreases n - k,
    {
        if input[pos + k] != bytes[k] {
            assert(input@.subrange(pos as int, pos + n)[k as int] != bytes@[k as int]);
            return None;
        }
        k += 1;
    }
    assert(input@.subrange(pos as int, pos + n) =~= bytes@);
    Some(pos + n)
}

/// The byte is of the class.
pub fn has_class(class: Class, b: u8) -> (r: bool)
    ensures
        r == in_class(class, b),
{
    match class {
        Class::Digit => 48 <= b && b <= 57,
        Class::Alphanumeric => (48 <= b && b <= 57) || (65 <= b && b <= 90) || (97 <= b && b
            <= 122),
        Class::Space => b == 32 || b == 9 || b == 13 || b == 10,
    }
}

/// A run goes on for as long as its bytes are of the class.
pub proof fn lemma_run(s: Seq<u8>, pos: int, end: int, class: Class)
    requires
        0 <= pos <= end <= s.len(),
        forall|k: int| pos <= k < end ==> in_class(class, #[trigger] s[k]),
    ensures
        run(s, pos, class) == (end - pos) + run(s, end, class),
    decreases end - pos,
{
    if pos < end {
        lemma_run(s, pos + 1, end, class);
    }
}

/// Where the run of bytes of the class that starts at `pos` ends.
pub fn scan(input: &[u8], pos: usize, class: Class) -> (end: usize)
    ensures
        end == pos + run(input@, pos as int, class),
        pos <= end,
        pos <= input@.len() ==> end <= input@.len(),
        forall|k: int| pos <= k < end ==> in_class(class, #[trigger] input@[k]),
{
    let mut end = pos;
    let mut more = end < input.len() && has_class(class, input[end]);
    while more
        invariant
            pos <= end,
            input@.len() <= usize::MAX,
            pos <= input@.len() ==> end <= input@.len(),
            pos > input@.len() ==> end == pos,
            more == (end < input@.len() && in_class(class, input@[end as int])),
            forall|k: int| pos <= k < end ==> in_class(class, #[trigger] input@[k]),
        decreases input@.len() - end,
    {
        end += 1;
        more = end < input.len() && has_class(class, input[end]);
    }
    proof {
        assert(run(input@, end as int, class) == 0);
        if pos <= input@.len() {
            lemma_run(input@, pos as int, end as int, class);
        }
    }
    end
}

/// The value of a longer run of digits is no less than that of its start.
proof fn lemma_decimal_value_grows(digits: Seq<u8>, n: int)
    requires
        0 <= n <= digits.len(),
        forall|k: int| 0 <= k < digits.len() ==> in_class(Class::Digit, #[trigger] digits[k]),
    ensures
        decimal_value(digits.take(n)) <= decimal_value(digits),
    decreases digits.len() - n,
{
    if n == digits.len() {
        assert(digits.take(n) =~= digits);
    } else {
        lemma_decimal_value_grows(digits, n + 1);
        assert(digits.take(n + 1).drop_last() =~= digits.take(n));
    }
}

/// The number that the digits of `input` from `from` up to `to` stand for,
/// unless it is greater than 2^63.
fn magnitude(input: &[u8], from: usize, to: usize) -> (r: Option<u64>)
    requires
        from <= to <= input@.len(),
        forall|k: int| from <= k < to ==> in_class(Class::Digit, #[trigger] input@[k]),
    ensures
        match r {
            Some(m) => m == decimal_value(input@.subrange(from as int, to as int)) && m
                <= 0x8000_0000_0000_0000,
            None => decimal_value(input@.subrange(from as int, to as int))
                > 0x8000_0000_0000_0000,
        },
{
    let ghost digits = input@.subrange(from as int, to as int);
    let mut m: u64 = 0;
    let mut k: usize = from;
    assert(digits.take(0) =~= Seq::<u8>::empty());
    while k < to
        invariant
            from <= k <= to <= input@.len(),
            digits == input@.subrange(from as int, to as int),
            forall|j: int| 0 <= j < digits.len() ==> in_class(Class::Digit, #[trigger] digits[j]),
            m == decimal_value(digits.take(k - from)),
            m <= 0x8000_0000_0000_0000,
        decreases to - k,
    {
        assert(digits[k - from] == input@[k as int]);
        let d = (input[k] - 48) as u64;
        proof {
            assert(digits.take(k - from + 1).drop_last() =~= digits.take(k - from));
            assert(digits.take(k - from + 1).last() == digits[k - from]);
        }
        if m > 922337203685477580 || m * 10 + d > 0x8000_0000_0000_0000 {
            proof {
                lemma_decimal_value_grows(digits, k - from + 1);
            }
            return None;
        }
        m = m * 10 + d;
        k += 1;
    }
    assert(digits.take(k - from) =~= digits);
    Some(m)
}

/// Reads a name in quotes.
pub fn parse_variable(input: &[u8], start: usize) -> (r: Option<(String, usize)>)
    ensures
        match name_at(input@, start as int) {
            Some((name, end)) => r matches Some((n, e)) && n@ == name && e == end && start < e
                <= input@.len(),
            None => r is None,
        },
{
    match tag(input, start, "'") {
        Some(p) => {
            let q = scan(input, p, Class::Alphanumeric);
            if q > p {
                match tag(input, q, "'") {
                    Some(end) => Some((bytes_to_string(input, p, q), end)),
                    None => None,
                }
            } else {
                None
            }
        },
        None => None,
    }
}

/// Reads the name of a type.
pub fn parse_type(input: &[u8], start: usize) -> (r: Option<(Type, usize)>)
    ensures
        match type_at(input@, start as int) {
            Some((typ, end)) => r matches Some((t, e)) && t == typ && e == end && start < e
                <= input@.len(),
            None => r is None,
        },
{
    if let Some(end) = tag(input, start, "sint8") {
        Some((Type::SInt8, end))
    } else if let Some(end) = tag(input, start, "sint16") {
        Some((Type::SInt16, end))
    } else if let Some(end) = tag(input, start, "sint32") {
        Some((Type::SInt32, end))
    } else if let Some(end) = tag(input, start, "sint64") {
        Some((Type::SInt64, end))
    } else {
        None
    }
}

/// Reads a cast and tells where it ends.
pub fn parse_cast(input: &[u8], start: usize) -> (r: Option<usize>)
    ensures
        match cast_at(input@, start as int) {
            Some(end) => r matches Some(e) && e == end && start < e <= input@.len(),
            None => r is None,
        },
{
    match tag(input, start, "(") {
        Some(p) => match parse_type(input, p) {
            Some((_, q)) => tag(input, q, ")"),
            None => None,
        },
        None => None,
    }
}

/// Reads a name in quotes, with or without a cast before it.
pub fn parse_ident(input: &[u8], start: usize) -> (r: Option<(String, usize)>)
    ensures
        match ident_at(input@, start as int) {
            Some((name, end)) => r matches Some((n, e)) && n@ == name && e == end && start < e
                <= input@.len(),
            None => r is None,
        },
{
    match parse_cast(input, start) {
        Some(p) => parse_variable(input, p),
        None => parse_variable(input, start),
    }
}

/// Reads a comparison operator.
pub fn parse_operator(input: &[u8], start: usize) -> (r: Option<(Op, usize)>)
    ensures
        match op_at(input@, start as int) {
            Some((op, end)) => r matches Some((o, e)) && o == op && e == end && start < e
                <= input@.len(),
            None => r is None,
        },
{
    if let Some(end) = tag(input, start, "==") {
        Some((Op::Eq, end))
    } else if let Some(end) = tag(input, start, "!=") {
        Some((Op::Neq, end))
    } else if let Some(end) = tag(input, start, "<=") {
        Some((Op::Lte, end))
    } else if let Some(end) = tag(input, start, ">=") {
        Some((Op::Gte, end))
    } else if let Some(end) = tag(input, start, ">") {
        Some((Op::Gt, end))
    } else if let Some(end) = tag(input, start, "<") {
        Some((Op::Lt, end))
    } else {
        None
    }
}

/// Reads a number.
pub fn parse_number(input: &[u8], start: usize) -> (r: Option<(i64, usize)>)
    ensures
        match number_at(input@, start as int) {
            Some((v, end)) => r matches Some((val, e)) && val == v && e == end && start < e
                <= input@.len(),
            None => r is None,
        },
{
    let end = scan(input, start, Class::Digit);
    if end > start {
        if start > input.len() {
            return None;
        }
        match magnitude(input, start, end) {
            Some(m) => if m <= i64::MAX as u64 {
                Some((m as i64, end))
            } else {
                None
            },
            None => None,
        }
    } else {
        match tag(input, start, "-") {
            Some(p) => {
                let end = scan(input, p, Class::Digit);
                if end > p {
                    match magnitude(input, p, end) {
                        Some(m) => {
                            let v = if m == 0x8000_0000_0000_0000 {
                                i64::MIN
                            } else {
                                -(m as i64)
                            };
                            Some((v, end))
                        },
                        None => None,
                    }
                } else {
                    None
                }
            },
            None => None,
        }
    }
}

/// Reads a comparison of a variable with a number.
pub fn parse_comparision(input: &[u8], start: usize) -> (r: Option<(Ast, usize)>)
    ensures
        match comparison_at(input@, start as int) {
            Some((tree, end)) => r matches Some((ast, e)) && ast.tree() == tree && e == end
                && start < e <= input@.len(),
            None => r is None,
        },
{
    match parse_ident(input, start) {
        Some((name, p)) => match parse_operator(input, scan(input, p, Class::Space)) {
            Some((op, q)) => match parse_number(input, scan(input, q, Class::Space)) {
                Some((val, end)) => Some((make_comparison(name, op, val), end)),
                None => None,
            },
            None => None,
        },
        None => None,
    }
}

/// Reads a comparison or a conjunction, in parentheses.
pub fn parse_parentheses(input: &[u8], start: usize) -> (r: Option<(Ast, usize)>)
    ensures
        match group_at(input@, start as int) {
            Some((tree, end)) => r matches Some((ast, e)) && ast.tree() == tree && e == end
                && start < e <= input@.len(),
            None => r is None,
        },
    decreases input@.len() - start, 0int,
{
    match tag(input, start, "(") {
        Some(p) => {
            let inner = match parse_comparision(input, p) {
                Some(found) => Some(found),
                None => parse_and(input, p),
            };
            match inner {
                Some((ast, q)) => match tag(input, q, ")") {
                    Some(end) => Some((ast, end)),
                    None => None,
                },
                None => None,
            }
        },
        None => None,
    }
}

/// Reads one or more groups with ` && ` between them.
pub fn parse_and(input: &[u8], start: usize) -> (r: Option<(Ast, usize)>)
    ensures
        match conjunction_at(input@, start as int) {
            Some((parts, end)) => r matches Some((ast, e)) && ast.tree() == Tree::And(parts)
                && e == end && start < e <= input@.len(),
            None => r is None,
        },
    decreases input@.len() - start, 1int,
{
    match parse_parentheses(input, start) {
        Some((first, p)) => {
            let ghost whole = conjunction_from(input@, p as int, seq![first.tree()]);
            let mut parts: Vec<Ast> = Vec::new();
            parts.push(first);
            let mut pos = p;
            assert(trees(parts@) =~= seq![parts@[0].tree()]);
            loop
                invariant
                    start < pos <= input@.len(),
                    conjunction_from(input@, pos as int, trees(parts@)) == whole,
                ensures
                    start < pos <= input@.len(),
                    whole == (trees(parts@), pos as int),
                decreases input@.len() - pos,
            {
                match tag(input, pos, " && ") {
                    Some(q) => match parse_parentheses(input, q) {
                        Some((next, end)) => {
                            let ghost before = trees(parts@);
                            parts.push(next);
                            pos = end;
                            assert(trees(parts@) =~= before.push(next.tree()));
                        },
                        None => {
                            break ;
                        },
                    },
                    None => {
                        break ;
                    },
                }
            }
            let ast = Ast::And(parts);
            assert(ast.tree()->And_0 =~= trees(parts@));
            Some((ast, pos))
        },
        None => None,
    }
}

/// Reads the declaration of a variable.
pub fn parse_variable_declaration(input: &[u8], start: usize) -> (r: Option<
    ((String, Type), usize),
>)
    ensures
        match declaration_at(input@, start as int) {
            Some((decl, end)) => r matches Some((d, e)) && d.0@ == decl.0 && d.1 == decl.1 && e
                == end && start < e <= input@.len(),
            None => r is None,
        },
{
    match parse_variable(input, start) {
        Some((name, p)) => match tag(input, p, ":") {
            Some(q) => match parse_type(input, q) {
                Some((typ, end)) => Some(((name, typ), end)),
                None => None,
            },
            None => None,
        },
        None => None,
    }
}

/// Reads one or more declarations with `, ` between them.
pub fn parse_variable_declarations(input: &[u8], start: usize) -> (r: Option<
    (Vec<(String, Type)>, usize),
>)
    ensures
        match declarations_at(input@, start as int) {
            Some((decls, end)) => r matches Some((d, e)) && decl_views(d@) == decls && e == end
                && start < e <= input@.len(),
            None => r is None,
        },
{
    match parse_variable_declaration(input, start) {
        Some((first, p)) => {
            let ghost whole = declarations_from(input@, p as int, seq![(first.0@, first.1)]);
            let mut decls: Vec<(String, Type)> = Vec::new();
            decls.push(first);
            let mut pos = p;
            assert(decl_views(decls@) =~= seq![(first.0@, first.1)]);
            loop
                invariant
                    start < pos <= input@.len(),
                    declarations_from(input@, pos as int, decl_views(decls@)) == whole,
                ensures
                    start < pos <= input@.len(),
                    whole == (decl_views(decls@), pos as int),
                decreases input@.len() - pos,
            {
                match tag(input, pos, ", ") {
                    Some(q) => match parse_variable_declaration(input, q) {
                        Some((next, end)) => {
                            let ghost before = decl_views(decls@);
                            let ghost added = (next.0@, next.1);
                            decls.push(next);
                            pos = end;
                            assert(decl_views(decls@) =~= before.push(added));
                        },
                        None => {
                            break ;
                        },
                    },
                    None => {
                        break ;
                    },
                }
            }
            Some((decls, pos))
        },
        None => None,
    }
}

/// Reads a whole path condition, and tells a declaration that compares a
/// variable that it does not declare from a text that is no declaration.
pub fn read_declaration(input: &[u8]) -> (r: Reading)
    ensures
        r@ == reading(input@),
{
    if is_word(input, "[L]true") {
        return Reading::Read(Condition::True);
    }
    match tag(input, 0, "[L]declare ") {
        Some(p) => match parse_variable_declarations(input, p) {
            Some((decls, q)) => match tag(input, q, " in ") {
                Some(r) => match parse_parentheses(input, r) {
                    Some((ast, end)) => {
                        if end != input.len() {
                            return Reading::NoDeclaration;
                        }
                        let mut vars = variable_map(decls);
                        match interprete(&mut vars, &ast) {
                            Some(()) => Reading::Read(Condition::Conditions(vars)),
                            None => Reading::Unresolved,
                        }
                    },
                    None => Reading::NoDeclaration,
                },
                None => Reading::NoDeclaration,
            },
            None => Reading::NoDeclaration,
        },
        None => Reading::NoDeclaration,
    }
}

/// Reads a whole path condition: what it demands, if it is a declaration of
/// the grammar and each of its comparisons names a declared variable.
pub fn parse_declaration(input: &[u8]) -> (r: Option<Condition>)
    ensures
        match path_condition(input@) {
            Some(c) => r matches Some(found) && found@ == c,
            None => r is None,
        },
{
    match read_declaration(input) {
        Reading::Read(c) => Some(c),
        _ => None,
    }
}

} // verus!
