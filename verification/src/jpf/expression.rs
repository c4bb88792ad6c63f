//! One path condition: the variables that it declares, and the values that
//! its comparisons leave to each.

use vstd::prelude::*;
use vstd::string::*;
use crate::jpf::grammar::{
    parse_declaration,
    path_condition,
    read_declaration,
    reading,
    Reading,
    ReadingView,
};
use crate::jpf::laws::law_reached_only_narrows;
use crate::pattern::{regex_replace_all, replace_all};
use crate::range::{span, Range};

verus! {

/// The type of a declared variable: a signed integer of 8, 16, 32 or 64 bits.
#[derive(Clone, Copy, Debug, PartialEq, Eq)]
pub enum Type {
    SInt8,
    SInt16,
    SInt32,
    SInt64,
}

impl Type {
    /// The least value of the type.
    pub open spec fn lower(self) -> int {
        match self {
            Type::SInt8 => i8::MIN as int,
            Type::SInt16 => i16::MIN as int,
            Type::SInt32 => i32::MIN as int,
            Type::SInt64 => i64::MIN as int,
        }
    }

    /// The greatest value of the type.
    pub open spec fn upper(self) -> int {
        match self {
            Type::SInt8 => i8::MAX as int,
            Type::SInt16 => i16::MAX as int,
            Type::SInt32 => i32::MAX as int,
            Type::SInt64 => i64::MAX as int,
        }
    }

    /// The least and the greatest value of the type.
    pub fn bounds(&self) -> (r: (i64, i64))
        ensures
            r.0 == self.lower(),
            r.1 == self.upper(),
    {
        match self {
            Type::SInt8 => (i8::MIN as i64, i8::MAX as i64),
            Type::SInt16 => (i16::MIN as i64, i16::MAX as i64),
            Type::SInt32 => (i32::MIN as i64, i32::MAX as i64),
            Type::SInt64 => (i64::MIN, i64::MAX),
        }
    }

    /// All values of the type, as one interval.
    pub fn range(&self) -> (r: Range)
        ensures
            r.wf(),
            r.intervals() == seq![(self.lower() as i64, self.upper() as i64)],
            r@ == span(self.lower(), self.upper()),
    {
        match self {
            Type::SInt8 => Range::from(i8::MIN as i64, i8::MAX as i64),
            Type::SInt16 => Range::from(i16::MIN as i64, i16::MAX as i64),
            Type::SInt32 => Range::from(i32::MIN as i64, i32::MAX as i64),
            Type::SInt64 => Range::from(i64::MIN, i64::MAX),
        }
    }
}

/// A comparison operator.
#[derive(Clone, Copy, Debug, PartialEq, Eq)]
pub enum Op {
    Eq,
    Neq,
    Lte,
    Gte,
    Gt,
    Lt,
}

/// The integers `x` for which `x op v` holds.
pub open spec fn permitted(op: Op, v: int) -> Set<int> {
    Set::new(
        |x: int|
            match op {
                Op::Eq => x == v,
                Op::Neq => x != v,
                Op::Lte => x <= v,
                Op::Gte => x >= v,
                Op::Gt => x > v,
                Op::Lt => x < v,
            },
    )
}

/// A declared variable: its name, its type, and the values that the
/// comparisons read so far leave to it.
#[derive(Debug, PartialEq)]
pub struct Variable {
    pub name: String,
    pub typ: Type,
    pub range: Range,
}

impl Clone for Variable {
    fn clone(&self) -> (r: Variable)
        ensures
            r@ == self@,
            r.range.intervals() == self.range.intervals(),
    {
        Variable { name: self.name.clone(), typ: self.typ, range: self.range.clone() }
    }
}

/// What a `Variable` stands for.
pub struct VariableView {
    pub name: Seq<char>,
    pub typ: Type,
    pub values: Set<int>,
}

impl View for Variable {
    type V = VariableView;

    open spec fn view(&self) -> VariableView {
        VariableView { name: self.name@, typ: self.typ, values: self.range@ }
    }
}

/// The views of the variables of `vars`.
pub open spec fn views(vars: Seq<Variable>) -> Seq<VariableView> {
    Seq::new(vars.len(), |i: int| vars[i]@)
}

/// A variable of the given name and type that may still have every value of
/// its type.
pub open spec fn fresh(name: Seq<char>, typ: Type) -> VariableView {
    VariableView { name, typ, values: span(typ.lower(), typ.upper()) }
}

/// A variable of that name is among `vars`.
pub open spec fn declared(vars: Seq<VariableView>, name: Seq<char>) -> bool {
    exists|i: int| 0 <= i < vars.len() && (#[trigger] vars[i]).name == name
}

/// `i` is the place of the first variable of that name in `vars`.
pub open spec fn is_first_named(vars: Seq<VariableView>, name: Seq<char>, i: int) -> bool {
    &&& 0 <= i < vars.len()
    &&& vars[i].name == name
    &&& forall|j: int| 0 <= j < i ==> (#[trigger] vars[j]).name != name
}

/// The place of the first variable of that name in `vars`.
pub open spec fn first_named(vars: Seq<VariableView>, name: Seq<char>) -> int {
    choose|i: int| is_first_named(vars, name, i)
}

/// A name that is declared has a first variable.
pub proof fn lemma_first_exists(vars: Seq<VariableView>, name: Seq<char>)
    requires
        declared(vars, name),
    ensures
        is_first_named(vars, name, first_named(vars, name)),
{
    let k = choose|k: int| 0 <= k < vars.len() && (#[trigger] vars[k]).name == name;
    lemma_least_named(vars, name, k);
}

/// Below a variable of a name there is a first one.
proof fn lemma_least_named(vars: Seq<VariableView>, name: Seq<char>, k: int)
    requires
        0 <= k < vars.len(),
        vars[k].name == name,
    ensures
        exists|i: int| is_first_named(vars, name, i),
    decreases k,
{
    if exists|j: int| 0 <= j < k && (#[trigger] vars[j]).name == name {
        let j = choose|j: int| 0 <= j < k && (#[trigger] vars[j]).name == name;
        lemma_least_named(vars, name, j);
    } else {
        assert(is_first_named(vars, name, k));
    }
}

/// The first variable of a name is found at one place only.
pub proof fn lemma_first_named(vars: Seq<VariableView>, name: Seq<char>, i: int)
    requires
        is_first_named(vars, name, i),
    ensures
        declared(vars, name),
        first_named(vars, name) == i,
{
    let j = first_named(vars, name);
    assert(is_first_named(vars, name, j));
    if j < i {
        assert(vars[j].name != name);
    }
    if i < j {
        assert(vars[i].name != name);
    }
}

/// The variables after one more declaration: a name declared before gets the
/// new type and all its values back, at its old place; a new name goes to
/// the end.
pub open spec fn declare(vars: Seq<VariableView>, name: Seq<char>, typ: Type) -> Seq<
    VariableView,
> {
    if declared(vars, name) {
        vars.update(first_named(vars, name), fresh(name, typ))
    } else {
        vars.push(fresh(name, typ))
    }
}

/// The variables after the first `n` of the declarations `decls`.
pub open spec fn declare_all(decls: Seq<(Seq<char>, Type)>, n: int) -> Seq<VariableView>
    decreases n,
{
    if n <= 0 {
        Seq::empty()
    } else {
        declare(declare_all(decls, n - 1), decls[n - 1].0, decls[n - 1].1)
    }
}

/// The variables after the comparison `name op v`: the variable of that
/// name keeps the values that the comparison permits. `None` if no variable
/// has that name.
pub open spec fn narrow(vars: Seq<VariableView>, name: Seq<char>, op: Op, v: i64) -> Option<
    Seq<VariableView>,
> {
    if declared(vars, name) {
        let i = first_named(vars, name);
        Some(
            vars.update(
                i,
                VariableView {
                    name: vars[i].name,
                    typ: vars[i].typ,
                    values: vars[i].values.intersect(permitted(op, v as int)),
                },
            ),
        )
    } else {
        None
    }
}

/// The conditions of a path as a tree: a comparison of a variable with a
/// number, or a conjunction of trees.
pub enum Tree {
    And(Seq<Tree>),
    Compare(Seq<char>, Op, i64),
}

/// The variables after every comparison of `tree`, taken from left to
/// right. `None` if one of them names a variable that is not declared.
pub open spec fn interpret(vars: Seq<VariableView>, tree: Tree) -> Option<Seq<VariableView>>
    decreases tree, 0int,
{
    match tree {
        Tree::And(parts) => interpret_first(vars, parts, parts.len() as int),
        Tree::Compare(name, op, v) => narrow(vars, name, op, v),
    }
}

/// The variables after the first `n` trees of `parts`.
pub open spec fn interpret_first(vars: Seq<VariableView>, parts: Seq<Tree>, n: int) -> Option<
    Seq<VariableView>,
>
    decreases parts, n,
{
    if n <= 0 || n > parts.len() {
        Some(vars)
    } else {
        match interpret_first(vars, parts, n - 1) {
            Some(narrowed) => interpret(narrowed, parts[n - 1]),
            None => None,
        }
    }
}

/// `narrowed` has the variables of `vars`, each with its name and type, and
/// with no value that it did not have in `vars`.
pub open spec fn narrower(narrowed: Seq<VariableView>, vars: Seq<VariableView>) -> bool {
    &&& narrowed.len() == vars.len()
    &&& forall|i: int|
        0 <= i < vars.len() ==> (#[trigger] narrowed[i]).name == vars[i].name && narrowed[i].typ
            == vars[i].typ && narrowed[i].values.subset_of(vars[i].values)
}

/// No two of the variables have one name.
pub open spec fn distinct_names(vars: Seq<VariableView>) -> bool {
    forall|i: int, j: int|
        0 <= i < j < vars.len() ==> (#[trigger] vars[i]).name != (#[trigger] vars[j]).name
}

/// The variables as interpreting `tree` leaves them, whether it succeeds or
/// fails: narrowed by every comparison up to the first that names a
/// variable that is not declared, and by none after it.
pub open spec fn reached(vars: Seq<VariableView>, tree: Tree) -> Seq<VariableView>
    decreases tree, 0int,
{
    match tree {
        Tree::And(parts) => reached_first(vars, parts, parts.len() as int),
        Tree::Compare(name, op, v) => match narrow(vars, name, op, v) {
            Some(narrowed) => narrowed,
            None => vars,
        },
    }
}

/// The variables as interpreting the first `n` trees of `parts` leaves
/// them.
pub open spec fn reached_first(vars: Seq<VariableView>, parts: Seq<Tree>, n: int) -> Seq<
    VariableView,
>
    decreases parts, n,
{
    if n <= 0 || n > parts.len() {
        vars
    } else {
        match interpret_first(vars, parts, n - 1) {
            Some(narrowed) => reached(narrowed, parts[n - 1]),
            None => reached_first(vars, parts, n - 1),
        }
    }
}

/// Where interpreting succeeds, what it leaves is its result.
pub proof fn lemma_reached_result(vars: Seq<VariableView>, tree: Tree)
    requires
        interpret(vars, tree) is Some,
    ensures
        reached(vars, tree) == interpret(vars, tree)->0,
    decreases tree, 0int,
{
    match tree {
        Tree::And(parts) => {
            lemma_reached_first_result(vars, parts, parts.len() as int);
        },
        Tree::Compare(name, op, v) => {},
    }
}

/// Where interpreting the first `n` trees succeeds, what it leaves is its
/// result.
pub proof fn lemma_reached_first_result(vars: Seq<VariableView>, parts: Seq<Tree>, n: int)
    requires
        interpret_first(vars, parts, n) is Some,
    ensures
        reached_first(vars, parts, n) == interpret_first(vars, parts, n)->0,
    decreases parts, n,
{
    if n <= 0 || n > parts.len() {
    } else {
        let before = interpret_first(vars, parts, n - 1)->0;
        lemma_reached_result(before, parts[n - 1]);
    }
}

/// After the first tree that cannot be interpreted nothing changes.
pub proof fn lemma_reached_stops(vars: Seq<VariableView>, parts: Seq<Tree>, n: int, m: int)
    requires
        0 <= n < m <= parts.len(),
        interpret_first(vars, parts, n) is Some,
        interpret(interpret_first(vars, parts, n)->0, parts[n]) is None,
    ensures
        reached_first(vars, parts, m) == reached(interpret_first(vars, parts, n)->0, parts[n]),
    decreases m - n,
{
    if m > n + 1 {
        lemma_reached_stops(vars, parts, n, m - 1);
        lemma_interpret_fails(vars, parts, n + 1, m - 1);
    }
}

/// One more declaration leaves the names distinct.
pub proof fn lemma_declare_distinct(vars: Seq<VariableView>, name: Seq<char>, typ: Type)
    requires
        distinct_names(vars),
    ensures
        distinct_names(declare(vars, name, typ)),
{
    let after = declare(vars, name, typ);
    if declared(vars, name) {
        lemma_first_exists(vars, name);
        let k = first_named(vars, name);
        assert forall|i: int, j: int| 0 <= i < j < after.len() implies (#[trigger] after[i]).name
            != (#[trigger] after[j]).name by {
            assert(after[i].name == vars[i].name);
            assert(after[j].name == vars[j].name);
        }
    } else {
        assert forall|i: int, j: int| 0 <= i < j < after.len() implies (#[trigger] after[i]).name
            != (#[trigger] after[j]).name by {
            assert(after[i] == vars[i]);
            if j < vars.len() {
                assert(after[j] == vars[j]);
            } else {
                assert(after[j].name == name);
                assert(vars[i].name != name);
            }
        }
    }
}

/// The variables that declarations introduce have distinct names.
pub proof fn lemma_declared_distinct(decls: Seq<(Seq<char>, Type)>, n: int)
    ensures
        distinct_names(declare_all(decls, n)),
    decreases n,
{
    if n > 0 {
        lemma_declared_distinct(decls, n - 1);
        lemma_declare_distinct(declare_all(decls, n - 1), decls[n - 1].0, decls[n - 1].1);
    }
}

/// The conditions of a path, as they were read.
#[derive(Debug, PartialEq)]
pub enum Ast {
    And(Vec<Ast>),
    Lt(String, i64),
    Lte(String, i64),
    Gt(String, i64),
    Gte(String, i64),
    Eq(String, i64),
    Neq(String, i64),
}

impl Ast {
    /// The tree that the value stands for.
    pub open spec fn tree(&self) -> Tree
        decreases self,
    {
        match self {
            Ast::And(v) => Tree::And(
                Seq::new(
                    v.len() as nat,
                    |i: int|
                        if 0 <= i < v.len() {
                            v[i].tree()
                        } else {
                            Tree::And(Seq::empty())
                        },
                ),
            ),
            Ast::Lt(name, v) => Tree::Compare(name@, Op::Lt, *v),
            Ast::Lte(name, v) => Tree::Compare(name@, Op::Lte, *v),
            Ast::Gt(name, v) => Tree::Compare(name@, Op::Gt, *v),
            Ast::Gte(name, v) => Tree::Compare(name@, Op::Gte, *v),
            Ast::Eq(name, v) => Tree::Compare(name@, Op::Eq, *v),
            Ast::Neq(name, v) => Tree::Compare(name@, Op::Neq, *v),
        }
    }
}

/// The trees of the values of `parts`.
pub open spec fn trees(parts: Seq<Ast>) -> Seq<Tree> {
    Seq::new(parts.len(), |i: int| parts[i].tree())
}

/// What a path demands.
#[derive(Debug, PartialEq)]
pub enum Condition {
    /// Nothing: every input takes the path.
    True,
    /// Of each declared variable, that its value is among those left to it.
    Conditions(Vec<Variable>),
}

/// What a `Condition` stands for.
pub enum ConditionView {
    True,
    Conditions(Seq<VariableView>),
}

impl View for Condition {
    type V = ConditionView;

    open spec fn view(&self) -> ConditionView {
        match self {
            Condition::True => ConditionView::True,
            Condition::Conditions(vars) => ConditionView::Conditions(views(vars@)),
        }
    }
}

/// A path condition: read, or kept as text where it could not be read.
#[derive(Debug, PartialEq)]
pub enum Expression {
    Parsed(Condition),
    Unparsable(String),
}

/// What an `Expression` stands for.
pub enum ExpressionView {
    Parsed(ConditionView),
    Unparsable(Seq<char>),
}

impl View for Expression {
    type V = ExpressionView;

    open spec fn view(&self) -> ExpressionView {
        match self {
            Expression::Parsed(c) => ExpressionView::Parsed(c@),
            Expression::Unparsable(s) => ExpressionView::Unparsable(s@),
        }
    }
}

/// The pattern of what is taken out of a path condition that could not be
/// read: parentheses with nothing but letters and digits between them, as a
/// cast leaves them.
pub const CAST_PATTERN: &'static str = "\\([a-zA-Z0-9]*\\)";

/// What a path condition is read as: what it demands, where its bytes are a
/// declaration of the grammar; else the text without its casts, or the
/// whole text where nothing was taken out.
pub open spec fn read(text: Seq<char>, stripped: Option<Seq<char>>) -> ExpressionView {
    match path_condition(vstd::utf8::encode_utf8(text)) {
        Some(c) => ExpressionView::Parsed(c),
        None => ExpressionView::Unparsable(
            match stripped {
                Some(rest) => rest,
                None => text,
            },
        ),
    }
}

/// The text is a declaration of the grammar that compares a variable that
/// it does not declare.
pub open spec fn unresolved(text: Seq<char>) -> bool {
    reading(vstd::utf8::encode_utf8(text)) is Unresolved
}

impl Expression {
    /// Reads the condition of a path of a report. A declaration that
    /// compares a variable that it does not declare gives nothing: such a
    /// path is left out of the report. Any other text is read as by
    /// `from_str`.
    pub fn from_path(s: &str) -> (r: Option<Expression>)
        ensures
            match r {
                Some(e) => !unresolved(s@) && e@ == read(
                    s@,
                    regex_replace_all(CAST_PATTERN@, s@, ""@),
                ),
                None => unresolved(s@),
            },
    {
        match read_declaration(s.as_bytes()) {
            Reading::Read(c) => Some(Expression::Parsed(c)),
            Reading::Unresolved => None,
            Reading::NoDeclaration => Some(
                Expression::unparsable(s, replace_all(CAST_PATTERN, s, "")),
            ),
        }
    }

    /// Reads a path condition. A text that is no declaration of the grammar
    /// is kept, without its casts; so is a declaration that compares a
    /// variable that it does not declare.
    pub fn from_str(s: &str) -> (e: Expression)
        ensures
            e@ == read(s@, regex_replace_all(CAST_PATTERN@, s@, ""@)),
    {
        match parse_declaration(s.as_bytes()) {
            Some(c) => Expression::Parsed(c),
            None => Expression::unparsable(s, replace_all(CAST_PATTERN, s, "")),
        }
    }

    /// The expression for a text that could not be read: `stripped`, the
    /// text without its casts, or the whole text where there is none.
    pub fn unparsable(text: &str, stripped: Option<String>) -> (e: Expression)
        ensures
            e@ == ExpressionView::Unparsable(
                match stripped {
                    Some(rest) => rest@,
                    None => text@,
                },
            ),
    {
        match stripped {
            Some(rest) => Expression::Unparsable(rest),
            None => Expression::Unparsable(text.to_owned()),
        }
    }
}

/// The comparison of the variable `name` with `val`.
pub fn make_comparison(name: String, op: Op, val: i64) -> (ast: Ast)
    ensures
        ast.tree() == Tree::Compare(name@, op, val),
{
    match op {
        Op::Eq => Ast::Eq(name, val),
        Op::Neq => Ast::Neq(name, val),
        Op::Lt => Ast::Lt(name, val),
        Op::Lte => Ast::Lte(name, val),
        Op::Gt => Ast::Gt(name, val),
        Op::Gte => Ast::Gte(name, val),
    }
}

/// The place of the first variable of that name, if there is one.
pub fn find_variable(vars: &Vec<Variable>, name: &String) -> (r: Option<usize>)
    ensures
        match r {
            Some(i) => is_first_named(views(vars@), name@, i as int),
            None => !declared(views(vars@), name@),
        },
{
    let mut k: usize = 0;
    while k < vars.len()
        invariant
            k <= vars.len(),
            forall|j: int| 0 <= j < k ==> (#[trigger] views(vars@)[j]).name != name@,
        decreases vars.len() - k,
    {
        if vars[k].name == *name {
            assert(views(vars@)[k as int].name == name@);
            return Some(k);
        }
        k += 1;
    }
    None
}

/// The variables that the declarations introduce, each with every value of
/// its type. Where a name is declared twice the later declaration counts.
pub fn variable_map(var_decls: Vec<(String, Type)>) -> (vars: Vec<Variable>)
    ensures
        views(vars@) == declare_all(decl_views(var_decls@), var_decls.len() as int),
        distinct_names(views(vars@)),
{
    proof {
        lemma_declared_distinct(decl_views(var_decls@), var_decls.len() as int);
    }
    let mut vars: Vec<Variable> = Vec::new();
    let mut k: usize = 0;
    assert(views(vars@) =~= declare_all(decl_views(var_decls@), 0));
    while k < var_decls.len()
        invariant
            k <= var_decls.len(),
            views(vars@) == declare_all(decl_views(var_decls@), k as int),
        decreases var_decls.len() - k,
    {
        let name_string = var_decls[k].0.clone();
        let typ = var_decls[k].1;
        let ghost before = views(vars@);
        let variable = Variable { name: name_string.clone(), typ: typ, range: typ.range() };
        assert(variable@ == fresh(name_string@, typ));
        assert(decl_views(var_decls@)[k as int] == (name_string@, typ));
        match find_variable(&vars, &name_string) {
            Some(i) => {
                proof {
                    lemma_first_named(before, name_string@, i as int);
                }
                vars[i] = variable;
                assert(views(vars@) =~= before.update(i as int, fresh(name_string@, typ)));
            },
            None => {
                vars.push(variable);
                assert(views(vars@) =~= before.push(fresh(name_string@, typ)));
            },
        }
        k += 1;
    }
    vars
}

/// The declarations as names and types.
pub open spec fn decl_views(decls: Seq<(String, Type)>) -> Seq<(Seq<char>, Type)> {
    Seq::new(decls.len(), |i: int| (decls[i].0@, decls[i].1))
}

/// The 64-bit integers that `op val` permits.
pub fn permitted_range(op: Op, val: i64) -> (r: Range)
    ensures
        r.wf(),
        r@ == permitted(op, val as int).intersect(span(i64::MIN as int, i64::MAX as int)),
{
    let below = if val == i64::MIN {
        Range::from(0, -1)
    } else {
        Range::from(i64::MIN, val - 1)
    };
    let above = if val == i64::MAX {
        Range::from(0, -1)
    } else {
        Range::from(val + 1, i64::MAX)
    };
    let r = match op {
        Op::Lt => below,
        Op::Lte => Range::from(i64::MIN, val),
        Op::Gt => above,
        Op::Gte => Range::from(val, i64::MAX),
        Op::Eq => Range::from(val, val),
        Op::Neq => below.union(&above),
    };
    assert(r@ =~= permitted(op, val as int).intersect(span(i64::MIN as int, i64::MAX as int)));
    r
}

/// Every value of a range is a 64-bit integer.
pub proof fn lemma_values_in_i64(r: Range)
    ensures
        r@.subset_of(span(i64::MIN as int, i64::MAX as int)),
{
    assert forall|x: int| r@.contains(x) implies span(i64::MIN as int, i64::MAX as int).contains(
        x,
    ) by {
        let s = r.intervals();
        assert(crate::range::holds(s, x));
        let k = choose|k: int| 0 <= k < s.len() && #[trigger] crate::range::within(s[k], x);
    }
}

/// Narrows the variables by every comparison of `ast`, from left to right.
/// Fails at the first comparison that names a variable that is not
/// declared, and leaves the variables as the comparisons before it made
/// them. Succeeding or failing, it keeps every variable with its name and
/// type and gives no variable a value that it did not have.
pub fn interprete(vars: &mut Vec<Variable>, ast: &Ast) -> (r: Option<()>)
    ensures
        r is Some <==> interpret(views(old(vars)@), ast.tree()) is Some,
        interpret(views(old(vars)@), ast.tree()) matches Some(narrowed) ==> views(final(vars)@)
            == narrowed,
        views(final(vars)@) == reached(views(old(vars)@), ast.tree()),
        narrower(views(final(vars)@), views(old(vars)@)),
    decreases ast,
{
    proof {
        law_reached_only_narrows(views(vars@), ast.tree());
        if interpret(views(vars@), ast.tree()) is Some {
            lemma_reached_result(views(vars@), ast.tree());
        }
    }
    match ast {
        Ast::And(v) => {
            let ghost start = views(vars@);
            let ghost parts = ast.tree()->And_0;
            let mut k: usize = 0;
            while k < v.len()
                invariant
                    k <= v.len(),
                    parts.len() == v.len(),
                    ast.tree() == Tree::And(parts),
                    start == views(old(vars)@),
                    narrower(reached(start, ast.tree()), start),
                    forall|i: int| 0 <= i < v.len() ==> parts[i] == (#[trigger] v[i]).tree(),
                    forall|i: int| 0 <= i < v.len() ==> decreases_to!(ast => v[i]),
                    interpret_first(start, parts, k as int) == Some(views(vars@)),
                decreases v.len() - k,
            {
                let ghost now = views(vars@);
                match interprete(vars, &v[k]) {
                    Some(()) => {},
                    None => {
                        proof {
                            assert(parts[k as int] == v[k as int].tree());
                            assert(interpret(now, parts[k as int]) is None);
                            assert(interpret_first(start, parts, k as int) == Some(now));
                            assert(interpret_first(start, parts, k as int + 1) is None);
                            lemma_interpret_fails(start, parts, k as int + 1, v.len() as int);
                            lemma_reached_stops(start, parts, k as int, v.len() as int);
                        }
                        return None;
                    },
                }
                k += 1;
            }
            proof {
                lemma_reached_first_result(start, parts, v.len() as int);
            }
            Some(())
        },
        Ast::Lt(name, val) => narrow_variable(vars, name, Op::Lt, *val),
        Ast::Lte(name, val) => narrow_variable(vars, name, Op::Lte, *val),
        Ast::Gt(name, val) => narrow_variable(vars, name, Op::Gt, *val),
        Ast::Gte(name, val) => narrow_variable(vars, name, Op::Gte, *val),
        Ast::Eq(name, val) => narrow_variable(vars, name, Op::Eq, *val),
        Ast::Neq(name, val) => narrow_variable(vars, name, Op::Neq, *val),
    }
}

/// Once a tree cannot be interpreted, no longer run of trees can.
pub proof fn lemma_interpret_fails(vars: Seq<VariableView>, parts: Seq<Tree>, n: int, m: int)
    requires
        0 <= n <= m <= parts.len(),
        interpret_first(vars, parts, n) is None,
    ensures
        interpret_first(vars, parts, m) is None,
    decreases m - n,
{
    if n < m {
        lemma_interpret_fails(vars, parts, n, m - 1);
    }
}

/// Narrows the variable `name` by the comparison `op val`. Fails if no
/// variable has that name, and then changes nothing.
pub fn narrow_variable(vars: &mut Vec<Variable>, name: &String, op: Op, val: i64) -> (r: Option<
    (),
>)
    ensures
        match narrow(views(old(vars)@), name@, op, val) {
            Some(narrowed) => r is Some && views(final(vars)@) == narrowed,
            None => r is None && final(vars)@ == old(vars)@,
        },
{
    let ghost before = views(vars@);
    match find_variable(vars, name) {
        Some(i) => {
            let narrowed = vars[i].range.intersect(&permitted_range(op, val));
            proof {
                lemma_first_named(before, name@, i as int);
                lemma_values_in_i64(vars[i as int].range);
                assert(narrowed@ =~= before[i as int].values.intersect(permitted(op, val as int)));
            }
            vars[i].range = narrowed;
            assert(views(vars@) =~= narrow(before, name@, op, val)->0);
            Some(())
        },
        None => None,
    }
}

} // verus!
