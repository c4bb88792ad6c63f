//! Path conditions: how they are read, and how the conditions of all paths
//! of a method become one precondition.

use vstd::prelude::*;
use vstd::string::*;
use crate::jpf::expression::{
    declared,
    find_variable,
    first_named,
    lemma_first_named,
    read,
    unresolved,
    views,
    Condition,
    ConditionView,
    Expression,
    ExpressionView,
    Variable,
    VariableView,
    CAST_PATTERN,
};
use crate::pattern::{captures_all, regex_replace_all};
use crate::range::{lemma_normal_form, normal_form};
use crate::text::{decimal, join, joined, push_decimal, split, split_at_char, texts};
use crate::{method_matches, names, signature, signature_text, Config, JavaArgParseError, METHOD_PATTERN};

pub mod expression;
pub mod grammar;
pub mod grammar_laws;
pub mod laws;

verus! {

/// The values left to a variable are none: no input takes the path.
#[derive(Debug, PartialEq)]
pub struct NoValidValue {
    description: String,
}

impl View for NoValidValue {
    type V = Seq<char>;

    /// What the error says.
    closed spec fn view(&self) -> Seq<char> {
        self.description@
    }
}

/// What the error says of the variable `name`.
pub open spec fn no_valid_value(name: Seq<char>) -> Seq<char> {
    "No valid value for '"@ + name + "'"@
}

impl NoValidValue {
    /// The error for the variable `name`.
    pub fn for_variable(name: &str) -> (e: NoValidValue)
        ensures
            e@ == no_valid_value(name@),
    {
        let mut description = String::new();
        description.append("No valid value for '");
        description.append(name);
        description.append("'");
        assert(description@ =~= no_valid_value(name@));
        NoValidValue { description }
    }

    /// What the error says.
    pub fn description(&self) -> (r: &String)
        ensures
            r@ == self@,
    {
        &self.description
    }
}

/// The bounds that are written for one interval: each is left out where
/// the type sets it anyway.
pub struct Bounds {
    pub lower: Option<i64>,
    pub upper: Option<i64>,
}

/// The bounds that are written for the interval `p` of a variable whose
/// type goes from `lower` to `upper`: its lower bound if that is above
/// `lower`, its upper bound if that is below `upper`.
pub open spec fn bounds_of(p: (i64, i64), lower: i64, upper: i64) -> Bounds {
    Bounds {
        lower: if p.0 > lower {
            Some(p.0)
        } else {
            None
        },
        upper: if p.1 < upper {
            Some(p.1)
        } else {
            None
        },
    }
}

/// `v` is within the bounds that are written.
pub open spec fn within_bounds(b: Bounds, v: int) -> bool {
    &&& b.lower matches Some(l) ==> l <= v
    &&& b.upper matches Some(u) ==> v <= u
}

/// Bounds as a condition on the variable `name`, in parentheses, with
/// ` && ` between the two.
pub open spec fn bounds_text(name: Seq<char>, b: Bounds) -> Seq<char> {
    "("@ + (match b.lower {
        Some(l) => "'"@ + name + "' >= "@ + decimal(l as int),
        None => Seq::empty(),
    }) + (if b.lower is Some && b.upper is Some {
        " && "@
    } else {
        Seq::empty()
    }) + (match b.upper {
        Some(u) => "'"@ + name + "' <= "@ + decimal(u as int),
        None => Seq::empty(),
    }) + ")"@
}

/// One interval as a condition on the variable `name`, in parentheses: its
/// lower bound if that is above `lower`, its upper bound if that is below
/// `upper`, and ` && ` between the two.
pub open spec fn interval_text(name: Seq<char>, p: (i64, i64), lower: i64, upper: i64) -> Seq<
    char,
> {
    bounds_text(name, bounds_of(p, lower, upper))
}

/// The intervals are the one interval of the whole type.
pub open spec fn is_whole_type(ranges: Seq<(i64, i64)>, lower: i64, upper: i64) -> bool {
    ranges.len() == 1 && ranges[0] == (lower, upper)
}

/// `v` meets the condition that is written for `ranges`: nothing is
/// written for the whole type, which every value meets; else `v` is within
/// the bounds written for one of the intervals.
pub open spec fn meets(ranges: Seq<(i64, i64)>, lower: i64, upper: i64, v: int) -> bool {
    is_whole_type(ranges, lower, upper) || exists|i: int|
        0 <= i < ranges.len() && within_bounds(#[trigger] bounds_of(ranges[i], lower, upper), v)
}

/// Each interval of `ranges` as a condition on the variable `name`.
pub open spec fn interval_texts(
    name: Seq<char>,
    ranges: Seq<(i64, i64)>,
    lower: i64,
    upper: i64,
) -> Seq<Seq<char>> {
    Seq::new(ranges.len(), |i: int| interval_text(name, ranges[i], lower, upper))
}

/// A text, or what an error says.
pub type Rendered = Result<Seq<char>, Seq<char>>;

/// The intervals `ranges` as a condition on the variable `name`, whose type
/// goes from `lower` to `upper`: an error if there is no interval, nothing
/// if the one interval is the whole type, else the conditions of the
/// intervals with ` || ` between them.
pub open spec fn ranges_text(ranges: Seq<(i64, i64)>, name: Seq<char>, lower: i64, upper: i64) -> Rendered {
    if ranges.len() == 0 {
        Err(no_valid_value(name))
    } else if is_whole_type(ranges, lower, upper) {
        Ok(Seq::empty())
    } else {
        Ok(joined(interval_texts(name, ranges, lower, upper), " || "@))
    }
}

/// The values left to a variable as a condition on it.
pub open spec fn variable_text(v: VariableView) -> Rendered {
    ranges_text(normal_form(v.values), v.name, v.typ.lower() as i64, v.typ.upper() as i64)
}

/// The texts among the first `n` of `results` that are not empty, or the
/// first error among them.
pub open spec fn gather(results: Seq<Rendered>, n: int) -> Result<Seq<Seq<char>>, Seq<char>>
    decreases n,
{
    if n <= 0 {
        Ok(Seq::empty())
    } else {
        match gather(results, n - 1) {
            Err(e) => Err(e),
            Ok(parts) => match results[n - 1] {
                Err(e) => Err(e),
                Ok(t) => Ok(
                    if t.len() == 0 {
                        parts
                    } else {
                        parts.push(t)
                    },
                ),
            },
        }
    }
}

/// The conditions on the variables of `vars`.
pub open spec fn variable_texts(vars: Seq<VariableView>) -> Seq<Rendered> {
    Seq::new(vars.len(), |i: int| variable_text(vars[i]))
}

/// The variables of one path as one condition: the conditions on the
/// variables that are not empty, with ` && ` between them, or the first
/// error.
pub open spec fn group_text(vars: Seq<VariableView>) -> Rendered {
    match gather(variable_texts(vars), vars.len() as int) {
        Err(e) => Err(e),
        Ok(parts) => Ok(joined(parts, " && "@)),
    }
}

/// The texts of the paths among the first `n` that could not be read.
pub open spec fn unparsables(paths: Seq<ExpressionView>, n: int) -> Seq<Seq<char>>
    decreases n,
{
    if n <= 0 {
        Seq::empty()
    } else {
        match paths[n - 1] {
            ExpressionView::Unparsable(text) => unparsables(paths, n - 1).push(text),
            _ => unparsables(paths, n - 1),
        }
    }
}

/// The variable of a path that has exactly one.
pub open spec fn single(path: ExpressionView) -> Option<VariableView> {
    match path {
        ExpressionView::Parsed(ConditionView::Conditions(vars)) => if vars.len() == 1 {
            Some(vars[0])
        } else {
            None
        },
        _ => None,
    }
}

/// The variables of a path that has none or more than one.
pub open spec fn several(path: ExpressionView) -> Option<Seq<VariableView>> {
    match path {
        ExpressionView::Parsed(ConditionView::Conditions(vars)) => if vars.len() != 1 {
            Some(vars)
        } else {
            None
        },
        _ => None,
    }
}

/// The variables `found` and one more `v`: a variable of that name gets the
/// values of `v` too, and keeps its place and its type; a new name goes to
/// the end.
pub open spec fn merge(found: Seq<VariableView>, v: VariableView) -> Seq<VariableView> {
    if declared(found, v.name) {
        let i = first_named(found, v.name);
        found.update(
            i,
            VariableView {
                name: found[i].name,
                typ: found[i].typ,
                values: found[i].values.union(v.values),
            },
        )
    } else {
        found.push(v)
    }
}

/// The variables of those among the first `n` paths that have exactly one
/// variable: one for each name, in the order in which the names come up,
/// with the values that any of those paths leaves to it.
pub open spec fn singles(paths: Seq<ExpressionView>, n: int) -> Seq<VariableView>
    decreases n,
{
    if n <= 0 {
        Seq::empty()
    } else {
        match single(paths[n - 1]) {
            Some(v) => merge(singles(paths, n - 1), v),
            None => singles(paths, n - 1),
        }
    }
}

/// The variables of each of the first `n` paths that has none or more than
/// one variable.
pub open spec fn groups(paths: Seq<ExpressionView>, n: int) -> Seq<Seq<VariableView>>
    decreases n,
{
    if n <= 0 {
        Seq::empty()
    } else {
        match several(paths[n - 1]) {
            Some(vars) => groups(paths, n - 1).push(vars),
            None => groups(paths, n - 1),
        }
    }
}

/// The conditions of the groups.
pub open spec fn group_texts(all: Seq<Seq<VariableView>>) -> Seq<Rendered> {
    Seq::new(all.len(), |i: int| group_text(all[i]))
}

/// A path among the first `n` demands nothing.
pub open spec fn any_true(paths: Seq<ExpressionView>, n: int) -> bool {
    exists|i: int|
        0 <= i < n && i < paths.len() && #[trigger] paths[i] == ExpressionView::Parsed(
            ConditionView::True,
        )
}

/// The fragments as one condition: `True` if there is none, the fragment if
/// there is one, else each in parentheses with ` || ` between them.
pub open spec fn disjunction(fragments: Seq<Seq<char>>) -> Seq<char> {
    if fragments.len() == 0 {
        "True"@
    } else if fragments.len() == 1 {
        fragments[0]
    } else {
        "("@ + joined(fragments, ") || ("@) + ")"@
    }
}

/// The precondition that the paths of a method give.
///
/// Without a path it is `True` if the method has a path that ends in an
/// error, else `No satisfiable value`. With a path that demands nothing it
/// is `True`. Else its fragments are the condition on each variable of the
/// paths with one variable, then the condition of each other path, then the
/// texts of the paths that could not be read; a condition that is empty is
/// no fragment, and the first variable without a value is an error.
pub open spec fn reduce_text(paths: Seq<ExpressionView>, has_error_paths: bool) -> Rendered {
    let n = paths.len() as int;
    if n == 0 {
        Ok(
            if has_error_paths {
                "True"@
            } else {
                "No satisfiable value"@
            },
        )
    } else if any_true(paths, n) {
        Ok("True"@)
    } else {
        let results = variable_texts(singles(paths, n)) + group_texts(groups(paths, n));
        match gather(results, results.len() as int) {
            Err(e) => Err(e),
            Ok(parts) => Ok(disjunction(parts + unparsables(paths, n))),
        }
    }
}

/// What was returned is what was specified: the text, or the error.
pub open spec fn renders(r: Result<String, NoValidValue>, expected: Rendered) -> bool {
    match expected {
        Ok(t) => r matches Ok(s) && s@ == t,
        Err(m) => r matches Err(e) && e@ == m,
    }
}

/// The intervals `ranges` as a condition on the variable `name`, whose type
/// goes from `lower` to `upper`.
pub fn ranges_to_string(ranges: &[(i64, i64)], name: &str, lower: i64, upper: i64) -> (r: Result<
    String,
    NoValidValue,
>)
    ensures
        renders(r, ranges_text(ranges@, name@, lower, upper)),
{
    if ranges.len() == 0 {
        return Err(NoValidValue::for_variable(name));
    }
    if ranges.len() == 1 && ranges[0].0 == lower && ranges[0].1 == upper {
        return Ok(String::new());
    }
    let ghost expected = interval_texts(name@, ranges@, lower, upper);
    let mut conditions: Vec<String> = Vec::new();
    let mut k: usize = 0;
    assert(texts(conditions@) =~= expected.take(0));
    while k < ranges.len()
        invariant
            k <= ranges@.len(),
            expected == interval_texts(name@, ranges@, lower, upper),
            texts(conditions@) == expected.take(k as int),
        decreases ranges.len() - k,
    {
        let l = ranges[k].0;
        let u = ranges[k].1;
        let mut s = String::new();
        s.append("(");
        if l > lower {
            s.append("'");
            s.append(name);
            s.append("' >= ");
            push_decimal(&mut s, l);
            if u < upper {
                s.append(" && ");
            }
        }
        if u < upper {
            s.append("'");
            s.append(name);
            s.append("' <= ");
            push_decimal(&mut s, u);
        }
        s.append(")");
        assert(s@ =~= interval_text(name@, ranges@[k as int], lower, upper));
        let ghost before = texts(conditions@);
        conditions.push(s);
        k += 1;
        assert(texts(conditions@) =~= before.push(expected[k - 1]));
        assert(texts(conditions@) =~= expected.take(k as int));
    }
    assert(expected.take(k as int) =~= expected);
    Ok(join(&conditions, " || "))
}

/// The values left to a variable as a condition on it.
pub fn variable_to_string(var: &Variable) -> (r: Result<String, NoValidValue>)
    ensures
        renders(r, variable_text(var@)),
{
    let bounds = var.typ.bounds();
    let ranges = var.range.get_ranges();
    proof {
        lemma_normal_form(ranges@);
    }
    ranges_to_string(ranges.as_slice(), var.name.as_str(), bounds.0, bounds.1)
}

/// Adds to `parts` the text that `rendered` holds, unless it is empty.
/// Fails with the error that `rendered` holds.
pub fn collect(parts: &mut Vec<String>, rendered: Result<String, NoValidValue>) -> (r: Result<
    (),
    NoValidValue,
>)
    ensures
        match rendered {
            Ok(s) => r is Ok && texts(final(parts)@) == if s@.len() == 0 {
                texts(old(parts)@)
            } else {
                texts(old(parts)@).push(s@)
            },
            Err(e) => r matches Err(f) && f@ == e@,
        },
{
    let ghost before = texts(parts@);
    match rendered {
        Ok(s) => {
            if !s.as_str().is_empty() {
                parts.push(s);
                assert(texts(parts@) =~= before.push(s@));
            }
            Ok(())
        },
        Err(e) => Err(e),
    }
}

/// The variables of one path as one condition: the conditions on its
/// variables with ` && ` between them.
pub fn variable_conditions_to_string(m: &Vec<Variable>) -> (r: Result<String, NoValidValue>)
    ensures
        renders(r, group_text(views(m@))),
{
    let ghost results = variable_texts(views(m@));
    let mut parts: Vec<String> = Vec::new();
    let mut k: usize = 0;
    assert(texts(parts@) =~= Seq::<Seq<char>>::empty());
    while k < m.len()
        invariant
            k <= m.len(),
            results == variable_texts(views(m@)),
            gather(results, k as int) == Ok::<Seq<Seq<char>>, Seq<char>>(texts(parts@)),
        decreases m.len() - k,
    {
        assert(results[k as int] == variable_text(m[k as int]@));
        match collect(&mut parts, variable_to_string(&m[k])) {
            Ok(()) => {},
            Err(e) => {
                proof {
                    lemma_gather_fails(results, k as int + 1, m.len() as int);
                }
                return Err(e);
            },
        }
        k += 1;
    }
    Ok(join(&parts, " && "))
}

/// Once the texts cannot be gathered, no longer run of them can, and the
/// error stays the same.
pub proof fn lemma_gather_fails(results: Seq<Rendered>, n: int, m: int)
    requires
        0 <= n <= m,
        gather(results, n) is Err,
    ensures
        gather(results, m) == gather(results, n),
    decreases m - n,
{
    if n < m {
        lemma_gather_fails(results, n, m - 1);
    }
}

/// The fragments as one condition.
pub fn disjunction_to_string(fragments: &Vec<String>) -> (r: String)
    ensures
        r@ == disjunction(texts(fragments@)),
{
    if fragments.len() == 0 {
        return "True".to_owned();
    }
    if fragments.len() == 1 {
        return fragments[0].clone();
    }
    let mut r = String::new();
    r.append("(");
    r.append(join(fragments, ") || (").as_str());
    r.append(")");
    r
}

/// The views of the groups.
pub open spec fn group_views(all: Seq<Vec<Variable>>) -> Seq<Seq<VariableView>> {
    Seq::new(all.len(), |i: int| views(all[i]@))
}

/// The views of the paths.
pub open spec fn path_views(paths: Seq<Expression>) -> Seq<ExpressionView> {
    Seq::new(paths.len(), |i: int| paths[i]@)
}

/// A copy of the variables.
pub fn copy_variables(vars: &Vec<Variable>) -> (r: Vec<Variable>)
    ensures
        views(r@) == views(vars@),
{
    let mut r: Vec<Variable> = Vec::new();
    let mut k: usize = 0;
    while k < vars.len()
        invariant
            k <= vars.len(),
            views(r@) == views(vars@).take(k as int),
        decreases vars.len() - k,
    {
        let ghost before = views(r@);
        let copy = vars[k].clone();
        r.push(copy);
        k += 1;
        assert(views(r@) =~= before.push(copy@));
        assert(views(vars@).take(k as int) =~= views(vars@).take(k - 1).push(vars[k - 1]@));
    }
    assert(views(vars@).take(k as int) =~= views(vars@));
    r
}

/// Adds the variable of a path to those of the paths before it.
pub fn merge_variable(found: &mut Vec<Variable>, var: &Variable)
    ensures
        views(final(found)@) == merge(views(old(found)@), var@),
{
    let ghost before = views(found@);
    match find_variable(found, &var.name) {
        Some(i) => {
            let joint = found[i].range.union(&var.range);
            proof {
                lemma_first_named(before, var@.name, i as int);
            }
            found[i].range = joint;
            assert(views(found@) =~= merge(before, var@));
        },
        None => {
            found.push(var.clone());
            assert(views(found@) =~= merge(before, var@));
        },
    }
}

/// The conditions on the variables of `one` and then the conditions of the
/// groups of `many`, as far as they are not empty; or the first error.
pub fn render_all(one: &Vec<Variable>, many: &Vec<Vec<Variable>>) -> (r: Result<
    Vec<String>,
    NoValidValue,
>)
    ensures
        match gather(
            variable_texts(views(one@)) + group_texts(group_views(many@)),
            one.len() + many.len(),
        ) {
            Ok(parts) => r matches Ok(v) && texts(v@) == parts,
            Err(e) => r matches Err(f) && f@ == e,
        },
{
    let ghost results = variable_texts(views(one@)) + group_texts(group_views(many@));
    let mut parts: Vec<String> = Vec::new();
    let mut i: usize = 0;
    assert(texts(parts@) =~= Seq::<Seq<char>>::empty());
    while i < one.len()
        invariant
            i <= one.len(),
            results == variable_texts(views(one@)) + group_texts(group_views(many@)),
            results.len() == one.len() + many.len(),
            forall|k: int| 0 <= k < one.len() ==> #[trigger] results[k] == variable_text(one[k]@),
            gather(results, i as int) == Ok::<Seq<Seq<char>>, Seq<char>>(texts(parts@)),
        decreases one.len() - i,
    {
        assert(results[i as int] == variable_text(one[i as int]@));
        match collect(&mut parts, variable_to_string(&one[i])) {
            Ok(()) => {},
            Err(e) => {
                proof {
                    lemma_gather_fails(results, i as int + 1, results.len() as int);
                }
                return Err(e);
            },
        }
        i += 1;
    }
    let mut j: usize = 0;
    while j < many.len()
        invariant
            j <= many.len(),
            i == one.len(),
            results == variable_texts(views(one@)) + group_texts(group_views(many@)),
            results.len() == one.len() + many.len(),
            forall|k: int|
                0 <= k < many.len() ==> #[trigger] results[one.len() + k] == group_text(
                    views(many[k]@),
                ),
            gather(results, one.len() + j) == Ok::<Seq<Seq<char>>, Seq<char>>(texts(parts@)),
        decreases many.len() - j,
    {
        assert(results[one.len() + j] == group_text(views(many[j as int]@)));
        match collect(&mut parts, variable_conditions_to_string(&many[j])) {
            Ok(()) => {},
            Err(e) => {
                proof {
                    lemma_gather_fails(results, one.len() + j + 1, results.len() as int);
                }
                return Err(e);
            },
        }
        j += 1;
    }
    Ok(parts)
}

/// The precondition that the paths of a method give: see `reduce_text`.
pub fn reduce(paths: &Vec<Expression>, has_error_paths: bool) -> (r: Result<String, NoValidValue>)
    ensures
        renders(r, reduce_text(path_views(paths@), has_error_paths)),
{
    let ghost all = path_views(paths@);
    if paths.len() == 0 {
        return Ok(
            if has_error_paths {
                "True".to_owned()
            } else {
                "No satisfiable value".to_owned()
            },
        );
    }
    let mut fragments: Vec<String> = Vec::new();
    let mut one: Vec<Variable> = Vec::new();
    let mut many: Vec<Vec<Variable>> = Vec::new();
    let mut k: usize = 0;
    proof {
        assert(texts(fragments@) =~= unparsables(all, 0));
        assert(views(one@) =~= singles(all, 0));
        assert(group_views(many@) =~= groups(all, 0));
    }
    while k < paths.len()
        invariant
            k <= paths.len(),
            all == path_views(paths@),
            !any_true(all, k as int),
            texts(fragments@) == unparsables(all, k as int),
            views(one@) == singles(all, k as int),
            group_views(many@) == groups(all, k as int),
        decreases paths.len() - k,
    {
        let ghost path = all[k as int];
        assert(path == paths[k as int]@);
        match &paths[k] {
            Expression::Unparsable(s) => {
                let ghost before = texts(fragments@);
                fragments.push(s.clone());
                assert(texts(fragments@) =~= before.push(s@));
            },
            Expression::Parsed(Condition::True) => {
                assert(all[k as int] == ExpressionView::Parsed(ConditionView::True));
                assert(any_true(all, all.len() as int));
                return Ok("True".to_owned());
            },
            Expression::Parsed(Condition::Conditions(m)) => {
                if m.len() == 1 {
                    assert(single(path) == Some(m[0]@));
                    merge_variable(&mut one, &m[0]);
                } else {
                    assert(several(path) == Some(views(m@)));
                    let ghost before = group_views(many@);
                    many.push(copy_variables(m));
                    assert(group_views(many@) =~= before.push(views(m@)));
                }
            },
        }
        k += 1;
        assert(!any_true(all, k as int)) by {
            if any_true(all, k as int) {
                let i = choose|i: int|
                    0 <= i < k && i < all.len() && #[trigger] all[i] == ExpressionView::Parsed(
                        ConditionView::True,
                    );
                if i < k - 1 {
                    assert(any_true(all, k - 1));
                }
            }
        }
    }
    let ghost unread = texts(fragments@);
    match render_all(&one, &many) {
        Err(e) => Err(e),
        Ok(parts) => {
            let ghost gathered = texts(parts@);
            let mut all = parts;
            let mut p: usize = 0;
            assert(texts(all@) =~= gathered + unread.take(0));
            while p < fragments.len()
                invariant
                    p <= fragments.len(),
                    unread == texts(fragments@),
                    texts(all@) == gathered + unread.take(p as int),
                decreases fragments.len() - p,
            {
                let ghost before = texts(all@);
                all.push(fragments[p].clone());
                p += 1;
                assert(texts(all@) =~= before.push(unread[p - 1]));
                assert(texts(all@) =~= gathered + unread.take(p as int));
            }
            assert(unread.take(p as int) =~= unread);
            Ok(disjunction_to_string(&all))
        },
    }
}

/// What the first `n` path conditions are read as: see `read`. A
/// declaration that compares a variable that it does not declare is left
/// out.
pub open spec fn read_all(ok_paths: Seq<String>, n: int) -> Seq<ExpressionView>
    decreases n,
{
    if n <= 0 {
        Seq::empty()
    } else if unresolved(ok_paths[n - 1]@) {
        read_all(ok_paths, n - 1)
    } else {
        read_all(ok_paths, n - 1).push(
            read(ok_paths[n - 1]@, regex_replace_all(CAST_PATTERN@, ok_paths[n - 1]@, ""@)),
        )
    }
}

/// The precondition that the path conditions of a method give.
///
/// A path whose condition compares a variable that it does not declare is
/// dropped: it adds no fragment and no error, and the other paths are
/// reduced as if it were not there. Where there are paths and every one of
/// them is dropped, there are paths and no fragment, and the precondition
/// is `True`. In every other case it is what `reduce_text` gives for the
/// paths that are left.
pub open spec fn output_text(ok_paths: Seq<String>, has_error_paths: bool) -> Rendered {
    let kept = read_all(ok_paths, ok_paths.len() as int);
    if ok_paths.len() > 0 && kept.len() == 0 {
        Ok("True"@)
    } else {
        reduce_text(kept, has_error_paths)
    }
}

/// The precondition of a method, from the path conditions of its paths that
/// end well and from whether it has a path that ends in an error: see
/// `output_text`.
pub fn process_output(ok_paths: &Vec<String>, has_error_paths: bool) -> (r: Result<
    String,
    NoValidValue,
>)
    ensures
        renders(r, output_text(ok_paths@, has_error_paths)),
{
    let mut paths: Vec<Expression> = Vec::new();
    let mut k: usize = 0;
    assert(path_views(paths@) =~= read_all(ok_paths@, 0));
    while k < ok_paths.len()
        invariant
            k <= ok_paths.len(),
            path_views(paths@) == read_all(ok_paths@, k as int),
        decreases ok_paths.len() - k,
    {
        let ghost before = path_views(paths@);
        match Expression::from_path(ok_paths[k].as_str()) {
            Some(path) => {
                paths.push(path);
                assert(path_views(paths@) =~= before.push(path@));
            },
            None => {},
        }
        k += 1;
    }
    if ok_paths.len() > 0 && paths.len() == 0 {
        return Ok("True".to_owned());
    }
    reduce(&paths, has_error_paths)
}

/// The settings of the symbolic execution, with a name in double braces
/// wherever a value is filled in.
pub const SPF_TEMPLATE: &'static str = "
shell=gov.nasa.jpf.jdart.summaries.MethodSummarizer
report.console.start=
report.console.finished=
report.console.property_violation=
symbolic.dp=z3
symbolic.dp.z3.bitvectors=true
target={{package}}.{{class}}
classpath={{classpath}}
jdart.summarystore={{output_path}}
summary.methods={{method_name}}
concolic.method.{{method_name}}={{method_signature}}
concolic.method.{{method_name}}.config={{method_name}}
jdart.configs.{{method_name}}.symbolic.statics={{package}}.{{class}}
jdart.configs.{{method_name}}.symbolic.include=this.*;{{package}}.{{class}}.*
";

/// A path that is no text.
#[derive(Debug, PartialEq)]
pub struct InvalidPath {
    description: String,
}

impl View for InvalidPath {
    type V = Seq<char>;

    /// What the error says.
    closed spec fn view(&self) -> Seq<char> {
        self.description@
    }
}

/// What the error says of what was to be added to a path.
pub open spec fn invalid_path(addition: Seq<char>) -> Seq<char> {
    "Unable to construct path to "@ + addition
}

impl InvalidPath {
    /// The error for what was to be added to a path.
    pub fn from(addition: &str) -> (e: InvalidPath)
        ensures
            e@ == invalid_path(addition@),
    {
        let mut description = String::new();
        description.append("Unable to construct path to ");
        description.append(addition);
        assert(description@ =~= invalid_path(addition@));
        InvalidPath { description }
    }

    /// What the error says.
    pub fn description(&self) -> (r: &String)
        ensures
            r@ == self@,
    {
        &self.description
    }
}

/// The name of the method that a declaration declares, and its signature
/// with package and class: see `signature_text`. Here a method must have an
/// argument: an empty argument list is an argument that is no type and
/// name.
pub fn parse_java_method(package: &str, class: &str, decl: &str) -> (r: Result<
    (String, String),
    JavaArgParseError,
>)
    ensures
        names(
            r,
            signature_text(
                package@,
                class@,
                method_matches(decl@),
                false,
                method_matches(decl@).len() as int,
            ),
        ),
{
    match captures_all(METHOD_PATTERN, decl) {
        Some(matches) => signature(package, class, &matches, false),
        None => Ok((String::new(), String::new())),
    }
}

/// The class path of the program, with semicolons between its entries.
pub fn classpath(config: &Config) -> (r: String)
    ensures
        r@ == joined(texts(config.classpath@), ";"@),
{
    join(&config.classpath, ";")
}

/// The arguments with which `java` runs the symbolic execution: the flags
/// of the configuration, as its spaces part them, then `-jar`, the archive
/// of the tool and the file with its settings.
pub fn arguments(config: &Config, jar_path: &str, run_jpf_path: &str) -> (args: Vec<String>)
    ensures
        texts(args@) == split(config.jvm_flags@, ' ') + seq!["-jar"@, jar_path@, run_jpf_path@],
{
    let mut args = split_at_char(config.jvm_flags.as_str(), ' ');
    let ghost flags = texts(args@);
    args.push("-jar".to_owned());
    assert(texts(args@) =~= flags + seq!["-jar"@]);
    args.push(jar_path.to_owned());
    assert(texts(args@) =~= flags + seq!["-jar"@, jar_path@]);
    args.push(run_jpf_path.to_owned());
    assert(texts(args@) =~= flags + seq!["-jar"@, jar_path@, run_jpf_path@]);
    args
}

} // verus!
