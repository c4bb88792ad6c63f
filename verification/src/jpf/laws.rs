//! What holds of reading, interpreting and rendering path conditions,
//! whatever the input.

use vstd::prelude::*;
use crate::jpf::expression::{
    fresh,
    interpret,
    interpret_first,
    declared,
    first_named,
    lemma_first_exists,
    narrow,
    unresolved,
    narrower,
    reached,
    reached_first,
    distinct_names,
    declare_all,
    lemma_declared_distinct,
    read,
    CAST_PATTERN,
    ConditionView,
    ExpressionView,
    Op,
    Tree,
    Type,
    VariableView,
};
use crate::jpf::grammar::{path_condition, reading, ReadingView};
use crate::jpf::{
    any_true,
    bounds_of,
    bounds_text,
    interval_texts,
    is_whole_type,
    meets,
    ranges_text,
    within_bounds,
    merge,
    output_text,
    read_all,
    reduce_text,
    single,
    singles,
    variable_text,
};
use crate::pattern::regex_replace_all;
use crate::range::{canonical, covered, holds, lemma_normal_form, span, within};
use crate::text::joined;

verus! {

/// A variable that may have every value of its type renders as nothing.
pub proof fn law_whole_type_renders_empty(name: Seq<char>, typ: Type)
    ensures
        variable_text(fresh(name, typ)) == Ok::<Seq<char>, Seq<char>>(Seq::empty()),
{
    let lower = typ.lower() as i64;
    let upper = typ.upper() as i64;
    let whole = seq![(lower, upper)];
    assert(canonical(whole));
    assert forall|x: int| holds(whole, x) == (typ.lower() <= x <= typ.upper()) by {
        if typ.lower() <= x <= typ.upper() {
            assert(within(whole[0], x));
        }
        if holds(whole, x) {
            let k = choose|k: int| 0 <= k < whole.len() && #[trigger] within(whole[k], x);
        }
    }
    assert(covered(whole) =~= span(typ.lower(), typ.upper()));
    lemma_normal_form(whole);
    assert(whole[0] == (lower, upper));
}

/// A text is read as what it demands exactly if it is a declaration of the
/// grammar; any other text is kept as text. There is no third outcome.
pub proof fn law_every_text_is_read(text: Seq<char>, stripped: Option<Seq<char>>)
    ensures
        path_condition(vstd::utf8::encode_utf8(text)) is Some <==> read(text, stripped) is Parsed,
        path_condition(vstd::utf8::encode_utf8(text)) is None <==> read(
            text,
            stripped,
        ) is Unparsable,
{
}

/// A comparison takes values from one variable and gives none to any.
pub proof fn law_comparison_only_narrows(vars: Seq<VariableView>, name: Seq<char>, op: Op, v: i64)
    requires
        narrow(vars, name, op, v) is Some,
    ensures
        narrower(narrow(vars, name, op, v)->0, vars),
{
    lemma_first_exists(vars, name);
}

/// Interpreting a tree takes values from variables and gives none to any.
pub proof fn law_interpreting_only_narrows(vars: Seq<VariableView>, tree: Tree)
    requires
        interpret(vars, tree) is Some,
    ensures
        narrower(interpret(vars, tree)->0, vars),
    decreases tree, 0int,
{
    match tree {
        Tree::And(parts) => {
            law_interpreting_first_only_narrows(vars, parts, parts.len() as int);
        },
        Tree::Compare(name, op, v) => {
            law_comparison_only_narrows(vars, name, op, v);
        },
    }
}

/// Interpreting the first `n` trees takes values from variables and gives
/// none to any.
pub proof fn law_interpreting_first_only_narrows(vars: Seq<VariableView>, parts: Seq<Tree>, n: int)
    requires
        interpret_first(vars, parts, n) is Some,
    ensures
        narrower(interpret_first(vars, parts, n)->0, vars),
    decreases parts, n,
{
    if n <= 0 || n > parts.len() {
    } else {
        let before = interpret_first(vars, parts, n - 1)->0;
        law_interpreting_first_only_narrows(vars, parts, n - 1);
        law_interpreting_only_narrows(before, parts[n - 1]);
        let after = interpret(before, parts[n - 1])->0;
        assert forall|i: int| 0 <= i < vars.len() implies (#[trigger] after[i]).name
            == vars[i].name && after[i].typ == vars[i].typ && after[i].values.subset_of(
            vars[i].values,
        ) by {
            assert(before[i].name == vars[i].name);
        }
    }
}

/// Without a path the precondition tells only whether a path ends in an
/// error.
pub proof fn law_without_paths(has_error_paths: bool)
    ensures
        reduce_text(Seq::empty(), true) == Ok::<Seq<char>, Seq<char>>("True"@),
        reduce_text(Seq::empty(), false) == Ok::<Seq<char>, Seq<char>>("No satisfiable value"@),
{
}

/// A path that demands nothing makes the precondition `True`, whatever the
/// other paths are.
pub proof fn law_true_path_decides(paths: Seq<ExpressionView>, i: int, has_error_paths: bool)
    requires
        0 <= i < paths.len(),
        paths[i] == ExpressionView::Parsed(ConditionView::True),
    ensures
        reduce_text(paths, has_error_paths) == Ok::<Seq<char>, Seq<char>>("True"@),
{
    assert(any_true(paths, paths.len() as int));
}

/// Whether interpreting a tree succeeds or fails, it takes values from
/// variables and gives none to any, and keeps every variable with its name
/// and type.
pub proof fn law_reached_only_narrows(vars: Seq<VariableView>, tree: Tree)
    ensures
        narrower(reached(vars, tree), vars),
    decreases tree, 0int,
{
    match tree {
        Tree::And(parts) => {
            law_reached_first_only_narrows(vars, parts, parts.len() as int);
        },
        Tree::Compare(name, op, v) => {
            if narrow(vars, name, op, v) is Some {
                law_comparison_only_narrows(vars, name, op, v);
            }
        },
    }
}

/// Whether interpreting the first `n` trees succeeds or fails, it takes
/// values from variables and gives none to any.
pub proof fn law_reached_first_only_narrows(vars: Seq<VariableView>, parts: Seq<Tree>, n: int)
    ensures
        narrower(reached_first(vars, parts, n), vars),
    decreases parts, n,
{
    if n <= 0 || n > parts.len() {
    } else {
        match interpret_first(vars, parts, n - 1) {
            Some(before) => {
                law_interpreting_first_only_narrows(vars, parts, n - 1);
                law_reached_only_narrows(before, parts[n - 1]);
                let after = reached(before, parts[n - 1]);
                assert forall|i: int| 0 <= i < vars.len() implies (#[trigger] after[i]).name
                    == vars[i].name && after[i].typ == vars[i].typ && after[i].values.subset_of(
                    vars[i].values,
                ) by {
                    assert(before[i].name == vars[i].name);
                }
            },
            None => {
                law_reached_first_only_narrows(vars, parts, n - 1);
            },
        }
    }
}

/// No two variables of a path condition that was read have one name.
pub proof fn law_read_names_distinct(s: Seq<u8>)
    ensures
        reading(s) matches ReadingView::Read(ConditionView::Conditions(vars)) ==> distinct_names(
            vars,
        ),
{
    if let ReadingView::Read(ConditionView::Conditions(vars)) = reading(s) {
        let (decls, tree) = choose|decls: Seq<(Seq<char>, Type)>, tree: Tree|
            interpret(declare_all(decls, decls.len() as int), tree) == Some(vars);
        let declared = declare_all(decls, decls.len() as int);
        lemma_declared_distinct(decls, decls.len() as int);
        law_interpreting_only_narrows(declared, tree);
        assert forall|i: int, j: int| 0 <= i < j < vars.len() implies (#[trigger] vars[i]).name
            != (#[trigger] vars[j]).name by {
            assert(vars[i].name == declared[i].name);
            assert(vars[j].name == declared[j].name);
        }
    }
}

/// One more variable leaves the names distinct.
pub proof fn lemma_merge_distinct(found: Seq<VariableView>, v: VariableView)
    requires
        distinct_names(found),
    ensures
        distinct_names(merge(found, v)),
{
    let after = merge(found, v);
    if declared(found, v.name) {
        lemma_first_exists(found, v.name);
        assert forall|i: int, j: int| 0 <= i < j < after.len() implies (#[trigger] after[i]).name
            != (#[trigger] after[j]).name by {
            assert(after[i].name == found[i].name);
            assert(after[j].name == found[j].name);
        }
    } else {
        assert forall|i: int, j: int| 0 <= i < j < after.len() implies (#[trigger] after[i]).name
            != (#[trigger] after[j]).name by {
            assert(after[i] == found[i]);
            if j < found.len() {
                assert(after[j] == found[j]);
            } else {
                assert(found[i].name != v.name);
            }
        }
    }
}

/// The paths with one variable give one condition for each name: no two of
/// the variables that they are united in have one name.
pub proof fn law_singles_distinct(paths: Seq<ExpressionView>, n: int)
    ensures
        distinct_names(singles(paths, n)),
    decreases n,
{
    if n > 0 {
        law_singles_distinct(paths, n - 1);
        if let Some(v) = single(paths[n - 1]) {
            lemma_merge_distinct(singles(paths, n - 1), v);
        }
    }
}

/// Where every one of the first `n` paths is dropped, none is left.
pub proof fn lemma_all_dropped(ok_paths: Seq<String>, n: int)
    requires
        0 <= n <= ok_paths.len(),
        forall|i: int| 0 <= i < n ==> unresolved(#[trigger] ok_paths[i]@),
    ensures
        read_all(ok_paths, n).len() == 0,
    decreases n,
{
    if n > 0 {
        lemma_all_dropped(ok_paths, n - 1);
    }
}

/// Where there are paths and every one of them compares a variable that it
/// does not declare, the precondition is `True`, with or without a path
/// that ends in an error.
pub proof fn law_all_paths_dropped(ok_paths: Seq<String>, has_error_paths: bool)
    requires
        ok_paths.len() > 0,
        forall|i: int| 0 <= i < ok_paths.len() ==> unresolved(#[trigger] ok_paths[i]@),
    ensures
        output_text(ok_paths, has_error_paths) == Ok::<Seq<char>, Seq<char>>("True"@),
{
    lemma_all_dropped(ok_paths, ok_paths.len() as int);
}

/// A path that compares a variable that it does not declare changes
/// nothing in what the paths before it are read as; any other path adds
/// what it is read as.
pub proof fn law_dropped_path_adds_nothing(ok_paths: Seq<String>, n: int)
    requires
        0 < n <= ok_paths.len(),
    ensures
        unresolved(ok_paths[n - 1]@) ==> read_all(ok_paths, n) == read_all(ok_paths, n - 1),
        !unresolved(ok_paths[n - 1]@) ==> read_all(ok_paths, n) == read_all(ok_paths, n - 1).push(
            read(ok_paths[n - 1]@, regex_replace_all(CAST_PATTERN@, ok_paths[n - 1]@, ""@)),
        ),
{
}

/// Where some path is left, the precondition is what the paths that are
/// left give; without any path it tells only whether a path ends in an
/// error.
pub proof fn law_output_of_kept_paths(ok_paths: Seq<String>, has_error_paths: bool)
    ensures
        read_all(ok_paths, ok_paths.len() as int).len() > 0 ==> output_text(
            ok_paths,
            has_error_paths,
        ) == reduce_text(read_all(ok_paths, ok_paths.len() as int), has_error_paths),
        ok_paths.len() == 0 ==> output_text(ok_paths, has_error_paths) == reduce_text(
            Seq::empty(),
            has_error_paths,
        ),
{
}

/// Rendering keeps the values: of the values of the type, those that meet
/// the condition written for a range are the values of the range. The
/// bounds that are left out are the ones that the type sets anyway.
pub proof fn law_written_bounds_keep_the_values(
    ranges: Seq<(i64, i64)>,
    lower: i64,
    upper: i64,
    v: int,
)
    requires
        ranges.len() > 0,
        forall|i: int|
            0 <= i < ranges.len() ==> lower <= (#[trigger] ranges[i]).0 && ranges[i].1 <= upper,
        lower <= v <= upper,
    ensures
        meets(ranges, lower, upper, v) <==> holds(ranges, v),
{
    if is_whole_type(ranges, lower, upper) {
        assert(within(ranges[0], v));
    } else {
        if meets(ranges, lower, upper, v) {
            let i = choose|i: int|
                0 <= i < ranges.len() && within_bounds(
                    #[trigger] bounds_of(ranges[i], lower, upper),
                    v,
                );
            assert(within(ranges[i], v));
        }
        if holds(ranges, v) {
            let i = choose|i: int| 0 <= i < ranges.len() && #[trigger] within(ranges[i], v);
            assert(within_bounds(bounds_of(ranges[i], lower, upper), v));
        }
    }
}

/// Texts of which the last is not empty are not empty when joined.
proof fn lemma_joined_not_empty(parts: Seq<Seq<char>>, separator: Seq<char>)
    requires
        parts.len() > 0,
        parts.last().len() > 0,
    ensures
        joined(parts, separator).len() > 0,
{
}

/// A range is rendered as nothing exactly if it is the whole type; a range
/// without an interval is not rendered at all.
pub proof fn law_nothing_is_written_for_the_whole_type(
    ranges: Seq<(i64, i64)>,
    name: Seq<char>,
    lower: i64,
    upper: i64,
)
    ensures
        ranges_text(ranges, name, lower, upper) is Ok <==> ranges.len() > 0,
        ranges_text(ranges, name, lower, upper) matches Ok(t) ==> (t.len() == 0 <==> is_whole_type(
            ranges,
            lower,
            upper,
        )),
{
    if ranges.len() > 0 && !is_whole_type(ranges, lower, upper) {
        let parts = interval_texts(name, ranges, lower, upper);
        reveal_strlit("(");
        assert(parts.last() == bounds_text(name, bounds_of(ranges[ranges.len() - 1], lower, upper)));
        assert(parts.last().len() > 0);
        lemma_joined_not_empty(parts, " || "@);
    }
}

} // verus!
