//! Every rule of the grammar takes at least one byte and ends inside the
//! text. So the bounds that the rules for lists test before they go on
//! never stop a list: they only show that the rules are well founded.

use vstd::prelude::*;
use crate::jpf::expression::{Tree, Type};
use crate::jpf::grammar::{
    cast_at,
    comparison_at,
    conjunction_at,
    conjunction_from,
    declaration_at,
    declarations_at,
    declarations_from,
    group_at,
    ident_at,
    lit,
    name_at,
    number_at,
    op_at,
    run,
    token,
    Class,
};

verus! {

/// A run is not negative and ends inside the text.
pub proof fn law_run_ends_inside(s: Seq<u8>, pos: int, class: Class)
    ensures
        0 <= run(s, pos, class),
        0 <= pos <= s.len() ==> pos + run(s, pos, class) <= s.len(),
    decreases s.len() - pos,
{
    if 0 <= pos < s.len() {
        law_run_ends_inside(s, pos + 1, class);
    }
}

/// A name in quotes takes at least one byte and ends inside the text.
pub proof fn law_name_advances(s: Seq<u8>, pos: int)
    ensures
        name_at(s, pos) matches Some((_, end)) ==> pos < end <= s.len(),
{
    if let Some(p) = token(s, pos, lit("'")) {
        law_run_ends_inside(s, p, Class::Alphanumeric);
    }
}

/// A name in quotes, with or without a cast, takes at least one byte and
/// ends inside the text.
pub proof fn law_ident_advances(s: Seq<u8>, pos: int)
    ensures
        ident_at(s, pos) matches Some((_, end)) ==> pos < end <= s.len(),
{
    law_name_advances(s, pos);
    if let Some(p) = cast_at(s, pos) {
        law_name_advances(s, p);
    }
}

/// A number takes at least one byte and ends inside the text.
pub proof fn law_number_advances(s: Seq<u8>, pos: int)
    ensures
        number_at(s, pos) matches Some((_, end)) ==> pos < end <= s.len(),
{
    law_run_ends_inside(s, pos, Class::Digit);
    if run(s, pos, Class::Digit) < 1 {
        if let Some(p) = token(s, pos, lit("-")) {
            law_run_ends_inside(s, p, Class::Digit);
        }
    }
}

/// A comparison takes at least one byte and ends inside the text.
pub proof fn law_comparison_advances(s: Seq<u8>, pos: int)
    ensures
        comparison_at(s, pos) matches Some((_, end)) ==> pos < end <= s.len(),
{
    law_ident_advances(s, pos);
    if let Some((_, p)) = ident_at(s, pos) {
        law_run_ends_inside(s, p, Class::Space);
        let p2 = p + run(s, p, Class::Space);
        if let Some((_, q)) = op_at(s, p2) {
            law_run_ends_inside(s, q, Class::Space);
            law_number_advances(s, q + run(s, q, Class::Space));
        }
    }
}

/// A group takes at least one byte and ends inside the text.
pub proof fn law_group_advances(s: Seq<u8>, pos: int)
    ensures
        group_at(s, pos) matches Some((_, end)) ==> pos < end <= s.len(),
    decreases s.len() - pos, 0int,
{
    if let Some(p) = token(s, pos, lit("(")) {
        law_comparison_advances(s, p);
        if comparison_at(s, p) is None {
            law_conjunction_advances(s, p);
        }
    }
}

/// A conjunction takes at least one byte and ends inside the text, and it
/// is its first group and the groups that follow it.
pub proof fn law_conjunction_advances(s: Seq<u8>, pos: int)
    ensures
        conjunction_at(s, pos) matches Some((_, end)) ==> pos < end <= s.len(),
        conjunction_at(s, pos) == match group_at(s, pos) {
            Some((first, p)) => Some(conjunction_from(s, p, seq![first])),
            None => None,
        },
    decreases s.len() - pos, 1int,
{
    law_group_advances(s, pos);
    if let Some((first, p)) = group_at(s, pos) {
        law_conjunction_goes_on(s, p, seq![first]);
    }
}

/// The groups that follow end inside the text, and they are the next group
/// after ` && ` and the groups that follow that one.
pub proof fn law_conjunction_goes_on(s: Seq<u8>, pos: int, found: Seq<Tree>)
    requires
        0 <= pos <= s.len(),
    ensures
        pos <= conjunction_from(s, pos, found).1 <= s.len(),
        conjunction_from(s, pos, found) == match token(s, pos, lit(" && ")) {
            Some(p) => match group_at(s, p) {
                Some((next, q)) => conjunction_from(s, q, found.push(next)),
                None => (found, pos),
            },
            None => (found, pos),
        },
    decreases s.len() - pos, 1int,
{
    if let Some(p) = token(s, pos, lit(" && ")) {
        law_group_advances(s, p);
        if let Some((next, q)) = group_at(s, p) {
            law_conjunction_goes_on(s, q, found.push(next));
        }
    }
}

/// The declaration of a variable takes at least one byte and ends inside
/// the text.
pub proof fn law_declaration_advances(s: Seq<u8>, pos: int)
    ensures
        declaration_at(s, pos) matches Some((_, end)) ==> pos < end <= s.len(),
{
    law_name_advances(s, pos);
}

/// The declarations that follow end inside the text, and they are the next
/// declaration after `, ` and the declarations that follow that one.
pub proof fn law_declarations_go_on(s: Seq<u8>, pos: int, found: Seq<(Seq<char>, Type)>)
    requires
        0 <= pos <= s.len(),
    ensures
        pos <= declarations_from(s, pos, found).1 <= s.len(),
        declarations_from(s, pos, found) == match token(s, pos, lit(", ")) {
            Some(p) => match declaration_at(s, p) {
                Some((next, q)) => declarations_from(s, q, found.push(next)),
                None => (found, pos),
            },
            None => (found, pos),
        },
    decreases s.len() - pos,
{
    if let Some(p) = token(s, pos, lit(", ")) {
        law_declaration_advances(s, p);
        if let Some((next, q)) = declaration_at(s, p) {
            law_declarations_go_on(s, q, found.push(next));
        }
    }
}

/// A list of declarations takes at least one byte and ends inside the
/// text.
pub proof fn law_declarations_advance(s: Seq<u8>, pos: int)
    ensures
        declarations_at(s, pos) matches Some((_, end)) ==> pos < end <= s.len(),
{
    law_declaration_advances(s, pos);
    if let Some((first, p)) = declaration_at(s, pos) {
        law_declarations_go_on(s, p, seq![first]);
    }
}

} // verus!
