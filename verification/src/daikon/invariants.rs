//! The report of the invariant inference: how it is read, and what it says
//! of a method.
//!
//! The report has a header that ends with a line of `=`. After it each
//! program point starts with a line `entity:::KIND` and an optional
//! condition; the lines that follow are its invariants. Invariants at
//! `OBJECT` and `ENTER` are preconditions, those at `EXIT` are
//! postconditions, and the lines of any other kind are passed over.

use vstd::prelude::*;
use vstd::string::*;
use crate::pattern::{
    captures_all,
    groups_view,
    is_match,
    matches_view,
    regex_captures,
    regex_is_match,
    regex_replace_all,
    replace_all,
};
use crate::text::{chars_of, digits, join, joined, push_digits, split, split_at_char, texts};
use crate::{method_matches, parse_java_method, signature_text};

verus! {

/// Something that was found to hold at a program point.
#[derive(Debug, PartialEq)]
pub enum Invariant {
    /// `x` is null.
    Null { exp: String },
    /// `x` is not null.
    NotNull { exp: String },
    /// `x >= y`, or with another operator.
    Comparison { lhs: String, operator: String, rhs: String },
    /// `x` has the value that `y` had at the start.
    Original { source: String, target: String },
}

/// What an `Invariant` stands for.
pub enum InvariantView {
    Null { exp: Seq<char> },
    NotNull { exp: Seq<char> },
    Comparison { lhs: Seq<char>, operator: Seq<char>, rhs: Seq<char> },
    Original { source: Seq<char>, target: Seq<char> },
}

impl View for Invariant {
    type V = InvariantView;

    open spec fn view(&self) -> InvariantView {
        match self {
            Invariant::Null { exp } => InvariantView::Null { exp: exp@ },
            Invariant::NotNull { exp } => InvariantView::NotNull { exp: exp@ },
            Invariant::Comparison { lhs, operator, rhs } => InvariantView::Comparison {
                lhs: lhs@,
                operator: operator@,
                rhs: rhs@,
            },
            Invariant::Original { source, target } => InvariantView::Original {
                source: source@,
                target: target@,
            },
        }
    }
}

impl Clone for Invariant {
    fn clone(&self) -> (r: Invariant)
        ensures
            r@ == self@,
    {
        match self {
            Invariant::Null { exp } => Invariant::Null { exp: exp.clone() },
            Invariant::NotNull { exp } => Invariant::NotNull { exp: exp.clone() },
            Invariant::Comparison { lhs, operator, rhs } => Invariant::Comparison {
                lhs: lhs.clone(),
                operator: operator.clone(),
                rhs: rhs.clone(),
            },
            Invariant::Original { source, target } => Invariant::Original {
                source: source.clone(),
                target: target.clone(),
            },
        }
    }
}

/// The views of the invariants.
pub open spec fn invariant_views(all: Seq<Invariant>) -> Seq<InvariantView> {
    Seq::new(all.len(), |i: int| all[i]@)
}

/// An invariant in words.
pub open spec fn invariant_text(inv: InvariantView) -> Seq<char> {
    match inv {
        InvariantView::Null { exp } => exp + " is NULL"@,
        InvariantView::NotNull { exp } => exp + " is not NULL"@,
        InvariantView::Comparison { lhs, operator, rhs } => lhs + " "@ + operator + " "@ + rhs,
        InvariantView::Original { source, target } => if source == target {
            source + " is unchanged"@
        } else {
            source + " == original value of "@ + target
        },
    }
}

impl Invariant {
    /// The invariant in words.
    pub fn to_text(&self) -> (r: String)
        ensures
            r@ == invariant_text(self@),
    {
        let mut r = String::new();
        match self {
            Invariant::Null { exp } => {
                r.append(exp.as_str());
                r.append(" is NULL");
                assert(r@ =~= invariant_text(self@));
            },
            Invariant::NotNull { exp } => {
                r.append(exp.as_str());
                r.append(" is not NULL");
                assert(r@ =~= invariant_text(self@));
            },
            Invariant::Comparison { lhs, operator, rhs } => {
                r.append(lhs.as_str());
                r.append(" ");
                r.append(operator.as_str());
                r.append(" ");
                r.append(rhs.as_str());
                assert(r@ =~= invariant_text(self@));
            },
            Invariant::Original { source, target } => {
                if *source == *target {
                    r.append(source.as_str());
                    r.append(" is unchanged");
                    assert(r@ =~= invariant_text(self@));
                } else {
                    r.append(source.as_str());
                    r.append(" == original value of ");
                    r.append(target.as_str());
                    assert(r@ =~= invariant_text(self@));
                }
            },
        }
        r
    }
}

/// The first `n` characters of `s`, with a backslash before each double
/// quote.
pub open spec fn escaped(s: Seq<char>, n: int) -> Seq<char>
    decreases n,
{
    if n <= 0 {
        Seq::empty()
    } else if s[n - 1] == '"' {
        escaped(s, n - 1) + "\\\""@
    } else {
        escaped(s, n - 1).push(s[n - 1])
    }
}

/// `s` with a backslash before each double quote.
pub fn escape(s: &str) -> (r: String)
    ensures
        r@ == escaped(s@, s@.len() as int),
{
    let chars = chars_of(s);
    let mut r = String::new();
    let mut k: usize = 0;
    while k < chars.len()
        invariant
            k <= chars.len(),
            chars@ == s@,
            r@ == escaped(s@, k as int),
        decreases chars.len() - k,
    {
        if chars[k] == '"' {
            r.append("\\\"");
        } else {
            r.push(chars[k]);
        }
        k += 1;
    }
    r
}

/// The invariants in words, each with its double quotes escaped.
pub open spec fn quoted_texts(all: Seq<InvariantView>) -> Seq<Seq<char>> {
    Seq::new(
        all.len(),
        |i: int| escaped(invariant_text(all[i]), invariant_text(all[i]).len() as int),
    )
}

/// The invariants as the elements of a list: nothing if there is none,
/// else each in double quotes with commas between them.
pub open spec fn list_text(all: Seq<InvariantView>) -> Seq<char> {
    if all.len() > 0 {
        "\""@ + joined(quoted_texts(all), "\",\""@) + "\""@
    } else {
        Seq::empty()
    }
}

/// The invariants as the elements of a list.
pub fn list_to_string(all: &Vec<Invariant>) -> (r: String)
    ensures
        r@ == list_text(invariant_views(all@)),
{
    let mut r = String::new();
    if all.len() > 0 {
        let ghost expected = quoted_texts(invariant_views(all@));
        let mut parts: Vec<String> = Vec::new();
        let mut k: usize = 0;
        assert(texts(parts@) =~= expected.take(0));
        while k < all.len()
            invariant
                k <= all.len(),
                expected == quoted_texts(invariant_views(all@)),
                texts(parts@) == expected.take(k as int),
            decreases all.len() - k,
        {
            let ghost before = texts(parts@);
            let part = escape(all[k].to_text().as_str());
            assert(part@ == expected[k as int]);
            parts.push(part);
            k += 1;
            assert(texts(parts@) =~= before.push(part@));
            assert(texts(parts@) =~= expected.take(k as int));
        }
        assert(expected.take(k as int) =~= expected);
        r.append("\"");
        r.append(join(&parts, "\",\"").as_str());
        r.append("\"");
        assert(r@ =~= list_text(invariant_views(all@)));
    }
    r
}

/// What holds at a program point, under a condition: before the call and
/// after it.
#[derive(Debug, PartialEq)]
pub struct Inferences {
    pub cond: String,
    pub pre: Vec<Invariant>,
    pub post: Vec<Invariant>,
}

/// What an `Inferences` stands for.
pub struct InferencesView {
    pub cond: Seq<char>,
    pub pre: Seq<InvariantView>,
    pub post: Seq<InvariantView>,
}

impl View for Inferences {
    type V = InferencesView;

    open spec fn view(&self) -> InferencesView {
        InferencesView {
            cond: self.cond@,
            pre: invariant_views(self.pre@),
            post: invariant_views(self.post@),
        }
    }
}

/// The views of the inferences.
pub open spec fn inference_views(all: Seq<Inferences>) -> Seq<InferencesView> {
    Seq::new(all.len(), |i: int| all[i]@)
}

/// The inferences as one line: a marker, then the condition and the two
/// lists in braces.
pub open spec fn inferences_text(inf: InferencesView) -> Seq<char> {
    "#doco-daikon {\"cond\":\""@ + inf.cond + "\",\"pre\":["@ + list_text(inf.pre)
        + "],\"post\":["@ + list_text(inf.post) + "]}"@
}

/// A copy of the invariants.
pub fn copy_invariants(all: &Vec<Invariant>) -> (r: Vec<Invariant>)
    ensures
        invariant_views(r@) == invariant_views(all@),
{
    let mut r: Vec<Invariant> = Vec::new();
    let mut k: usize = 0;
    while k < all.len()
        invariant
            k <= all.len(),
            invariant_views(r@) == invariant_views(all@).take(k as int),
        decreases all.len() - k,
    {
        let ghost before = invariant_views(r@);
        let copy = all[k].clone();
        r.push(copy);
        k += 1;
        assert(invariant_views(r@) =~= before.push(copy@));
        assert(invariant_views(all@).take(k as int) =~= invariant_views(all@).take(k - 1).push(
            all[k - 1]@,
        ));
    }
    assert(invariant_views(all@).take(k as int) =~= invariant_views(all@));
    r
}

impl Clone for Inferences {
    fn clone(&self) -> (r: Inferences)
        ensures
            r@ == self@,
    {
        Inferences {
            cond: self.cond.clone(),
            pre: copy_invariants(&self.pre),
            post: copy_invariants(&self.post),
        }
    }
}

impl Inferences {
    /// The inferences as one line.
    pub fn to_text(&self) -> (r: String)
        ensures
            r@ == inferences_text(self@),
    {
        let mut r = String::new();
        r.append("#doco-daikon {\"cond\":\"");
        r.append(self.cond.as_str());
        r.append("\",\"pre\":[");
        r.append(list_to_string(&self.pre).as_str());
        r.append("],\"post\":[");
        r.append(list_to_string(&self.post).as_str());
        r.append("]}");
        assert(r@ =~= inferences_text(self@));
        r
    }
}

/// A copy of the inferences.
pub fn copy_inferences(all: &Vec<Inferences>) -> (r: Vec<Inferences>)
    ensures
        inference_views(r@) == inference_views(all@),
{
    let mut r: Vec<Inferences> = Vec::new();
    let mut k: usize = 0;
    while k < all.len()
        invariant
            k <= all.len(),
            inference_views(r@) == inference_views(all@).take(k as int),
        decreases all.len() - k,
    {
        let ghost before = inference_views(r@);
        let copy = all[k].clone();
        r.push(copy);
        k += 1;
        assert(inference_views(r@) =~= before.push(copy@));
        assert(inference_views(all@).take(k as int) =~= inference_views(all@).take(k - 1).push(
            all[k - 1]@,
        ));
    }
    assert(inference_views(all@).take(k as int) =~= inference_views(all@));
    r
}

/// What was inferred, by the name of the object or method.
pub type Entries = Seq<(Seq<char>, Seq<InferencesView>)>;

/// An entry of that name is among `entries`.
pub open spec fn has_entry(entries: Entries, name: Seq<char>) -> bool {
    exists|i: int| 0 <= i < entries.len() && (#[trigger] entries[i]).0 == name
}

/// `i` is the place of the first entry of that name.
pub open spec fn is_first_entry(entries: Entries, name: Seq<char>, i: int) -> bool {
    &&& 0 <= i < entries.len()
    &&& entries[i].0 == name
    &&& forall|j: int| 0 <= j < i ==> (#[trigger] entries[j]).0 != name
}

/// The place of the first entry of that name.
pub open spec fn first_entry(entries: Entries, name: Seq<char>) -> int {
    choose|i: int| is_first_entry(entries, name, i)
}

/// The first entry of a name is found at one place only.
pub proof fn lemma_first_entry(entries: Entries, name: Seq<char>, i: int)
    requires
        is_first_entry(entries, name, i),
    ensures
        has_entry(entries, name),
        first_entry(entries, name) == i,
{
    let j = first_entry(entries, name);
    assert(is_first_entry(entries, name, j));
    if j < i {
        assert(entries[j].0 != name);
    }
    if i < j {
        assert(entries[i].0 != name);
    }
}

/// The entries with `value` under `name`: in the place of what stood under
/// that name, or at the end.
pub open spec fn put(entries: Entries, name: Seq<char>, value: Seq<InferencesView>) -> Entries {
    if has_entry(entries, name) {
        entries.update(first_entry(entries, name), (name, value))
    } else {
        entries.push((name, value))
    }
}

/// No two entries have one name.
pub open spec fn distinct_entries(entries: Entries) -> bool {
    forall|i: int, j: int|
        0 <= i < j < entries.len() ==> (#[trigger] entries[i]).0 != (#[trigger] entries[j]).0
}

/// Below an entry of a name there is a first one.
proof fn lemma_least_entry(entries: Entries, name: Seq<char>, k: int)
    requires
        0 <= k < entries.len(),
        entries[k].0 == name,
    ensures
        exists|i: int| is_first_entry(entries, name, i),
    decreases k,
{
    if exists|j: int| 0 <= j < k && (#[trigger] entries[j]).0 == name {
        let j = choose|j: int| 0 <= j < k && (#[trigger] entries[j]).0 == name;
        lemma_least_entry(entries, name, j);
    } else {
        assert(is_first_entry(entries, name, k));
    }
}

/// A name that has an entry has a first one.
pub proof fn lemma_first_entry_exists(entries: Entries, name: Seq<char>)
    requires
        has_entry(entries, name),
    ensures
        is_first_entry(entries, name, first_entry(entries, name)),
{
    let k = choose|k: int| 0 <= k < entries.len() && (#[trigger] entries[k]).0 == name;
    lemma_least_entry(entries, name, k);
}

/// Putting a value under a name leaves the names distinct.
pub proof fn law_put_keeps_names_distinct(
    entries: Entries,
    name: Seq<char>,
    value: Seq<InferencesView>,
)
    requires
        distinct_entries(entries),
    ensures
        distinct_entries(put(entries, name, value)),
{
    let after = put(entries, name, value);
    if has_entry(entries, name) {
        lemma_first_entry_exists(entries, name);
        assert forall|i: int, j: int| 0 <= i < j < after.len() implies (#[trigger] after[i]).0 != (
        #[trigger] after[j]).0 by {
            assert(after[i].0 == entries[i].0);
            assert(after[j].0 == entries[j].0);
        }
    } else {
        assert forall|i: int, j: int| 0 <= i < j < after.len() implies (#[trigger] after[i]).0 != (
        #[trigger] after[j]).0 by {
            assert(after[i] == entries[i]);
            if j < entries.len() {
                assert(after[j] == entries[j]);
            } else {
                assert(entries[i].0 != name);
            }
        }
    }
}

/// What stands under `name`.
pub open spec fn lookup(entries: Entries, name: Seq<char>) -> Option<Seq<InferencesView>> {
    if has_entry(entries, name) {
        Some(entries[first_entry(entries, name)].1)
    } else {
        None
    }
}

/// For each object and method, by its name, what was inferred of it.
#[derive(Debug, PartialEq)]
pub struct InvariantList {
    map: Vec<(String, Vec<Inferences>)>,
}

impl View for InvariantList {
    type V = Entries;

    closed spec fn view(&self) -> Entries {
        entry_views(self.map@)
    }
}

/// The views of the entries.
pub open spec fn entry_views(all: Seq<(String, Vec<Inferences>)>) -> Entries {
    Seq::new(all.len(), |i: int| (all[i].0@, inference_views(all[i].1@)))
}

/// The texts of the first `n` inferences, each with a line feed after it.
pub open spec fn inference_lines(all: Seq<InferencesView>, n: int) -> Seq<char>
    decreases n,
{
    if n <= 0 {
        Seq::empty()
    } else {
        inference_lines(all, n - 1) + inferences_text(all[n - 1]) + "\n"@
    }
}

/// The first `n` entries: of each its name on a line, and then its
/// inferences.
pub open spec fn entry_lines(entries: Entries, n: int) -> Seq<char>
    decreases n,
{
    if n <= 0 {
        Seq::empty()
    } else {
        entry_lines(entries, n - 1) + entries[n - 1].0 + "\n"@ + inference_lines(
            entries[n - 1].1,
            entries[n - 1].1.len() as int,
        )
    }
}

/// All entries, and their number in the last line.
pub open spec fn entries_text(entries: Entries) -> Seq<char> {
    entry_lines(entries, entries.len() as int) + "Total: "@ + digits(entries.len()) + " entities"@
}

impl InvariantList {
    /// A list without entries.
    pub fn new() -> (r: InvariantList)
        ensures
            r@ == Seq::<(Seq<char>, Seq<InferencesView>)>::empty(),
    {
        let map: Vec<(String, Vec<Inferences>)> = Vec::new();
        assert(entry_views(map@) =~= Seq::<(Seq<char>, Seq<InferencesView>)>::empty());
        InvariantList { map }
    }

    /// The place of the first entry of that name, if there is one.
    fn find(&self, name: &String) -> (r: Option<usize>)
        ensures
            match r {
                Some(i) => is_first_entry(self@, name@, i as int) && i < self.map@.len(),
                None => !has_entry(self@, name@),
            },
    {
        let mut k: usize = 0;
        while k < self.map.len()
            invariant
                k <= self.map.len(),
                forall|j: int| 0 <= j < k ==> (#[trigger] self@[j]).0 != name@,
            decreases self.map.len() - k,
        {
            assert(self@[k as int].0 == self.map@[k as int].0@);
            if self.map[k].0 == *name {
                return Some(k);
            }
            k += 1;
        }
        None
    }

    /// Puts `value` under `name`, in the place of what stood there.
    pub fn insert(&mut self, name: String, value: Vec<Inferences>)
        ensures
            final(self)@ == put(old(self)@, name@, inference_views(value@)),
    {
        let ghost before = self@;
        let ghost added = (name@, inference_views(value@));
        match self.find(&name) {
            Some(i) => {
                proof {
                    lemma_first_entry(before, name@, i as int);
                }
                self.map[i] = (name, value);
                assert(self@ =~= before.update(i as int, added));
            },
            None => {
                self.map.push((name, value));
                assert(self@ =~= before.push(added));
            },
        }
    }

    /// What stands under `name`.
    pub fn get(&self, name: &str) -> (r: Option<&Vec<Inferences>>)
        ensures
            match lookup(self@, name@) {
                Some(found) => r matches Some(v) && inference_views(v@) == found,
                None => r is None,
            },
    {
        match self.find(&name.to_owned()) {
            Some(i) => {
                proof {
                    lemma_first_entry(self@, name@, i as int);
                }
                Some(&self.map[i].1)
            },
            None => None,
        }
    }

    /// How many entries there are.
    pub fn len(&self) -> (n: usize)
        ensures
            n == self@.len(),
    {
        self.map.len()
    }

    /// All entries as text, and their number in the last line.
    pub fn to_text(&self) -> (r: String)
        ensures
            r@ == entries_text(self@),
    {
        let mut r = String::new();
        let mut k: usize = 0;
        while k < self.map.len()
            invariant
                k <= self.map.len(),
                r@ == entry_lines(self@, k as int),
            decreases self.map.len() - k,
        {
            let ghost head = r@;
            r.append(self.map[k].0.as_str());
            r.append("\n");
            let inferences = &self.map[k].1;
            let ghost all = inference_views(inferences@);
            assert(self@[k as int] == (self.map@[k as int].0@, all));
            let ghost start = r@;
            let mut j: usize = 0;
            assert(r@ =~= start + inference_lines(all, 0));
            while j < inferences.len()
                invariant
                    j <= inferences.len(),
                    all == inference_views(inferences@),
                    r@ == start + inference_lines(all, j as int),
                decreases inferences.len() - j,
            {
                r.append(inferences[j].to_text().as_str());
                r.append("\n");
                j += 1;
                assert(r@ =~= start + inference_lines(all, j as int));
            }
            k += 1;
            assert(r@ =~= entry_lines(self@, k as int));
        }
        r.append("Total: ");
        push_digits(&mut r, self.map.len() as u64);
        r.append(" entities");
        assert(r@ =~= entries_text(self@));
        r
    }
}

/// A line of nothing but `=`.
pub const SEP: &'static str = "^=+$";

/// The start of a program point: the name of the object or method, three
/// colons, the kind of program point, and what follows it.
pub const ENTITY_DEF: &'static str = "^(\\S+):::([A-Za-z0-9]+);?(.*)$";

/// The condition of a program point.
pub const CONDITION_RE: &'static str = "condition=\"(.*)\"";

/// An implication.
pub const IMPLIES: &'static str = "==>";

/// Two expressions with an operator between them.
pub const PARTS: &'static str = "^(\\S+) ([!=<>]+) (\\S+)$";

/// An argument of a signature: what stands before it, its name and its
/// type.
pub const SIG_RE: &'static str = "(?P<pref>[(, ])([^:]+):(?P<type>[^,]+)";

/// The comma before the closing parenthesis of a signature.
pub const COMMA_RE: &'static str = ", *(?P<paren>\\))$";

/// The pattern matches somewhere in the text.
pub open spec fn found(pattern: Seq<char>, text: Seq<char>) -> bool {
    regex_is_match(pattern, text) == Some(true)
}

/// The matches of the pattern in the text, each with its groups.
pub open spec fn captures(pattern: Seq<char>, text: Seq<char>) -> Seq<Seq<Option<Seq<char>>>> {
    match regex_captures(pattern, text) {
        Some(all) => all,
        None => Seq::empty(),
    }
}

/// The text of the group `i` of a match, or nothing if the match has no
/// such group or the group took no part.
pub open spec fn group(groups: Seq<Option<Seq<char>>>, i: int) -> Seq<char> {
    if 0 <= i < groups.len() && groups[i] is Some {
        groups[i]->0
    } else {
        Seq::empty()
    }
}

/// The pattern matches somewhere in the text.
pub fn matches(pattern: &str, text: &str) -> (r: bool)
    ensures
        r == found(pattern@, text@),
{
    match is_match(pattern, text) {
        Some(b) => b,
        None => false,
    }
}

/// The matches of the pattern in the text, each with its groups.
pub fn all_captures(pattern: &str, text: &str) -> (r: Vec<Vec<Option<String>>>)
    ensures
        matches_view(r@) == captures(pattern@, text@),
{
    match captures_all(pattern, text) {
        Some(all) => all,
        None => {
            let all: Vec<Vec<Option<String>>> = Vec::new();
            assert(matches_view(all@) =~= Seq::<Seq<Option<Seq<char>>>>::empty());
            all
        },
    }
}

/// The text of the group `i` of a match.
pub fn group_text(groups: &Vec<Option<String>>, i: usize) -> (r: String)
    ensures
        r@ == group(groups_view(groups@), i as int),
{
    if i < groups.len() {
        match &groups[i] {
            Some(s) => s.clone(),
            None => String::new(),
        }
    } else {
        String::new()
    }
}

/// `s` is the text `word`.
pub fn is_text(s: &String, word: &str) -> (r: bool)
    ensures
        r == (s@ == word@),
{
    *s == word.to_owned()
}

/// The start of a program point: the name of the object or method, the
/// kind of program point, and the condition under which its invariants
/// hold.
#[derive(Debug, PartialEq)]
pub struct Entity {
    pub name: String,
    pub kind: String,
    pub condition: String,
}

/// What an `Entity` stands for.
pub struct EntityView {
    pub name: Seq<char>,
    pub kind: Seq<char>,
    pub condition: Seq<char>,
}

impl View for Entity {
    type V = EntityView;

    open spec fn view(&self) -> EntityView {
        EntityView { name: self.name@, kind: self.kind@, condition: self.condition@ }
    }
}

/// The views of the entities.
pub open spec fn entity_views(all: Seq<Entity>) -> Seq<EntityView> {
    Seq::new(all.len(), |i: int| all[i]@)
}

/// The first group of the last of the first `n` matches of a condition, or
/// nothing if there is none.
pub open spec fn last_condition(all: Seq<Seq<Option<Seq<char>>>>, n: int) -> Seq<char> {
    if 0 < n <= all.len() {
        group(all[n - 1], 1)
    } else {
        Seq::empty()
    }
}

/// The program point that a match of `ENTITY_DEF` starts: its groups 1 and
/// 2 are the name and the kind, and its condition is found in group 3,
/// where `has_condition` says that there is one, in the first group of the
/// last of `conditions`.
pub open spec fn entity_of(
    groups: Seq<Option<Seq<char>>>,
    has_condition: bool,
    conditions: Seq<Seq<Option<Seq<char>>>>,
) -> EntityView {
    EntityView {
        name: group(groups, 1),
        kind: group(groups, 2),
        condition: if has_condition {
            last_condition(conditions, conditions.len() as int)
        } else {
            Seq::empty()
        },
    }
}

/// The program point that a match of `ENTITY_DEF` starts: see `entity_of`.
pub fn entity_from(
    groups: &Vec<Option<String>>,
    has_condition: bool,
    conditions: &Vec<Vec<Option<String>>>,
) -> (e: Entity)
    ensures
        e@ == entity_of(groups_view(groups@), has_condition, matches_view(conditions@)),
{
    let condition = if has_condition && conditions.len() > 0 {
        let last = &conditions[conditions.len() - 1];
        assert(matches_view(conditions@)[conditions.len() - 1] == groups_view(last@));
        group_text(last, 1)
    } else {
        String::new()
    };
    Entity { name: group_text(groups, 1), kind: group_text(groups, 2), condition }
}

/// The program points that the first `n` matches of `ENTITY_DEF` in a line
/// start.
pub open spec fn line_entities(all: Seq<Seq<Option<Seq<char>>>>, n: int) -> Seq<EntityView>
    decreases n,
{
    if n <= 0 {
        Seq::empty()
    } else {
        line_entities(all, n - 1).push(
            entity_of(
                all[n - 1],
                found(CONDITION_RE@, group(all[n - 1], 3)),
                captures(CONDITION_RE@, group(all[n - 1], 3)),
            ),
        )
    }
}

/// The expressions and the operator of each match of `PARTS`: its groups
/// 1, 2 and 3.
pub open spec fn triples(all: Seq<Seq<Option<Seq<char>>>>) -> Seq<
    (Seq<char>, Seq<char>, Seq<char>),
> {
    Seq::new(all.len(), |i: int| (group(all[i], 1), group(all[i], 2), group(all[i], 3)))
}

/// The views of the triples.
pub open spec fn triple_views(all: Seq<(String, String, String)>) -> Seq<
    (Seq<char>, Seq<char>, Seq<char>),
> {
    Seq::new(all.len(), |i: int| (all[i].0@, all[i].1@, all[i].2@))
}

/// What a line of the report is.
#[derive(Debug, PartialEq)]
pub enum Event {
    /// A line of `=`.
    Separator,
    /// The start of a program point.
    Entities(Vec<Entity>),
    /// An implication.
    Implication,
    /// Two expressions and an operator.
    Parts(Vec<(String, String, String)>),
    /// Anything else.
    Other,
}

/// What an `Event` stands for.
pub enum EventView {
    Separator,
    Entities(Seq<EntityView>),
    Implication,
    Parts(Seq<(Seq<char>, Seq<char>, Seq<char>)>),
    Other,
}

impl View for Event {
    type V = EventView;

    open spec fn view(&self) -> EventView {
        match self {
            Event::Separator => EventView::Separator,
            Event::Entities(all) => EventView::Entities(entity_views(all@)),
            Event::Implication => EventView::Implication,
            Event::Parts(all) => EventView::Parts(triple_views(all@)),
            Event::Other => EventView::Other,
        }
    }
}

/// What a line of the report is: the first of the kinds whose pattern
/// matches it.
pub open spec fn line_event(line: Seq<char>) -> EventView {
    if found(SEP@, line) {
        EventView::Separator
    } else if found(ENTITY_DEF@, line) {
        EventView::Entities(
            line_entities(captures(ENTITY_DEF@, line), captures(ENTITY_DEF@, line).len() as int),
        )
    } else if found(IMPLIES@, line) {
        EventView::Implication
    } else if found(PARTS@, line) {
        EventView::Parts(triples(captures(PARTS@, line)))
    } else {
        EventView::Other
    }
}

/// What a line of the report is.
pub fn classify(line: &str) -> (e: Event)
    ensures
        e@ == line_event(line@),
{
    if matches(SEP, line) {
        Event::Separator
    } else if matches(ENTITY_DEF, line) {
        let all = all_captures(ENTITY_DEF, line);
        let ghost found_all = matches_view(all@);
        let mut entities: Vec<Entity> = Vec::new();
        let mut k: usize = 0;
        assert(entity_views(entities@) =~= line_entities(found_all, 0));
        while k < all.len()
            invariant
                k <= all.len(),
                found_all == matches_view(all@),
                entity_views(entities@) == line_entities(found_all, k as int),
            decreases all.len() - k,
        {
            let ghost before = entity_views(entities@);
            assert(found_all[k as int] == groups_view(all[k as int]@));
            let rest = group_text(&all[k], 3);
            let entity = entity_from(
                &all[k],
                matches(CONDITION_RE, rest.as_str()),
                &all_captures(CONDITION_RE, rest.as_str()),
            );
            entities.push(entity);
            k += 1;
            assert(entity_views(entities@) =~= before.push(entity@));
        }
        Event::Entities(entities)
    } else if matches(IMPLIES, line) {
        Event::Implication
    } else if matches(PARTS, line) {
        let all = all_captures(PARTS, line);
        let ghost expected = triples(matches_view(all@));
        let mut parts: Vec<(String, String, String)> = Vec::new();
        let mut k: usize = 0;
        assert(triple_views(parts@) =~= expected.take(0));
        while k < all.len()
            invariant
                k <= all.len(),
                expected == triples(matches_view(all@)),
                triple_views(parts@) == expected.take(k as int),
            decreases all.len() - k,
        {
            let ghost before = triple_views(parts@);
            assert(matches_view(all@)[k as int] == groups_view(all[k as int]@));
            let triple = (group_text(&all[k], 1), group_text(&all[k], 2), group_text(&all[k], 3));
            assert((triple.0@, triple.1@, triple.2@) == expected[k as int]);
            parts.push(triple);
            k += 1;
            assert(triple_views(parts@) =~= before.push(expected[k - 1]));
            assert(triple_views(parts@) =~= expected.take(k as int));
        }
        assert(expected.take(k as int) =~= expected);
        Event::Parts(parts)
    } else {
        Event::Other
    }
}

/// An operator other than `==` and `!=` stands before `null`.
#[derive(Debug, PartialEq)]
pub struct InvalidOperator {
    description: String,
}

impl View for InvalidOperator {
    type V = Seq<char>;

    /// What the error says.
    closed spec fn view(&self) -> Seq<char> {
        self.description@
    }
}

/// What the error says of the operator.
pub open spec fn invalid_operator(operator: Seq<char>) -> Seq<char> {
    "Invalid operator on NULL: "@ + operator
}

impl InvalidOperator {
    /// The error for the operator.
    pub fn for_operator(operator: &str) -> (e: InvalidOperator)
        ensures
            e@ == invalid_operator(operator@),
    {
        let mut description = String::new();
        description.append("Invalid operator on NULL: ");
        description.append(operator);
        assert(description@ =~= invalid_operator(operator@));
        InvalidOperator { description }
    }

    /// What the error says.
    pub fn description(&self) -> (r: &String)
        ensures
            r@ == self@,
    {
        &self.description
    }
}

/// The invariant that two expressions and an operator state: that `lhs` is
/// null or not, where `rhs` is `null`, else their comparison. An error
/// where another operator than `==` and `!=` stands before `null`.
pub open spec fn invariant_of(lhs: Seq<char>, operator: Seq<char>, rhs: Seq<char>) -> Result<
    InvariantView,
    Seq<char>,
> {
    if rhs == "null"@ {
        if operator == "=="@ {
            Ok(InvariantView::Null { exp: lhs })
        } else if operator == "!="@ {
            Ok(InvariantView::NotNull { exp: lhs })
        } else {
            Err(invalid_operator(operator))
        }
    } else {
        Ok(InvariantView::Comparison { lhs, operator, rhs })
    }
}

/// The invariant that two expressions and an operator state.
pub fn invariant_from(lhs: &String, operator: &String, rhs: &String) -> (r: Result<
    Invariant,
    InvalidOperator,
>)
    ensures
        match invariant_of(lhs@, operator@, rhs@) {
            Ok(inv) => r matches Ok(found) && found@ == inv,
            Err(e) => r matches Err(f) && f@ == e,
        },
{
    if is_text(rhs, "null") {
        if is_text(operator, "==") {
            Ok(Invariant::Null { exp: lhs.clone() })
        } else if is_text(operator, "!=") {
            Ok(Invariant::NotNull { exp: lhs.clone() })
        } else {
            Err(InvalidOperator::for_operator(operator.as_str()))
        }
    } else {
        Ok(
            Invariant::Comparison {
                lhs: lhs.clone(),
                operator: operator.clone(),
                rhs: rhs.clone(),
            },
        )
    }
}

/// How far the report has been read.
pub struct Parser {
    /// The header is over.
    pub started: bool,
    /// The lines of the program point are passed over.
    pub skipping: bool,
    /// The invariants of the program point are postconditions.
    pub at_exit: bool,
    /// The object or method of the program point.
    pub entity: String,
    /// The condition of the program point.
    pub cond: String,
    /// The preconditions read under that condition.
    pub pre: Vec<Invariant>,
    /// The postconditions read under that condition.
    pub post: Vec<Invariant>,
    /// What was read of the object or method under earlier conditions.
    pub inferences: Vec<Inferences>,
    /// What was read of earlier objects and methods.
    pub list: InvariantList,
}

/// What a `Parser` stands for.
pub struct ParserView {
    pub started: bool,
    pub skipping: bool,
    pub at_exit: bool,
    pub entity: Seq<char>,
    pub cond: Seq<char>,
    pub pre: Seq<InvariantView>,
    pub post: Seq<InvariantView>,
    pub inferences: Seq<InferencesView>,
    pub entries: Entries,
}

impl View for Parser {
    type V = ParserView;

    open spec fn view(&self) -> ParserView {
        ParserView {
            started: self.started,
            skipping: self.skipping,
            at_exit: self.at_exit,
            entity: self.entity@,
            cond: self.cond@,
            pre: invariant_views(self.pre@),
            post: invariant_views(self.post@),
            inferences: inference_views(self.inferences@),
            entries: self.list@,
        }
    }
}

/// Before the first line.
pub open spec fn initial() -> ParserView {
    ParserView {
        started: false,
        skipping: false,
        at_exit: false,
        entity: Seq::empty(),
        cond: Seq::empty(),
        pre: Seq::empty(),
        post: Seq::empty(),
        inferences: Seq::empty(),
        entries: Seq::empty(),
    }
}

/// The kind of program point is one whose invariants are read.
pub open spec fn known_kind(kind: Seq<char>) -> bool {
    kind == "OBJECT"@ || kind == "ENTER"@ || kind == "EXIT"@
}

/// The state after the start of a program point. A kind that is not known
/// has the lines that follow passed over. Else what was read under the
/// condition so far is closed where the object or method changes or, with
/// the same one, the condition does; and what was read of the object or
/// method is entered in the list where the object or method changes.
pub open spec fn entity_step(s: ParserView, e: EntityView) -> ParserView {
    if !known_kind(e.kind) {
        ParserView {
            started: s.started,
            skipping: true,
            at_exit: s.at_exit,
            entity: s.entity,
            cond: s.cond,
            pre: s.pre,
            post: s.post,
            inferences: s.inferences,
            entries: s.entries,
        }
    } else {
        let changed = s.entity != e.name && s.entity.len() > 0;
        let closes = changed || (s.entity == e.name && s.cond != e.condition);
        let inferences = if closes {
            s.inferences.push(InferencesView { cond: s.cond, pre: s.pre, post: s.post })
        } else {
            s.inferences
        };
        ParserView {
            started: s.started,
            skipping: false,
            at_exit: e.kind == "EXIT"@,
            entity: e.name,
            cond: e.condition,
            pre: if closes {
                Seq::empty()
            } else {
                s.pre
            },
            post: if closes {
                Seq::empty()
            } else {
                s.post
            },
            inferences: if changed {
                Seq::empty()
            } else {
                inferences
            },
            entries: if changed {
                put(s.entries, s.entity, inferences)
            } else {
                s.entries
            },
        }
    }
}

/// The state after the first `n` of the program points that a line starts.
pub open spec fn entities_step(s: ParserView, all: Seq<EntityView>, n: int) -> ParserView
    decreases n,
{
    if n <= 0 {
        s
    } else {
        entity_step(entities_step(s, all, n - 1), all[n - 1])
    }
}

/// The state with one more invariant, among the postconditions at an exit
/// and among the preconditions elsewhere.
pub open spec fn add_invariant(s: ParserView, inv: InvariantView) -> ParserView {
    ParserView {
        started: s.started,
        skipping: s.skipping,
        at_exit: s.at_exit,
        entity: s.entity,
        cond: s.cond,
        pre: if s.at_exit {
            s.pre
        } else {
            s.pre.push(inv)
        },
        post: if s.at_exit {
            s.post.push(inv)
        } else {
            s.post
        },
        inferences: s.inferences,
        entries: s.entries,
    }
}

/// The state after the invariants of the first `n` triples, or the first
/// error among them.
pub open spec fn parts_step(
    s: ParserView,
    all: Seq<(Seq<char>, Seq<char>, Seq<char>)>,
    n: int,
) -> Result<ParserView, Seq<char>>
    decreases n,
{
    if n <= 0 {
        Ok(s)
    } else {
        match parts_step(s, all, n - 1) {
            Err(e) => Err(e),
            Ok(t) => match invariant_of(all[n - 1].0, all[n - 1].1, all[n - 1].2) {
                Err(e) => Err(e),
                Ok(inv) => Ok(add_invariant(t, inv)),
            },
        }
    }
}

/// The state after one more line. In the header only a line of `=` counts:
/// it ends the header. After it a line of `=` changes nothing, the start of
/// a program point is taken, and of the other lines the invariants are
/// taken unless the lines of the program point are passed over.
pub open spec fn step(s: ParserView, event: EventView) -> Result<ParserView, Seq<char>> {
    if !s.started {
        Ok(
            ParserView {
                started: event is Separator,
                skipping: s.skipping,
                at_exit: s.at_exit,
                entity: s.entity,
                cond: s.cond,
                pre: s.pre,
                post: s.post,
                inferences: s.inferences,
                entries: s.entries,
            },
        )
    } else {
        match event {
            EventView::Separator => Ok(s),
            EventView::Entities(all) => Ok(entities_step(s, all, all.len() as int)),
            EventView::Implication => Ok(s),
            EventView::Parts(all) => if s.skipping {
                Ok(s)
            } else {
                parts_step(s, all, all.len() as int)
            },
            EventView::Other => Ok(s),
        }
    }
}

/// Once an invariant cannot be read, the triples after it change nothing.
pub proof fn lemma_parts_fail(
    s: ParserView,
    all: Seq<(Seq<char>, Seq<char>, Seq<char>)>,
    n: int,
    m: int,
)
    requires
        0 <= n <= m,
        parts_step(s, all, n) is Err,
    ensures
        parts_step(s, all, m) == parts_step(s, all, n),
    decreases m - n,
{
    if n < m {
        lemma_parts_fail(s, all, n, m - 1);
    }
}

impl Parser {
    /// The parser before the first line.
    pub fn new() -> (p: Parser)
        ensures
            p@ == initial(),
    {
        let p = Parser {
            started: false,
            skipping: false,
            at_exit: false,
            entity: String::new(),
            cond: String::new(),
            pre: Vec::new(),
            post: Vec::new(),
            inferences: Vec::new(),
            list: InvariantList::new(),
        };
        assert(p@.pre =~= Seq::<InvariantView>::empty());
        assert(p@.post =~= Seq::<InvariantView>::empty());
        assert(p@.inferences =~= Seq::<InferencesView>::empty());
        p
    }

    /// Takes the start of a program point: see `entity_step`.
    pub fn start(&mut self, e: &Entity)
        ensures
            final(self)@ == entity_step(old(self)@, e@),
    {
        let ghost before = self@;
        if !(is_text(&e.kind, "OBJECT") || is_text(&e.kind, "ENTER") || is_text(&e.kind, "EXIT")) {
            self.skipping = true;
            return ;
        }
        self.skipping = false;
        self.at_exit = is_text(&e.kind, "EXIT");
        let changed = self.entity != e.name && self.entity.as_str().unicode_len() > 0;
        let same = self.entity == e.name;
        let closes = changed || (same && self.cond != e.condition);
        if closes {
            let mut pre: Vec<Invariant> = Vec::new();
            let mut post: Vec<Invariant> = Vec::new();
            std::mem::swap(&mut pre, &mut self.pre);
            std::mem::swap(&mut post, &mut self.post);
            let closed = Inferences { cond: self.cond.clone(), pre, post };
            let ghost earlier = inference_views(self.inferences@);
            self.inferences.push(closed);
            assert(inference_views(self.inferences@) =~= earlier.push(closed@));
            assert(invariant_views(self.pre@) =~= Seq::<InvariantView>::empty());
            assert(invariant_views(self.post@) =~= Seq::<InvariantView>::empty());
        }
        if changed {
            let mut inferences: Vec<Inferences> = Vec::new();
            std::mem::swap(&mut inferences, &mut self.inferences);
            self.list.insert(self.entity.clone(), inferences);
            assert(inference_views(self.inferences@) =~= Seq::<InferencesView>::empty());
        }
        self.entity = e.name.clone();
        self.cond = e.condition.clone();
    }

    /// Takes one more line: see `step`.
    pub fn step(&mut self, event: &Event) -> (r: Result<(), InvalidOperator>)
        ensures
            match step(old(self)@, event@) {
                Ok(next) => r is Ok && final(self)@ == next,
                Err(e) => r matches Err(f) && f@ == e,
            },
    {
        if !self.started {
            match event {
                Event::Separator => {
                    self.started = true;
                },
                _ => {},
            }
            return Ok(());
        }
        match event {
            Event::Entities(all) => {
                let ghost before = self@;
                let mut k: usize = 0;
                while k < all.len()
                    invariant
                        k <= all.len(),
                        self@ == entities_step(before, entity_views(all@), k as int),
                    decreases all.len() - k,
                {
                    assert(entity_views(all@)[k as int] == all[k as int]@);
                    self.start(&all[k]);
                    k += 1;
                }
                Ok(())
            },
            Event::Parts(all) => {
                if self.skipping {
                    return Ok(());
                }
                let ghost before = self@;
                let ghost triples = triple_views(all@);
                let mut k: usize = 0;
                while k < all.len()
                    invariant
                        k <= all.len(),
                        before == old(self)@,
                        before.started,
                        !before.skipping,
                        event@ == EventView::Parts(triples),
                        triples == triple_views(all@),
                        parts_step(before, triples, k as int) == Ok::<ParserView, Seq<char>>(
                            self@,
                        ),
                    decreases all.len() - k,
                {
                    assert(triples[k as int] == (all[k as int].0@, all[k as int].1@, all[k as int].2@));
                    match invariant_from(&all[k].0, &all[k].1, &all[k].2) {
                        Ok(inv) => {
                            if self.at_exit {
                                let ghost earlier = invariant_views(self.post@);
                                self.post.push(inv);
                                assert(invariant_views(self.post@) =~= earlier.push(inv@));
                            } else {
                                let ghost earlier = invariant_views(self.pre@);
                                self.pre.push(inv);
                                assert(invariant_views(self.pre@) =~= earlier.push(inv@));
                            }
                        },
                        Err(e) => {
                            proof {
                                lemma_parts_fail(before, triples, k as int + 1, all.len() as int);
                            }
                            return Err(e);
                        },
                    }
                    k += 1;
                }
                Ok(())
            },
            _ => Ok(()),
        }
    }
}

/// The state after the first `n` lines, or the first error.
pub open spec fn lines_step(lines: Seq<Seq<char>>, n: int) -> Result<ParserView, Seq<char>>
    decreases n,
{
    if n <= 0 {
        Ok(initial())
    } else {
        match lines_step(lines, n - 1) {
            Err(e) => Err(e),
            Ok(s) => step(s, line_event(lines[n - 1])),
        }
    }
}

/// Once a line cannot be read, the lines after it change nothing.
pub proof fn lemma_lines_fail(lines: Seq<Seq<char>>, n: int, m: int)
    requires
        0 <= n <= m,
        lines_step(lines, n) is Err,
    ensures
        lines_step(lines, m) == lines_step(lines, n),
    decreases m - n,
{
    if n < m {
        lemma_lines_fail(lines, n, m - 1);
    }
}

/// What a report says: what was entered in the list after all its lines.
/// What was read of the last object or method is never entered.
pub open spec fn report(text: Seq<char>) -> Result<Entries, Seq<char>> {
    let lines = split(text, '\n');
    match lines_step(lines, lines.len() as int) {
        Ok(s) => Ok(s.entries),
        Err(e) => Err(e),
    }
}

/// The start of program points leaves the names of the entries distinct.
pub proof fn lemma_entities_keep_distinct(s: ParserView, all: Seq<EntityView>, n: int)
    requires
        distinct_entries(s.entries),
    ensures
        distinct_entries(entities_step(s, all, n).entries),
    decreases n,
{
    if n > 0 {
        lemma_entities_keep_distinct(s, all, n - 1);
        let before = entities_step(s, all, n - 1);
        let e = all[n - 1];
        if known_kind(e.kind) && before.entity != e.name && before.entity.len() > 0 {
            let inferences = before.inferences.push(
                InferencesView { cond: before.cond, pre: before.pre, post: before.post },
            );
            law_put_keeps_names_distinct(before.entries, before.entity, inferences);
        }
    }
}

/// Invariants change no entry.
pub proof fn lemma_parts_keep_entries(
    s: ParserView,
    all: Seq<(Seq<char>, Seq<char>, Seq<char>)>,
    n: int,
)
    ensures
        parts_step(s, all, n) matches Ok(t) ==> t.entries == s.entries,
    decreases n,
{
    if n > 0 {
        lemma_parts_keep_entries(s, all, n - 1);
    }
}

/// After any number of lines no two entries have one name.
pub proof fn lemma_lines_keep_distinct(lines: Seq<Seq<char>>, n: int)
    ensures
        lines_step(lines, n) matches Ok(s) ==> distinct_entries(s.entries),
    decreases n,
{
    if n > 0 {
        lemma_lines_keep_distinct(lines, n - 1);
        if let Ok(s) = lines_step(lines, n - 1) {
            match line_event(lines[n - 1]) {
                EventView::Entities(all) => {
                    lemma_entities_keep_distinct(s, all, all.len() as int);
                },
                EventView::Parts(all) => {
                    lemma_parts_keep_entries(s, all, all.len() as int);
                },
                _ => {},
            }
        }
    }
}

/// No two entries of a report have one name.
pub proof fn law_report_names_distinct(text: Seq<char>)
    ensures
        report(text) matches Ok(entries) ==> distinct_entries(entries),
{
    let lines = split(text, '\n');
    lemma_lines_keep_distinct(lines, lines.len() as int);
}

/// The reader of the report.
pub struct Invariants {}

impl Invariants {
    /// Reads a report: see `report`.
    pub fn parse(daikon_inv: &str) -> (r: Result<InvariantList, InvalidOperator>)
        ensures
            match report(daikon_inv@) {
                Ok(entries) => r matches Ok(list) && list@ == entries && distinct_entries(list@),
                Err(e) => r matches Err(f) && f@ == e,
            },
    {
        proof {
            law_report_names_distinct(daikon_inv@);
        }
        let lines = split_at_char(daikon_inv, '\n');
        let mut parser = Parser::new();
        let mut k: usize = 0;
        while k < lines.len()
            invariant
                k <= lines.len(),
                texts(lines@) == split(daikon_inv@, '\n'),
                lines_step(texts(lines@), k as int) == Ok::<ParserView, Seq<char>>(parser@),
            decreases lines.len() - k,
        {
            assert(texts(lines@)[k as int] == lines[k as int]@);
            let event = classify(lines[k].as_str());
            match parser.step(&event) {
                Ok(()) => {},
                Err(e) => {
                    proof {
                        lemma_lines_fail(texts(lines@), k as int + 1, lines.len() as int);
                    }
                    return Err(e);
                },
            }
            k += 1;
        }
        Ok(parser.list)
    }
}

/// The text with every match of the pattern replaced, or the text itself
/// where the pattern does not compile.
pub open spec fn replaced(pattern: Seq<char>, text: Seq<char>, replacement: Seq<char>) -> Seq<
    char,
> {
    match regex_replace_all(pattern, text, replacement) {
        Some(r) => r,
        None => text,
    }
}

/// The text with every match of the pattern replaced.
pub fn replace(pattern: &str, text: &str, replacement: &str) -> (r: String)
    ensures
        r@ == replaced(pattern@, text@, replacement@),
{
    match replace_all(pattern, text, replacement) {
        Some(r) => r,
        None => text.to_owned(),
    }
}

/// The name under which the report has a method: its signature without the
/// names of the arguments and without the comma after the last one.
pub open spec fn report_name(signature: Seq<char>) -> Seq<char> {
    replaced(COMMA_RE@, replaced(SIG_RE@, signature, "$pref$type"@), "$paren"@)
}

/// What the report says of the method that `method` declares in the class
/// `class` of the package `package`; nothing where the declaration has an
/// argument that is no type and name.
pub open spec fn method_entry(
    entries: Entries,
    package: Seq<char>,
    class: Seq<char>,
    method: Seq<char>,
) -> Option<Seq<InferencesView>> {
    match signature_text(
        package,
        class,
        method_matches(method),
        true,
        method_matches(method).len() as int,
    ) {
        Ok((_, signature)) => lookup(entries, report_name(signature)),
        Err(_) => None,
    }
}

impl InvariantList {
    /// What the report says of a method: see `method_entry`.
    pub fn invariants_for(&self, package: &str, class: &str, method: &str) -> (r: Option<
        &Vec<Inferences>,
    >)
        ensures
            match method_entry(self@, package@, class@, method@) {
                Some(found) => r matches Some(v) && inference_views(v@) == found,
                None => r is None,
            },
    {
        match parse_java_method(package, class, method) {
            Ok((_, signature)) => {
                let signature = replace(SIG_RE, signature.as_str(), "$pref$type");
                let signature = replace(COMMA_RE, signature.as_str(), "$paren");
                self.get(signature.as_str())
            },
            Err(_) => None,
        }
    }
}

} // verus!
