//! The difference between two values, computed by recursion on their shapes.
use vstd::prelude::*;
use vstd::string::StringExecFns;

use crate::sequences::{
    capped, diff_within, element_equality, kept_elements, lays_out, layout, lists_in, Interspersed,
    ReplaceGroup, Updates, UpdatesGroup,
};
use crate::script::{lcs, lemma_lcs_transpose, traceback};
use crate::tree::{
    consistent_tests, equal_nodes, equal_values, field_nodes, lemma_equal_reflexive,
    lemma_equal_symmetric, table_fits, transposed, unique_names, Content, Field, Tree,
};

verus! {

/// The difference between two values, which need not have the same type.
#[allow(inconsistent_fields)]
pub enum Diff {
    /// The two values are equal.
    Equal,
    /// Fallback: the two values are unequal and have no common structure to look into.
    Replace { from: usize, to: usize },
    /// Both values are records, or both take the same case of a union (`variant` names it).
    User { from: u64, to: u64, variant: Option<String>, value: Value },
    /// Both values are ordered collections.
    Sequence { from: u64, to: u64, updates: Updates },
}

/// The fields of two records or union cases, compared.
#[allow(inconsistent_fields)]
pub enum Value {
    /// Fields compared by position.
    Tuple { updates: Updates },
    /// Fields compared by name.
    Struct {
        /// Fields on both sides whose values differ.
        updates: Vec<(String, Diff)>,
        /// Fields only in the `from` value.
        deletions: Vec<(String, usize)>,
        /// Fields only in the `to` value.
        insertions: Vec<(String, usize)>,
        /// Fields on both sides with equal values.
        unchanged: Vec<String>,
    },
}

/// The kind of a diff and what it records at its top level.
pub enum Outline {
    Equal,
    Replace(usize, usize),
    User(u64, u64, Option<Seq<char>>, bool),
    Sequence(u64, u64),
}

pub open spec fn fields_of(c: Content) -> Seq<Field> {
    match c {
        Content::Struct { fields, .. } => fields@,
        Content::Enum { fields, .. } => fields@,
        _ => seq![],
    }
}

pub open spec fn has_name(fs: Seq<Field>, n: Seq<char>) -> bool {
    exists|i: int| 0 <= i < fs.len() && #[trigger] fs[i].name@ == n
}

pub open spec fn names_of(fs: Seq<Field>) -> Set<Seq<char>> {
    Set::new(|n: Seq<char>| has_name(fs, n))
}

/// Names among the first `k` fields of `fs` that `ts` has too, with an equal value.
pub open spec fn unchanged_names(eqt: Vec<Vec<bool>>, ft: Tree, fs: Seq<Field>, tt: Tree, ts: Seq<Field>, k: int) -> Set<Seq<char>> {
    Set::new(
        |n: Seq<char>|
            exists|i: int, j: int|
                0 <= i < k && 0 <= j < ts.len() && #[trigger] fs[i].name@ == n && #[trigger] ts[j].name@ == n
                    && equal_nodes(eqt, ft, fs[i].node as nat, tt, ts[j].node as nat),
    )
}

/// Names among the first `k` fields of `fs` that `ts` has too, with another value.
pub open spec fn updated_names(eqt: Vec<Vec<bool>>, ft: Tree, fs: Seq<Field>, tt: Tree, ts: Seq<Field>, k: int) -> Set<Seq<char>> {
    Set::new(
        |n: Seq<char>|
            exists|i: int, j: int|
                0 <= i < k && 0 <= j < ts.len() && #[trigger] fs[i].name@ == n && #[trigger] ts[j].name@ == n
                    && !equal_nodes(eqt, ft, fs[i].node as nat, tt, ts[j].node as nat),
    )
}

/// Names among the first `k` fields of `fs` that `ts` lacks.
pub open spec fn missing_names(fs: Seq<Field>, ts: Seq<Field>, k: int) -> Set<Seq<char>> {
    Set::new(
        |n: Seq<char>| exists|i: int| 0 <= i < k && #[trigger] fs[i].name@ == n && !has_name(ts, n),
    )
}

pub open spec fn diff_keys(v: Seq<(String, Diff)>) -> Set<Seq<char>> {
    Set::new(|n: Seq<char>| exists|i: int| 0 <= i < v.len() && #[trigger] v[i].0@ == n)
}

pub open spec fn node_keys(v: Seq<(String, usize)>) -> Set<Seq<char>> {
    Set::new(|n: Seq<char>| exists|i: int| 0 <= i < v.len() && #[trigger] v[i].0@ == n)
}

pub open spec fn string_set(v: Seq<String>) -> Set<Seq<char>> {
    Set::new(|n: Seq<char>| exists|i: int| 0 <= i < v.len() && #[trigger] v[i]@ == n)
}

/// Number of the first `k` fields of `fs` that `ts` has too, with an equal value.
pub open spec fn count_unchanged(eqt: Vec<Vec<bool>>, ft: Tree, fs: Seq<Field>, tt: Tree, ts: Seq<Field>, k: nat) -> nat
    decreases k,
{
    if k == 0 {
        0
    } else {
        count_unchanged(eqt, ft, fs, tt, ts, (k - 1) as nat) + if unchanged_at(eqt, ft, fs, tt, ts, k - 1) {
            1nat
        } else {
            0nat
        }
    }
}

/// Field `i` of `fs` is in `ts` too, with an equal value.
pub open spec fn unchanged_at(eqt: Vec<Vec<bool>>, ft: Tree, fs: Seq<Field>, tt: Tree, ts: Seq<Field>, i: int) -> bool {
    exists|j: int|
        0 <= j < ts.len() && #[trigger] ts[j].name@ == fs[i].name@ && equal_nodes(eqt, 
            ft,
            fs[i].node as nat,
            tt,
            ts[j].node as nat,
        )
}

/// `d` is, at its top level, the diff of node `f` of `ft` against node `t` of `tt`.
pub open spec fn diff_for(eqt: Vec<Vec<bool>>, ft: Tree, f: nat, tt: Tree, t: nat, d: Diff) -> bool {
    &&& d.outline() == expected_outline(eqt, ft, f, tt, t)
    &&& d.closeness_spec() == expected_closeness(eqt, ft, f, tt, t)
}

/// Each entry of `v` names one of the first `k` fields of `fs` and a field of `ts`, and holds the
/// diff of their values.
pub open spec fn updates_from(
    eqt: Vec<Vec<bool>>,
    ft: Tree,
    fs: Seq<Field>,
    tt: Tree,
    ts: Seq<Field>,
    v: Seq<(String, Diff)>,
    k: int,
) -> bool {
    forall|p: int|
        #![trigger v[p]]
        0 <= p < v.len() ==> exists|i: int, j: int|
            #![trigger fs[i], ts[j]]
            0 <= i < k && 0 <= j < ts.len() && fs[i].name@ == v[p].0@ && ts[j].name@ == v[p].0@
                && diff_for(eqt, ft, fs[i].node as nat, tt, ts[j].node as nat, v[p].1)
}

/// Each entry of `v` names one of the first `k` fields of `fs` and holds that field's node.
pub open spec fn nodes_from(fs: Seq<Field>, v: Seq<(String, usize)>, k: int) -> bool {
    forall|p: int|
        #![trigger v[p]]
        0 <= p < v.len() ==> exists|i: int|
            #![trigger fs[i]]
            0 <= i < k && fs[i].name@ == v[p].0@ && fs[i].node == v[p].1
}

/// Each entry of `v` is the name of one of the first `k` fields of `fs`.
pub open spec fn names_from(fs: Seq<Field>, v: Seq<String>, k: int) -> bool {
    forall|p: int|
        #![trigger v[p]]
        0 <= p < v.len() ==> exists|i: int| #![trigger fs[i]] 0 <= i < k && fs[i].name@ == v[p]@
}

pub open spec fn distinct_diff_keys(v: Seq<(String, Diff)>) -> bool {
    forall|p: int, q: int| 0 <= p < q < v.len() ==> #[trigger] v[p].0@ != #[trigger] v[q].0@
}

pub open spec fn distinct_node_keys(v: Seq<(String, usize)>) -> bool {
    forall|p: int, q: int| 0 <= p < q < v.len() ==> #[trigger] v[p].0@ != #[trigger] v[q].0@
}

pub open spec fn distinct_strings(v: Seq<String>) -> bool {
    forall|p: int, q: int| 0 <= p < q < v.len() ==> #[trigger] v[p]@ != #[trigger] v[q]@
}

/// `v` compares the fields `fs` of node `f` with the fields `ts` of node `t` by name.
pub open spec fn by_name(eqt: Vec<Vec<bool>>, ft: Tree, fs: Seq<Field>, tt: Tree, ts: Seq<Field>, v: Value) -> bool {
    match v {
        Value::Struct { updates, deletions, insertions, unchanged } => {
            &&& diff_keys(updates@) == updated_names(eqt, ft, fs, tt, ts, fs.len() as int)
            &&& node_keys(deletions@) == missing_names(fs, ts, fs.len() as int)
            &&& node_keys(insertions@) == missing_names(ts, fs, ts.len() as int)
            &&& string_set(unchanged@) == unchanged_names(eqt, ft, fs, tt, ts, fs.len() as int)
            &&& unchanged@.len() == count_unchanged(eqt, ft, fs, tt, ts, fs.len())
            &&& updates_from(eqt, ft, fs, tt, ts, updates@, fs.len() as int)
            &&& nodes_from(fs, deletions@, fs.len() as int)
            &&& nodes_from(ts, insertions@, ts.len() as int)
            &&& names_from(fs, unchanged@, fs.len() as int)
            &&& distinct_diff_keys(updates@)
            &&& distinct_node_keys(deletions@)
            &&& distinct_node_keys(insertions@)
            &&& distinct_strings(unchanged@)
        },
        _ => false,
    }
}

/// What `compare` makes of node `f` of `ft` and node `t` of `tt` at the top level.
pub open spec fn expected_outline(eqt: Vec<Vec<bool>>, ft: Tree, f: nat, tt: Tree, t: nat) -> Outline {
    if equal_nodes(eqt, ft, f, tt, t) {
        Outline::Equal
    } else {
        let a = ft.nodes[f as int];
        let b = tt.nodes[t as int];
        let replace = Outline::Replace(f as usize, t as usize);
        match (a.content, b.content) {
            (Content::Struct { kind: k1, .. }, Content::Struct { kind: k2, .. }) => {
                if k1 == k2 {
                    Outline::User(a.type_id, b.type_id, None, k1.positional_spec())
                } else {
                    replace
                }
            },
            (
                Content::Enum { variant: v1, kind: k1, .. },
                Content::Enum { variant: v2, kind: k2, .. },
            ) => {
                if v1@ == v2@ && k1 == k2 {
                    Outline::User(a.type_id, b.type_id, Some(v1@), k1.positional_spec())
                } else {
                    replace
                }
            },
            (Content::Optional { value: x }, Content::Optional { value: y }) => {
                if x is Some && y is Some {
                    Outline::User(a.type_id, b.type_id, Some("Some"@), true)
                } else {
                    replace
                }
            },
            (Content::List { .. }, Content::List { .. }) => Outline::Sequence(a.type_id, b.type_id),
            _ => replace,
        }
    }
}

impl Value {
    pub open spec fn closeness_spec(self) -> nat {
        match self {
            Value::Tuple { updates } => updates.kept_total(),
            Value::Struct { unchanged, .. } => unchanged@.len(),
        }
    }

    fn closeness(&self) -> (r: u64)
        ensures
            r == capped(self.closeness_spec()),
    {
        match self {
            Value::Tuple { updates } => updates.closeness(),
            Value::Struct { unchanged, .. } => unchanged.len() as u64,
        }
    }
}

impl Diff {
    pub open spec fn outline(self) -> Outline {
        match self {
            Diff::Equal => Outline::Equal,
            Diff::Replace { from, to } => Outline::Replace(from, to),
            Diff::User { from, to, variant, value } => Outline::User(
                from,
                to,
                match variant {
                    Some(v) => Some(v@),
                    None => None,
                },
                value is Tuple,
            ),
            Diff::Sequence { from, to, .. } => Outline::Sequence(from, to),
        }
    }

    /// Similarity score used to rank pairings: equal 1, replace 0, a sequence its kept
    /// elements, a record its unchanged fields plus one when both sides have one type.
    pub open spec fn closeness_spec(self) -> nat {
        match self {
            Diff::Equal => 1,
            Diff::Replace { .. } => 0,
            Diff::Sequence { updates, .. } => updates.kept_total(),
            Diff::User { from, to, value, .. } => value.closeness_spec() + if from == to {
                1nat
            } else {
                0nat
            },
        }
    }

    /// Returns true if the two values were equal.
    pub fn is_equal(&self) -> (r: bool)
        ensures
            r == self is Equal,
    {
        matches!(self, Diff::Equal)
    }

    pub(crate) fn closeness(&self) -> (r: u64)
        ensures
            r == capped(self.closeness_spec()),
    {
        match self {
            Diff::Equal => 1,
            Diff::Replace { .. } => 0,
            Diff::Sequence { updates, .. } => updates.closeness(),
            Diff::User { from, to, value, .. } => {
                let c = value.closeness();
                if *from == *to && c < u64::MAX {
                    c + 1
                } else {
                    c
                }
            },
        }
    }
}

/// For two optional values that both hold one: no change when the held values are equal, else
/// a single group that removes the one and adds the other.
pub open spec fn present_change(eqt: Vec<Vec<bool>>, ft: Tree, x: usize, tt: Tree, y: usize, u: Updates) -> bool {
    &&& u.0.values@.len() == 0
    &&& u.0.last is None
    &&& equal_nodes(eqt, ft, x as nat, tt, y as nat) ==> u.0.first is None
    &&& !equal_nodes(eqt, ft, x as nat, tt, y as nat) ==> {
        &&& u.0.first is Some
        &&& u.0.first->Some_0.0.first is Some
        &&& u.0.first->Some_0.0.values@.len() == 0
        &&& u.0.first->Some_0.0.last is None
        &&& u.0.first->Some_0.0.first->Some_0.removals@ == seq![x]
        &&& u.0.first->Some_0.0.first->Some_0.additions@ == seq![y]
    }
}

/// What a diff records below its top level, for node `f` of `ft` and node `t` of `tt`:
/// fields matched by name, or the kept elements of the edit script between the children.
pub open spec fn expected_detail(eqt: Vec<Vec<bool>>, ft: Tree, f: nat, tt: Tree, t: nat, r: Diff) -> bool {
    let a = ft.nodes[f as int].content;
    let b = tt.nodes[t as int].content;
    let xs = a.children();
    let ys = b.children();
    match r {
        Diff::User { value, .. } => match value {
            Value::Struct { .. } => by_name(eqt, ft, fields_of(a), tt, fields_of(b), value),
            Value::Tuple { updates } => match (a, b) {
                (
                    Content::Optional { value: Some(x) },
                    Content::Optional { value: Some(y) },
                ) => present_change(eqt, ft, x, tt, y, updates),
                _ => positional_detail(eqt, ft, xs, tt, ys, updates),
            },
        },
        Diff::Sequence { updates, .. } => positional_detail(eqt, ft, xs, tt, ys, updates),
        _ => true,
    }
}

/// An edit script between two lists of nodes keeps as many elements as a longest common
/// subsequence holds, exactly those that the traceback keeps, and lays out the traceback front
/// to back with each run of removals and additions refined.
pub open spec fn positional_detail(eqt: Vec<Vec<bool>>, ft: Tree, xs: Seq<usize>, tt: Tree, ys: Seq<usize>, u: Updates) -> bool {
    &&& u.kept_total() == updates_kept_lcs(eqt, ft, xs, tt, ys)
    &&& u.kept_nodes() == kept_elements(xs, traceback(element_equality(eqt, ft, xs, tt, ys), xs.len(), ys.len()))
    &&& lays_out(eqt, ft, tt, u.entries(), layout(eqt, ft, tt, xs, ys, traceback(element_equality(eqt, ft, xs, tt, ys), xs.len(), ys.len()), seq![], seq![]))
}

/// The closeness of the diff of node `f` of `ft` against node `t` of `tt`.
pub open spec fn expected_closeness(eqt: Vec<Vec<bool>>, ft: Tree, f: nat, tt: Tree, t: nat) -> nat {
    let a = ft.nodes[f as int].content;
    let b = tt.nodes[t as int].content;
    let kept = updates_kept_lcs(eqt, ft, a.children(), tt, b.children());
    match expected_outline(eqt, ft, f, tt, t) {
        Outline::Equal => 1,
        Outline::Replace(..) => 0,
        Outline::Sequence(..) => kept,
        Outline::User(from, to, _, positional) => (if a is Optional {
            0
        } else if positional {
            kept
        } else {
            count_unchanged(eqt, ft, fields_of(a), tt, fields_of(b), fields_of(a).len())
        }) + if from == to {
            1nat
        } else {
            0nat
        },
    }
}

/// `w(i, j)`: how close removal `i` of `r` is to addition `j` of `a`, capped to fit a `u64`.
pub open spec fn closeness_weights(eqt: Vec<Vec<bool>>, ft: Tree, r: Seq<usize>, tt: Tree, a: Seq<usize>) -> spec_fn(
    int,
    int,
) -> nat {
    |i: int, j: int| capped(expected_closeness(eqt, ft, r[i] as nat, tt, a[j] as nat))
}

/// Length of a longest common subsequence of two lists of nodes, under node equality.
pub open spec fn updates_kept_lcs(eqt: Vec<Vec<bool>>, ft: Tree, xs: Seq<usize>, tt: Tree, ys: Seq<usize>) -> nat {
    lcs(element_equality(eqt, ft, xs, tt, ys), xs.len(), ys.len())
}

/// Looks a field up by name.
fn find_field(fields: &Vec<Field>, name: &String) -> (r: Option<usize>)
    ensures
        match r {
            Some(j) => j < fields@.len() && fields@[j as int].name@ == name@,
            None => !has_name(fields@, name@),
        },
{
    let mut j: usize = 0;
    while j < fields.len()
        invariant
            j <= fields@.len(),
            forall|k: int| 0 <= k < j ==> fields@[k].name@ != name@,
        decreases fields@.len() - j,
    {
        if fields[j].name == *name {
            return Some(j);
        }
        j += 1;
    }
    None
}

/// Compares two field lists by name.
#[verifier::rlimit(100)]
fn compare_named(eqt: &Vec<Vec<bool>>, 
    ft: &Tree,
    tt: &Tree,
    fs: &Vec<Field>,
    ts: &Vec<Field>,
    Ghost(bound): Ghost<nat>,
) -> (v: Value)
    requires
        ft.wf(),
        tt.wf(),
        table_fits(*eqt, *ft, *tt),
        unique_names(fs@),
        unique_names(ts@),
        lists_in(*ft, field_nodes(fs@), *tt, field_nodes(ts@), bound),
    ensures
        by_name(*eqt, *ft, fs@, *tt, ts@, v),
    decreases bound, 3nat,
{
    let mut updates: Vec<(String, Diff)> = Vec::new();
    let mut deletions: Vec<(String, usize)> = Vec::new();
    let mut insertions: Vec<(String, usize)> = Vec::new();
    let mut unchanged: Vec<String> = Vec::new();
    let mut i: usize = 0;
    while i < fs.len()
        invariant
            i <= fs@.len(),
            ft.wf(),
            tt.wf(),
            table_fits(*eqt, *ft, *tt),
            unique_names(fs@),
            unique_names(ts@),
            lists_in(*ft, field_nodes(fs@), *tt, field_nodes(ts@), bound),
            diff_keys(updates@) == updated_names(*eqt, *ft, fs@, *tt, ts@, i as int),
            node_keys(deletions@) == missing_names(fs@, ts@, i as int),
            string_set(unchanged@) == unchanged_names(*eqt, *ft, fs@, *tt, ts@, i as int),
            unchanged@.len() == count_unchanged(*eqt, *ft, fs@, *tt, ts@, i as nat),
            updates_from(*eqt, *ft, fs@, *tt, ts@, updates@, i as int),
            nodes_from(fs@, deletions@, i as int),
            names_from(fs@, unchanged@, i as int),
            distinct_diff_keys(updates@),
            distinct_node_keys(deletions@),
            distinct_strings(unchanged@),
        decreases fs@.len() - i,
    {
        let name = &fs[i].name;
        let ghost n = name@;
        proof {
            assert(field_nodes(fs@)[i as int] == fs@[i as int].node);
        }
        match find_field(ts, name) {
            Some(j) => {
                proof {
                    assert(field_nodes(ts@)[j as int] == ts@[j as int].node);
                }
                let d = compare_within(eqt, ft, tt, fs[i].node, ts[j].node);
                let eq = d.is_equal();
                proof {
                    assert forall|m: Seq<char>|
                        #[trigger] missing_names(fs@, ts@, i + 1).contains(m) == missing_names(
                            fs@,
                            ts@,
                            i as int,
                        ).contains(m) by {
                        if missing_names(fs@, ts@, i + 1).contains(m) {
                            let k = choose|k: int|
                                0 <= k < i + 1 && #[trigger] fs@[k].name@ == m && !has_name(ts@, m);
                            if k == i {
                                assert(ts@[j as int].name@ == m);
                            }
                        }
                    }
                    assert(missing_names(fs@, ts@, i + 1) =~= missing_names(fs@, ts@, i as int));
                }
                if eq {
                    proof {
                        assert(unchanged_at(*eqt, *ft, fs@, *tt, ts@, i as int));
                        let old_set = unchanged_names(*eqt, *ft, fs@, *tt, ts@, i as int);
                        let new_set = unchanged_names(*eqt, *ft, fs@, *tt, ts@, i + 1);
                        assert forall|m: Seq<char>|
                            #[trigger] new_set.contains(m) == old_set.insert(n).contains(m) by {
                            if m == n {
                                assert(fs@[i as int].name@ == m && ts@[j as int].name@ == m);
                            }
                        }
                        assert(new_set =~= old_set.insert(n));
                        let old_u = updated_names(*eqt, *ft, fs@, *tt, ts@, i as int);
                        let new_u = updated_names(*eqt, *ft, fs@, *tt, ts@, i + 1);
                        assert forall|m: Seq<char>| #[trigger] new_u.contains(m) == old_u.contains(m) by {
                            if new_u.contains(m) {
                                let (x, y) = choose|x: int, y: int|
                                    0 <= x < i + 1 && 0 <= y < ts@.len() && #[trigger] fs@[x].name@ == m
                                        && #[trigger] ts@[y].name@ == m && !equal_nodes(*eqt, 
                                        *ft,
                                        fs@[x].node as nat,
                                        *tt,
                                        ts@[y].node as nat,
                                    );
                                if x == i {
                                    assert(y == j);
                                }
                            }
                        }
                        assert(new_u =~= old_u);
                    }
                    let ghost before = unchanged@;
                    unchanged.push(name.clone());
                    proof {
                        assert(string_set(unchanged@) =~= string_set(before).insert(n)) by {
                            assert(unchanged@[before.len() as int]@ == n);
                            assert forall|m: Seq<char>| #[trigger] string_set(unchanged@).contains(m) implies string_set(before).insert(n).contains(m) by {
                                let k = choose|k: int| 0 <= k < unchanged@.len() && #[trigger] unchanged@[k]@ == m;
                                if k < before.len() {
                                    assert(before[k] == unchanged@[k]);
                                }
                            }
                            assert forall|m: Seq<char>| #[trigger] string_set(before).contains(m) implies string_set(unchanged@).contains(m) by {
                                let k = choose|k: int| 0 <= k < before.len() && #[trigger] before[k]@ == m;
                                assert(unchanged@[k] == before[k]);
                            }
                        }
                    }
                } else {
                    proof {
                        if unchanged_at(*eqt, *ft, fs@, *tt, ts@, i as int) {
                            let y = choose|y: int|
                                0 <= y < ts@.len() && #[trigger] ts@[y].name@ == fs@[i as int].name@
                                    && equal_nodes(*eqt, *ft, fs@[i as int].node as nat, *tt, ts@[y].node as nat);
                            assert(y == j);
                        }
                        let old_set = updated_names(*eqt, *ft, fs@, *tt, ts@, i as int);
                        let new_set = updated_names(*eqt, *ft, fs@, *tt, ts@, i + 1);
                        assert forall|m: Seq<char>|
                            #[trigger] new_set.contains(m) == old_set.insert(n).contains(m) by {
                            if m == n {
                                assert(fs@[i as int].name@ == m && ts@[j as int].name@ == m);
                            }
                        }
                        assert(new_set =~= old_set.insert(n));
                        let old_u = unchanged_names(*eqt, *ft, fs@, *tt, ts@, i as int);
                        let new_u = unchanged_names(*eqt, *ft, fs@, *tt, ts@, i + 1);
                        assert forall|m: Seq<char>| #[trigger] new_u.contains(m) == old_u.contains(m) by {
                            if new_u.contains(m) {
                                let (x, y) = choose|x: int, y: int|
                                    0 <= x < i + 1 && 0 <= y < ts@.len() && #[trigger] fs@[x].name@ == m
                                        && #[trigger] ts@[y].name@ == m && equal_nodes(*eqt, 
                                        *ft,
                                        fs@[x].node as nat,
                                        *tt,
                                        ts@[y].node as nat,
                                    );
                                if x == i {
                                    assert(y == j);
                                }
                            }
                        }
                        assert(new_u =~= old_u);
                    }
                    let ghost before = updates@;
                    updates.push((name.clone(), d));
                    proof {
                        assert(diff_for(*eqt, *ft, fs@[i as int].node as nat, *tt, ts@[j as int].node as nat, d));
                        assert forall|p: int| #![trigger updates@[p]] 0 <= p < updates@.len() implies exists|x: int, y: int|
                            #![trigger fs@[x], ts@[y]]
                            0 <= x < i + 1 && 0 <= y < ts@.len() && fs@[x].name@ == updates@[p].0@
                                && ts@[y].name@ == updates@[p].0@ && diff_for(
                                *eqt,
                                *ft,
                                fs@[x].node as nat,
                                *tt,
                                ts@[y].node as nat,
                                updates@[p].1,
                            ) by {
                            if p < before.len() {
                                assert(updates@[p] == before[p]);
                                assert(before[p] == before[p]);
                            } else {
                                assert(updates@[p].1 == d);
                                assert(updates@[p].0@ == n);
                                assert(fs@[i as int].name@ == updates@[p].0@);
                                assert(ts@[j as int].name@ == updates@[p].0@);
                            }
                        }
                    }
                    proof {
                        assert(diff_keys(updates@) =~= diff_keys(before).insert(n)) by {
                            assert(updates@[before.len() as int].0@ == n);
                            assert forall|m: Seq<char>| #[trigger] diff_keys(updates@).contains(m) implies diff_keys(before).insert(n).contains(m) by {
                                let k = choose|k: int| 0 <= k < updates@.len() && #[trigger] updates@[k].0@ == m;
                                if k < before.len() {
                                    assert(before[k] == updates@[k]);
                                }
                            }
                            assert forall|m: Seq<char>| #[trigger] diff_keys(before).contains(m) implies diff_keys(updates@).contains(m) by {
                                let k = choose|k: int| 0 <= k < before.len() && #[trigger] before[k].0@ == m;
                                assert(updates@[k] == before[k]);
                            }
                        }
                    }
                }
            },
            None => {
                proof {
                    if unchanged_at(*eqt, *ft, fs@, *tt, ts@, i as int) {
                        let y = choose|y: int|
                            0 <= y < ts@.len() && #[trigger] ts@[y].name@ == fs@[i as int].name@
                                && equal_nodes(*eqt, *ft, fs@[i as int].node as nat, *tt, ts@[y].node as nat);
                        assert(ts@[y].name@ == n);
                    }
                    let old_set = missing_names(fs@, ts@, i as int);
                    let new_set = missing_names(fs@, ts@, i + 1);
                    assert forall|m: Seq<char>|
                        #[trigger] new_set.contains(m) == old_set.insert(n).contains(m) by {
                        if m == n {
                            assert(fs@[i as int].name@ == m);
                        }
                    }
                    assert(new_set =~= old_set.insert(n));
                    let old_u = unchanged_names(*eqt, *ft, fs@, *tt, ts@, i as int);
                    let new_u = unchanged_names(*eqt, *ft, fs@, *tt, ts@, i + 1);
                    assert forall|m: Seq<char>| #[trigger] new_u.contains(m) == old_u.contains(m) by {
                        if new_u.contains(m) {
                            let (x, y) = choose|x: int, y: int|
                                0 <= x < i + 1 && 0 <= y < ts@.len() && #[trigger] fs@[x].name@ == m
                                    && #[trigger] ts@[y].name@ == m && equal_nodes(*eqt, 
                                    *ft,
                                    fs@[x].node as nat,
                                    *tt,
                                    ts@[y].node as nat,
                                );
                        }
                    }
                    assert(new_u =~= old_u);
                    let old_d = updated_names(*eqt, *ft, fs@, *tt, ts@, i as int);
                    let new_d = updated_names(*eqt, *ft, fs@, *tt, ts@, i + 1);
                    assert forall|m: Seq<char>| #[trigger] new_d.contains(m) == old_d.contains(m) by {
                        if new_d.contains(m) {
                            let (x, y) = choose|x: int, y: int|
                                0 <= x < i + 1 && 0 <= y < ts@.len() && #[trigger] fs@[x].name@ == m
                                    && #[trigger] ts@[y].name@ == m && !equal_nodes(*eqt, 
                                    *ft,
                                    fs@[x].node as nat,
                                    *tt,
                                    ts@[y].node as nat,
                                );
                        }
                    }
                    assert(new_d =~= old_d);
                }
                let ghost before = deletions@;
                deletions.push((name.clone(), fs[i].node));
                proof {
                    assert(node_keys(deletions@) =~= node_keys(before).insert(n)) by {
                        assert(deletions@[before.len() as int].0@ == n);
                        assert forall|m: Seq<char>| #[trigger] node_keys(deletions@).contains(m) implies node_keys(before).insert(n).contains(m) by {
                            let k = choose|k: int| 0 <= k < deletions@.len() && #[trigger] deletions@[k].0@ == m;
                            if k < before.len() {
                                assert(before[k] == deletions@[k]);
                            }
                        }
                        assert forall|m: Seq<char>| #[trigger] node_keys(before).contains(m) implies node_keys(deletions@).contains(m) by {
                            let k = choose|k: int| 0 <= k < before.len() && #[trigger] before[k].0@ == m;
                            assert(deletions@[k] == before[k]);
                        }
                    }
                }
            },
        }
        i += 1;
    }
    let mut j: usize = 0;
    while j < ts.len()
        invariant
            j <= ts@.len(),
            unique_names(ts@),
            node_keys(insertions@) == missing_names(ts@, fs@, j as int),
            nodes_from(ts@, insertions@, j as int),
            distinct_node_keys(insertions@),
        decreases ts@.len() - j,
    {
        let name = &ts[j].name;
        let ghost n = name@;
        match find_field(fs, name) {
            Some(_) => {
                proof {
                    let old_set = missing_names(ts@, fs@, j as int);
                    let new_set = missing_names(ts@, fs@, j + 1);
                    assert forall|m: Seq<char>| #[trigger] new_set.contains(m) == old_set.contains(m) by {
                        if new_set.contains(m) {
                            let k = choose|k: int|
                                0 <= k < j + 1 && #[trigger] ts@[k].name@ == m && !has_name(fs@, m);
                        }
                    }
                    assert(new_set =~= old_set);
                }
            },
            None => {
                proof {
                    let old_set = missing_names(ts@, fs@, j as int);
                    let new_set = missing_names(ts@, fs@, j + 1);
                    assert forall|m: Seq<char>|
                        #[trigger] new_set.contains(m) == old_set.insert(n).contains(m) by {
                        if m == n {
                            assert(ts@[j as int].name@ == m);
                        }
                    }
                    assert(new_set =~= old_set.insert(n));
                }
                let ghost before = insertions@;
                insertions.push((name.clone(), ts[j].node));
                proof {
                    assert(node_keys(insertions@) =~= node_keys(before).insert(n)) by {
                        assert(insertions@[before.len() as int].0@ == n);
                        assert forall|m: Seq<char>| #[trigger] node_keys(insertions@).contains(m) implies node_keys(before).insert(n).contains(m) by {
                            let k = choose|k: int| 0 <= k < insertions@.len() && #[trigger] insertions@[k].0@ == m;
                            if k < before.len() {
                                assert(before[k] == insertions@[k]);
                            }
                        }
                        assert forall|m: Seq<char>| #[trigger] node_keys(before).contains(m) implies node_keys(insertions@).contains(m) by {
                            let k = choose|k: int| 0 <= k < before.len() && #[trigger] before[k].0@ == m;
                            assert(insertions@[k] == before[k]);
                        }
                    }
                }
            },
        }
        j += 1;
    }
    Value::Struct { updates, deletions, insertions, unchanged }
}

/// Compares node `f` of `ft` with node `t` of `tt`.
pub(crate) fn compare_within(eqt: &Vec<Vec<bool>>, ft: &Tree, tt: &Tree, f: usize, t: usize) -> (r: Diff)
    requires
        ft.wf(),
        tt.wf(),
        table_fits(*eqt, *ft, *tt),
        f < ft.nodes.len(),
        t < tt.nodes.len(),
    ensures
        r is Equal <==> equal_nodes(*eqt, *ft, f as nat, *tt, t as nat),
        r.outline() == expected_outline(*eqt, *ft, f as nat, *tt, t as nat),
        expected_detail(*eqt, *ft, f as nat, *tt, t as nat, r),
        r.closeness_spec() == expected_closeness(*eqt, *ft, f as nat, *tt, t as nat),
    decreases f, 4nat,
{
    if equal_values(eqt, ft, f, tt, t) {
        return Diff::Equal;
    }
    let from = &ft.nodes[f];
    let to = &tt.nodes[t];
    proof {
        assert(lists_in(*ft, from.content.children(), *tt, to.content.children(), f as nat));
    }
    match (&from.content, &to.content) {
        (Content::Struct { kind: k1, fields: fs }, Content::Struct { kind: k2, fields: ts }) => {
            if *k1 != *k2 {
                return Diff::Replace { from: f, to: t };
            }
            let value = if k1.is_positional() {
                let xs = from.content.child_nodes();
                let ys = to.content.child_nodes();
                Value::Tuple { updates: diff_within(eqt, ft, tt, &xs, &ys, Ghost(f as nat)) }
            } else {
                compare_named(eqt, ft, tt, fs, ts, Ghost(f as nat))
            };
            Diff::User { from: from.type_id, to: to.type_id, variant: None, value }
        },
        (
            Content::Enum { variant: v1, kind: k1, fields: fs },
            Content::Enum { variant: v2, kind: k2, fields: ts },
        ) => {
            if *v1 != *v2 || *k1 != *k2 {
                return Diff::Replace { from: f, to: t };
            }
            let value = if k1.is_positional() {
                let xs = from.content.child_nodes();
                let ys = to.content.child_nodes();
                Value::Tuple { updates: diff_within(eqt, ft, tt, &xs, &ys, Ghost(f as nat)) }
            } else {
                compare_named(eqt, ft, tt, fs, ts, Ghost(f as nat))
            };
            Diff::User { from: from.type_id, to: to.type_id, variant: Some(v1.clone()), value }
        },
        (Content::Optional { value: x }, Content::Optional { value: y }) => match (x, y) {
            (Some(xi), Some(yi)) => {
                proof {
                    assert(from.content.children()[0] == *xi);
                    assert(to.content.children()[0] == *yi);
                }
                let inner = compare_within(eqt, ft, tt, *xi, *yi);
                let mut updates = Updates(Interspersed::new());
                if !inner.is_equal() {
                    let mut removals: Vec<usize> = Vec::new();
                    removals.push(*xi);
                    let mut additions: Vec<usize> = Vec::new();
                    additions.push(*yi);
                    let group = ReplaceGroup { removals, additions };
                    assert(group.removals@ == seq![*xi]);
                    let mut refined = UpdatesGroup(Interspersed::new());
                    refined.0.first = Some(group);
                    updates.0.first = Some(refined);
                }
                let name = <String as StringExecFns>::from_str("Some");
                Diff::User {
                    from: from.type_id,
                    to: to.type_id,
                    variant: Some(name),
                    value: Value::Tuple { updates },
                }
            },
            _ => Diff::Replace { from: f, to: t },
        },
        (Content::List { items: xs }, Content::List { items: ys }) => {
            let updates = diff_within(eqt, ft, tt, xs, ys, Ghost(f as nat));
            Diff::Sequence { from: from.type_id, to: to.type_id, updates }
        },
        _ => Diff::Replace { from: f, to: t },
    }
}

/// Comparing a value with itself gives `Equal` when its type's equality test works (says so).
pub proof fn lemma_compare_reflexive(eqt: Vec<Vec<bool>>, t: Tree, v: nat)
    requires
        t.wf(),
        v < t.nodes.len(),
        t.nodes[v as int].has_eq,
        eqt@[v as int]@[v as int],
    ensures
        expected_outline(eqt, t, v, t, v) == Outline::Equal,
{
    lemma_equal_reflexive(eqt, t, v);
}

/// Fields compared by name fall into exactly one of four sets: updated, deleted, inserted or
/// unchanged; together they hold every field name of either side.
pub proof fn lemma_struct_fields_partition(eqt: Vec<Vec<bool>>, ft: Tree, fs: Seq<Field>, tt: Tree, ts: Seq<Field>, v: Value)
    requires
        unique_names(fs),
        unique_names(ts),
        by_name(eqt, ft, fs, tt, ts, v),
    ensures
        match v {
            Value::Struct { updates, deletions, insertions, unchanged } => {
                let u = diff_keys(updates@);
                let d = node_keys(deletions@);
                let i = node_keys(insertions@);
                let c = string_set(unchanged@);
                &&& u.disjoint(d)
                &&& u.disjoint(i)
                &&& u.disjoint(c)
                &&& d.disjoint(i)
                &&& d.disjoint(c)
                &&& i.disjoint(c)
                &&& u + d + i + c == names_of(fs) + names_of(ts)
            },
            _ => true,
        },
{
    let u = updated_names(eqt, ft, fs, tt, ts, fs.len() as int);
    let d = missing_names(fs, ts, fs.len() as int);
    let i = missing_names(ts, fs, ts.len() as int);
    let c = unchanged_names(eqt, ft, fs, tt, ts, fs.len() as int);
    assert forall|n: Seq<char>| u.contains(n) implies has_name(fs, n) && has_name(ts, n) && !c.contains(n) by {
        let (x, y) = choose|x: int, y: int|
            0 <= x < fs.len() && 0 <= y < ts.len() && #[trigger] fs[x].name@ == n && #[trigger] ts[y].name@ == n
                && !equal_nodes(eqt, ft, fs[x].node as nat, tt, ts[y].node as nat);
        if c.contains(n) {
            let (x2, y2) = choose|x2: int, y2: int|
                0 <= x2 < fs.len() && 0 <= y2 < ts.len() && #[trigger] fs[x2].name@ == n && #[trigger] ts[y2].name@ == n
                    && equal_nodes(eqt, ft, fs[x2].node as nat, tt, ts[y2].node as nat);
            assert(x == x2 && y == y2);
        }
    }
    assert forall|n: Seq<char>| c.contains(n) implies has_name(fs, n) && has_name(ts, n) by {
        let (x, y) = choose|x: int, y: int|
            0 <= x < fs.len() && 0 <= y < ts.len() && #[trigger] fs[x].name@ == n && #[trigger] ts[y].name@ == n
                && equal_nodes(eqt, ft, fs[x].node as nat, tt, ts[y].node as nat);
    }
    assert forall|n: Seq<char>| d.contains(n) implies has_name(fs, n) && !has_name(ts, n) by {
        let x = choose|x: int| 0 <= x < fs.len() && #[trigger] fs[x].name@ == n && !has_name(ts, n);
    }
    assert forall|n: Seq<char>| i.contains(n) implies has_name(ts, n) && !has_name(fs, n) by {
        let x = choose|x: int| 0 <= x < ts.len() && #[trigger] ts[x].name@ == n && !has_name(fs, n);
    }
    assert forall|n: Seq<char>| #[trigger] names_of(fs).contains(n) || names_of(ts).contains(n) implies (u
        + d + i + c).contains(n) by {
        if has_name(fs, n) {
            let x = choose|x: int| 0 <= x < fs.len() && #[trigger] fs[x].name@ == n;
            if has_name(ts, n) {
                let y = choose|y: int| 0 <= y < ts.len() && #[trigger] ts[y].name@ == n;
                if equal_nodes(eqt, ft, fs[x].node as nat, tt, ts[y].node as nat) {
                    assert(c.contains(n));
                } else {
                    assert(u.contains(n));
                }
            } else {
                assert(d.contains(n));
            }
        } else {
            let y = choose|y: int| 0 <= y < ts.len() && #[trigger] ts[y].name@ == n;
            assert(i.contains(n));
        }
    }
    assert(u + d + i + c =~= names_of(fs) + names_of(ts));
}

/// Outlines of the two directions of one comparison: the same kind, with sides swapped.
pub open spec fn dual(o1: Outline, o2: Outline) -> bool {
    match (o1, o2) {
        (Outline::Equal, Outline::Equal) => true,
        (Outline::Replace(a, b), Outline::Replace(c, d)) => a == d && b == c,
        (Outline::User(a, b, v, p), Outline::User(c, d, w, q)) => a == d && b == c && v == w && p == q,
        (Outline::Sequence(a, b), Outline::Sequence(c, d)) => a == d && b == c,
        _ => false,
    }
}

/// Comparing `b` with `a` mirrors comparing `a` with `b`: the same kind of node with the sides
/// swapped, the same updated and unchanged field names, deleted and inserted names trading
/// places, and as many kept elements in positional comparisons.
pub proof fn lemma_compare_dual(eqt: Vec<Vec<bool>>, back: Vec<Vec<bool>>, ft: Tree, f: nat, tt: Tree, t: nat)
    requires
        ft.wf(),
        tt.wf(),
        f < ft.nodes.len(),
        t < tt.nodes.len(),
        consistent_tests(ft, tt),
        transposed(eqt, back, ft, tt),
    ensures
        equal_nodes(eqt, ft, f, tt, t) == equal_nodes(back, tt, t, ft, f),
        dual(expected_outline(eqt, ft, f, tt, t), expected_outline(back, tt, t, ft, f)),
        ({
            let fs = fields_of(ft.nodes[f as int].content);
            let ts = fields_of(tt.nodes[t as int].content);
            &&& updated_names(eqt, ft, fs, tt, ts, fs.len() as int) == updated_names(back, tt, ts, ft, fs, ts.len() as int)
            &&& unchanged_names(eqt, ft, fs, tt, ts, fs.len() as int) == unchanged_names(back, tt, ts, ft, fs, ts.len() as int)
        }),
        ({
            let xs = ft.nodes[f as int].content.children();
            let ys = tt.nodes[t as int].content.children();
            updates_kept_lcs(eqt, ft, xs, tt, ys) == updates_kept_lcs(back, tt, ys, ft, xs)
        }),
{
    lemma_equal_symmetric(eqt, back, ft, f, tt, t);
    let fs = fields_of(ft.nodes[f as int].content);
    let ts = fields_of(tt.nodes[t as int].content);
    let xs = ft.nodes[f as int].content.children();
    let ys = tt.nodes[t as int].content.children();
    let u1 = updated_names(eqt, ft, fs, tt, ts, fs.len() as int);
    let u2 = updated_names(back, tt, ts, ft, fs, ts.len() as int);
    assert forall|n: Seq<char>| u1.contains(n) implies u2.contains(n) by {
        let (x, y) = choose|x: int, y: int|
            0 <= x < fs.len() && 0 <= y < ts.len() && #[trigger] fs[x].name@ == n && #[trigger] ts[y].name@ == n
                && !equal_nodes(eqt, ft, fs[x].node as nat, tt, ts[y].node as nat);
        lemma_equal_symmetric(eqt, back, ft, fs[x].node as nat, tt, ts[y].node as nat);
        assert(ts[y].name@ == n && fs[x].name@ == n);
    }
    assert forall|n: Seq<char>| u2.contains(n) implies u1.contains(n) by {
        let (y, x) = choose|y: int, x: int|
            0 <= y < ts.len() && 0 <= x < fs.len() && #[trigger] ts[y].name@ == n && #[trigger] fs[x].name@ == n
                && !equal_nodes(back, tt, ts[y].node as nat, ft, fs[x].node as nat);
        lemma_equal_symmetric(eqt, back, ft, fs[x].node as nat, tt, ts[y].node as nat);
        assert(ts[y].name@ == n && fs[x].name@ == n);
    }
    assert(u1 =~= u2);
    let c1 = unchanged_names(eqt, ft, fs, tt, ts, fs.len() as int);
    let c2 = unchanged_names(back, tt, ts, ft, fs, ts.len() as int);
    assert forall|n: Seq<char>| c1.contains(n) implies c2.contains(n) by {
        let (x, y) = choose|x: int, y: int|
            0 <= x < fs.len() && 0 <= y < ts.len() && #[trigger] fs[x].name@ == n && #[trigger] ts[y].name@ == n
                && equal_nodes(eqt, ft, fs[x].node as nat, tt, ts[y].node as nat);
        lemma_equal_symmetric(eqt, back, ft, fs[x].node as nat, tt, ts[y].node as nat);
        assert(ts[y].name@ == n && fs[x].name@ == n);
    }
    assert forall|n: Seq<char>| c2.contains(n) implies c1.contains(n) by {
        let (y, x) = choose|y: int, x: int|
            0 <= y < ts.len() && 0 <= x < fs.len() && #[trigger] ts[y].name@ == n && #[trigger] fs[x].name@ == n
                && equal_nodes(back, tt, ts[y].node as nat, ft, fs[x].node as nat);
        lemma_equal_symmetric(eqt, back, ft, fs[x].node as nat, tt, ts[y].node as nat);
        assert(ts[y].name@ == n && fs[x].name@ == n);
    }
    assert(c1 =~= c2);
    let e1 = element_equality(eqt, ft, xs, tt, ys);
    let e2 = element_equality(back, tt, ys, ft, xs);
    assert forall|i: int, j: int| #[trigger] e1(i, j) == e2(j, i) by {
        lemma_equal_symmetric(eqt, back, ft, xs[i] as nat, tt, ys[j] as nat);
    }
    lemma_lcs_transpose(e1, e2, xs.len(), ys.len());
}

impl Diff {
    /// Computes the difference between the values at the roots of two trees.
    /// `eqt[f][t]` is what the type's own equality test says of node `f` of `from` and node `t`
    /// of `to`; it is read only where both nodes have one type that has such a test.
    pub fn new(from: &Tree, to: &Tree, eqt: &Vec<Vec<bool>>) -> (r: Diff)
        requires
            from.wf(),
            to.wf(),
            table_fits(*eqt, *from, *to),
        ensures
            r is Equal <==> equal_nodes(*eqt, *from, from.root_spec(), *to, to.root_spec()),
            r.outline() == expected_outline(*eqt, *from, from.root_spec(), *to, to.root_spec()),
            expected_detail(*eqt, *from, from.root_spec(), *to, to.root_spec(), r),
            r.closeness_spec() == expected_closeness(*eqt, *from, from.root_spec(), *to, to.root_spec()),
    {
        compare_within(eqt, from, to, from.root(), to.root())
    }
}

/// Values that can be compared with a tree.
pub trait FacetDiff {
    /// The tree that describes this value.
    spec fn tree(&self) -> Tree;

    /// Computes the difference between this value and the value at the root of `other`.
    fn diff(&self, other: &Tree, eqt: &Vec<Vec<bool>>) -> (r: Diff)
        requires
            self.tree().wf(),
            other.wf(),
            table_fits(*eqt, self.tree(), *other),
        ensures
            r is Equal <==> equal_nodes(*eqt, self.tree(), self.tree().root_spec(), *other, other.root_spec()),
            r.outline() == expected_outline(*eqt, self.tree(), self.tree().root_spec(), *other, other.root_spec()),
            expected_detail(*eqt, self.tree(), self.tree().root_spec(), *other, other.root_spec(), r),
            r.closeness_spec() == expected_closeness(*eqt, self.tree(), self.tree().root_spec(), *other, other.root_spec()),
    ;
}

impl FacetDiff for Tree {
    open spec fn tree(&self) -> Tree {
        *self
    }

    fn diff(&self, other: &Tree, eqt: &Vec<Vec<bool>>) -> (r: Diff) {
        Diff::new(self, other, eqt)
    }
}

} // verus!
