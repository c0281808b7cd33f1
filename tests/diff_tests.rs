use facet_diff::diff::Value;
use facet_diff::sequences::{self, Interspersed, ReplaceGroup, Updates};
use facet_diff::tree::{Content, Field, Node, StructKind, Tree};
use facet_diff::{Diff, FacetDiff};

const STRING: u64 = 1;
const INT: u64 = 2;
const PERSON: u64 = 10;
const OTHER_PERSON: u64 = 11;
const ACTION: u64 = 12;
const LIST: u64 = 13;
const OPTION: u64 = 14;

fn scalar(type_id: u64, repr: &str) -> Node {
    Node {
        type_id,
        name: String::from("scalar"),
        has_eq: true,
        content: Content::Scalar { repr: repr.to_string() },
    }
}

fn field(name: &str, node: usize) -> Field {
    Field { name: name.to_string(), node }
}

fn person(type_id: u64, name: &str, age: &str) -> Tree {
    Tree {
        nodes: vec![
            scalar(STRING, name),
            scalar(INT, age),
            Node {
                type_id,
                name: String::from("Person"),
                has_eq: true,
                content: Content::Struct {
                    kind: StructKind::Struct,
                    fields: vec![field("name", 0), field("age", 1)],
                },
            },
        ],
    }
}

fn action(variant: &str, arg: &str) -> Tree {
    Tree {
        nodes: vec![
            scalar(INT, arg),
            Node {
                type_id: ACTION,
                name: String::from("Action"),
                has_eq: true,
                content: Content::Enum {
                    variant: variant.to_string(),
                    kind: StructKind::Tuple,
                    fields: vec![field("0", 0)],
                },
            },
        ],
    }
}

fn ints(values: &[&str]) -> Tree {
    let mut nodes: Vec<Node> = values.iter().map(|v| scalar(INT, v)).collect();
    nodes.push(Node {
        type_id: LIST,
        name: String::from("Vec<i32>"),
        has_eq: true,
        content: Content::List { items: (0..values.len()).collect() },
    });
    Tree { nodes }
}

fn optional(value: Option<&str>) -> Tree {
    let mut nodes = Vec::new();
    if let Some(v) = value {
        nodes.push(scalar(INT, v));
    }
    nodes.push(Node {
        type_id: OPTION,
        name: String::from("Option<i32>"),
        has_eq: true,
        content: Content::Optional { value: value.map(|_| 0) },
    });
    Tree { nodes }
}

/// A rendering of a subtree that two values share exactly when they are equal.
fn render(tree: &Tree, n: usize) -> String {
    let node = &tree.nodes[n];
    let inner = match &node.content {
        Content::Scalar { repr } => repr.clone(),
        Content::Struct { fields, .. } => fields
            .iter()
            .map(|f| format!("{}:{}", f.name, render(tree, f.node)))
            .collect::<Vec<_>>()
            .join(","),
        Content::Enum { variant, fields, .. } => format!(
            "{}({})",
            variant,
            fields
                .iter()
                .map(|f| format!("{}:{}", f.name, render(tree, f.node)))
                .collect::<Vec<_>>()
                .join(",")
        ),
        Content::Optional { value } => match value {
            Some(v) => format!("Some({})", render(tree, *v)),
            None => "None".to_string(),
        },
        Content::List { items } => items.iter().map(|i| render(tree, *i)).collect::<Vec<_>>().join(","),
    };
    format!("{}#{}", node.type_id, inner)
}

/// What the types' own equality tests say of every pair of nodes.
fn table(a: &Tree, b: &Tree) -> Vec<Vec<bool>> {
    (0..a.nodes.len())
        .map(|f| (0..b.nodes.len()).map(|t| render(a, f) == render(b, t)).collect())
        .collect()
}

fn compare(a: &Tree, b: &Tree) -> Diff {
    Diff::new(a, b, &table(a, b))
}

fn sorted(mut v: Vec<String>) -> Vec<String> {
    v.sort();
    v
}

fn kept(u: &Updates) -> Vec<usize> {
    let mut out = Vec::new();
    for (run, _) in &u.0.values {
        out.extend(run.iter().copied());
    }
    if let Some(run) = &u.0.last {
        out.extend(run.iter().copied());
    }
    out
}

#[test]
fn it_works() {}

#[test]
fn equal_values_compare_equal() {
    let a = person(PERSON, "\"Alice\"", "30");
    let b = person(PERSON, "\"Alice\"", "30");
    assert!(compare(&a, &b).is_equal());
    assert!(a.diff(&b, &table(&a, &b)).is_equal());
}

#[test]
fn comparing_a_value_with_itself_is_equal() {
    let a = ints(&["1", "2", "3"]);
    assert!(compare(&a, &a).is_equal());
    let p = person(PERSON, "\"Alice\"", "30");
    assert!(compare(&p, &p).is_equal());
}

#[test]
fn differently_typed_records_with_same_fields() {
    let a = person(PERSON, "\"Alice\"", "30");
    let b = person(OTHER_PERSON, "\"Alice\"", "30");
    match compare(&a, &b) {
        Diff::User { from, to, variant, value } => {
            assert_eq!(from, PERSON);
            assert_eq!(to, OTHER_PERSON);
            assert!(variant.is_none());
            match value {
                Value::Struct { updates, deletions, insertions, unchanged } => {
                    assert_eq!(sorted(unchanged), vec!["age".to_string(), "name".to_string()]);
                    assert!(updates.is_empty());
                    assert!(deletions.is_empty());
                    assert!(insertions.is_empty());
                },
                Value::Tuple { .. } => panic!("expected fields by name"),
            }
        },
        _ => panic!("expected a record diff"),
    }
}

#[test]
fn changed_field_is_an_update() {
    let a = person(PERSON, "\"Alice\"", "30");
    let b = person(PERSON, "\"Bob\"", "30");
    match compare(&a, &b) {
        Diff::User { variant: None, value: Value::Struct { updates, deletions, insertions, unchanged }, .. } => {
            assert_eq!(unchanged, vec!["age".to_string()]);
            assert_eq!(updates.len(), 1);
            assert_eq!(updates[0].0, "name");
            assert!(matches!(updates[0].1, Diff::Replace { from: 0, to: 0 }));
            assert!(deletions.is_empty());
            assert!(insertions.is_empty());
        },
        _ => panic!("expected a record diff by name"),
    }
}

#[test]
fn missing_and_extra_fields() {
    let a = Tree {
        nodes: vec![
            scalar(INT, "1"),
            scalar(INT, "2"),
            Node {
                type_id: PERSON,
                name: String::from("A"),
                has_eq: true,
                content: Content::Struct {
                    kind: StructKind::Struct,
                    fields: vec![field("x", 0), field("y", 1)],
                },
            },
        ],
    };
    let b = Tree {
        nodes: vec![
            scalar(INT, "1"),
            scalar(INT, "3"),
            Node {
                type_id: OTHER_PERSON,
                name: String::from("B"),
                has_eq: true,
                content: Content::Struct {
                    kind: StructKind::Struct,
                    fields: vec![field("x", 0), field("z", 1)],
                },
            },
        ],
    };
    match compare(&a, &b) {
        Diff::User { value: Value::Struct { updates, deletions, insertions, unchanged }, .. } => {
            assert_eq!(unchanged, vec!["x".to_string()]);
            assert!(updates.is_empty());
            assert_eq!(deletions, vec![("y".to_string(), 1)]);
            assert_eq!(insertions, vec![("z".to_string(), 1)]);
        },
        _ => panic!("expected a record diff by name"),
    }
}

#[test]
fn same_case_positional_field() {
    let a = action("Remove", "0");
    let b = action("Remove", "1");
    match compare(&a, &b) {
        Diff::User { variant: Some(v), value: Value::Tuple { updates }, from, to } => {
            assert_eq!(v, "Remove");
            assert_eq!(from, ACTION);
            assert_eq!(to, ACTION);
            let group = updates.0.first.as_ref().expect("one replace group");
            assert!(updates.0.values.is_empty());
            assert!(updates.0.last.is_none());
            let plain = group.0.first.as_ref().expect("removal then addition");
            assert_eq!(plain.removals, vec![0]);
            assert_eq!(plain.additions, vec![0]);
            assert!(group.0.values.is_empty());
            assert!(group.0.last.is_none());
        },
        _ => panic!("expected a union case diff"),
    }
}

#[test]
fn different_cases_are_replaced() {
    let a = action("Remove", "0");
    let b = action("Add", "0");
    assert!(matches!(compare(&a, &b), Diff::Replace { from: 1, to: 1 }));
}

#[test]
fn rotated_list_keeps_common_run() {
    let a = ints(&["1", "2", "3"]);
    let b = ints(&["2", "3", "1"]);
    match compare(&a, &b) {
        Diff::Sequence { from, to, updates } => {
            assert_eq!(from, LIST);
            assert_eq!(to, LIST);
            let front = updates.0.first.as_ref().expect("removal at the front");
            let plain = front.0.first.as_ref().expect("a plain group");
            assert_eq!(plain.removals, vec![0]);
            assert!(plain.additions.is_empty());
            assert_eq!(updates.0.values.len(), 1);
            assert_eq!(updates.0.values[0].0, vec![1, 2]);
            let back = updates.0.values[0].1 .0.first.as_ref().expect("addition at the back");
            assert!(back.removals.is_empty());
            assert_eq!(back.additions, vec![2]);
            assert!(updates.0.last.is_none());
        },
        _ => panic!("expected a sequence diff"),
    }
}

#[test]
fn sequence_keeps_a_longest_common_subsequence() {
    let a = ints(&["1", "2", "3", "4", "5"]);
    let b = ints(&["2", "9", "4", "5", "1"]);
    let u = sequences::diff(&table(&a, &b), &a, &b, vec![0, 1, 2, 3, 4], vec![0, 1, 2, 3, 4]);
    assert_eq!(kept(&u), vec![1, 3, 4]);
}

#[test]
fn empty_lists() {
    let a = ints(&[]);
    let b = ints(&["7"]);
    let u = sequences::diff(&table(&a, &a), &a, &a, vec![], vec![]);
    assert!(u.0.first.is_none() && u.0.values.is_empty() && u.0.last.is_none());
    match compare(&a, &b) {
        Diff::Sequence { updates, .. } => {
            let group = updates.0.first.as_ref().expect("one addition");
            let plain = group.0.first.as_ref().expect("a plain group");
            assert!(plain.removals.is_empty());
            assert_eq!(plain.additions, vec![0]);
        },
        _ => panic!("expected a sequence diff"),
    }
}

#[test]
fn close_elements_are_paired() {
    let from = Tree {
        nodes: vec![
            scalar(STRING, "\"Alice\""),
            scalar(INT, "30"),
            Node {
                type_id: PERSON,
                name: String::from("Person"),
                has_eq: true,
                content: Content::Struct {
                    kind: StructKind::Struct,
                    fields: vec![field("name", 0), field("age", 1)],
                },
            },
            Node {
                type_id: LIST,
                name: String::from("Vec<Person>"),
                has_eq: true,
                content: Content::List { items: vec![2] },
            },
        ],
    };
    let mut to = person(PERSON, "\"Alice\"", "31");
    to.nodes.push(Node {
        type_id: LIST,
        name: String::from("Vec<Person>"),
        has_eq: true,
        content: Content::List { items: vec![2] },
    });
    match compare(&from, &to) {
        Diff::Sequence { updates, .. } => {
            let group = updates.0.first.as_ref().expect("one changed element");
            assert!(group.0.first.is_none());
            assert!(group.0.values.is_empty());
            let changes = group.0.last.as_ref().expect("a paired change");
            assert_eq!(changes.len(), 1);
            match &changes[0] {
                Diff::User { value: Value::Struct { unchanged, updates, .. }, .. } => {
                    assert_eq!(unchanged, &vec!["name".to_string()]);
                    assert_eq!(updates.len(), 1);
                    assert_eq!(updates[0].0, "age");
                },
                _ => panic!("expected a record diff"),
            }
        },
        _ => panic!("expected a sequence diff"),
    }
}

#[test]
fn optional_values() {
    let none = optional(None);
    let one = optional(Some("1"));
    let two = optional(Some("2"));
    assert!(matches!(compare(&none, &one), Diff::Replace { .. }));
    assert!(matches!(compare(&one, &none), Diff::Replace { .. }));
    match compare(&one, &two) {
        Diff::User { variant: Some(v), value: Value::Tuple { updates }, .. } => {
            assert_eq!(v, "Some");
            let group = updates.0.first.as_ref().expect("one group");
            let plain = group.0.first.as_ref().expect("removal and addition");
            assert_eq!(plain.removals, vec![0]);
            assert_eq!(plain.additions, vec![0]);
        },
        _ => panic!("expected an optional diff"),
    }
}

#[test]
fn present_optional_without_equality_test() {
    let mut a = optional(Some("1"));
    a.nodes[1].has_eq = false;
    let mut b = optional(Some("1"));
    b.nodes[1].has_eq = false;
    match compare(&a, &b) {
        Diff::User { variant: Some(v), value: Value::Tuple { updates }, .. } => {
            assert_eq!(v, "Some");
            assert!(updates.0.first.is_none());
            assert!(updates.0.values.is_empty());
            assert!(updates.0.last.is_none());
        },
        _ => panic!("expected an optional diff"),
    }
}

#[test]
fn mismatched_shapes_are_replaced() {
    let a = ints(&["1"]);
    let b = person(PERSON, "\"Alice\"", "30");
    assert!(matches!(compare(&a, &b), Diff::Replace { from: 1, to: 2 }));
    let c = Tree { nodes: vec![scalar(INT, "1")] };
    let d = Tree { nodes: vec![scalar(INT, "2")] };
    assert!(matches!(compare(&c, &d), Diff::Replace { from: 0, to: 0 }));
}

#[test]
fn well_formedness() {
    assert!(person(PERSON, "\"Alice\"", "30").is_well_formed());
    assert!(!Tree { nodes: vec![] }.is_well_formed());
    let forward = Tree {
        nodes: vec![Node {
            type_id: LIST,
            name: String::from("Vec<i32>"),
            has_eq: true,
            content: Content::List { items: vec![0] },
        }],
    };
    assert!(!forward.is_well_formed());
    let twice = Tree {
        nodes: vec![
            scalar(INT, "1"),
            Node {
                type_id: PERSON,
                name: String::from("P"),
                has_eq: true,
                content: Content::Struct {
                    kind: StructKind::Struct,
                    fields: vec![field("x", 0), field("x", 0)],
                },
            },
        ],
    };
    assert!(!twice.is_well_formed());
}

fn pair_of_people(first: &str, second: &str) -> Tree {
    let mut nodes = vec![
        scalar(STRING, "\"Ann\""),
        scalar(INT, first),
        Node {
            type_id: PERSON,
            name: String::from("Person"),
            has_eq: true,
            content: Content::Struct {
                kind: StructKind::Struct,
                fields: vec![field("name", 0), field("age", 1)],
            },
        },
        scalar(STRING, "\"Ben\""),
        scalar(INT, second),
        Node {
            type_id: PERSON,
            name: String::from("Person"),
            has_eq: true,
            content: Content::Struct {
                kind: StructKind::Struct,
                fields: vec![field("name", 3), field("age", 4)],
            },
        },
    ];
    nodes.push(Node {
        type_id: LIST,
        name: String::from("Vec<Person>"),
        has_eq: true,
        content: Content::List { items: vec![2, 5] },
    });
    Tree { nodes }
}

#[test]
fn paired_changes_keep_their_order() {
    let a = pair_of_people("1", "2");
    let b = pair_of_people("5", "6");
    match compare(&a, &b) {
        Diff::Sequence { updates, .. } => {
            let group = updates.0.first.as_ref().expect("one replace group");
            let changes = group.0.last.as_ref().expect("paired changes");
            assert_eq!(changes.len(), 2);
            for change in changes {
                match change {
                    Diff::User { value: Value::Struct { unchanged, updates, .. }, .. } => {
                        assert_eq!(unchanged, &vec!["name".to_string()]);
                        assert_eq!(updates[0].0, "age");
                    },
                    _ => panic!("expected record diffs"),
                }
            }
            match (&changes[0], &changes[1]) {
                (
                    Diff::User { value: Value::Struct { updates: first, .. }, .. },
                    Diff::User { value: Value::Struct { updates: second, .. }, .. },
                ) => {
                    assert!(matches!(first[0].1, Diff::Replace { from: 1, to: 1 }));
                    assert!(matches!(second[0].1, Diff::Replace { from: 4, to: 4 }));
                },
                _ => panic!("expected record diffs"),
            }
        },
        _ => panic!("expected a sequence diff"),
    }
}

#[test]
fn reversed_comparison_swaps_deletions_and_insertions() {
    let a = Tree {
        nodes: vec![
            scalar(INT, "1"),
            scalar(INT, "2"),
            Node {
                type_id: PERSON,
                name: String::from("A"),
                has_eq: true,
                content: Content::Struct {
                    kind: StructKind::Struct,
                    fields: vec![field("x", 0), field("y", 1)],
                },
            },
        ],
    };
    let b = Tree {
        nodes: vec![
            scalar(INT, "9"),
            scalar(INT, "3"),
            Node {
                type_id: OTHER_PERSON,
                name: String::from("B"),
                has_eq: true,
                content: Content::Struct {
                    kind: StructKind::Struct,
                    fields: vec![field("x", 0), field("z", 1)],
                },
            },
        ],
    };
    let forward = compare(&a, &b);
    let backward = compare(&b, &a);
    match (forward, backward) {
        (
            Diff::User { from: f1, to: t1, value: Value::Struct { updates: u1, deletions: d1, insertions: i1, .. }, .. },
            Diff::User { from: f2, to: t2, value: Value::Struct { updates: u2, deletions: d2, insertions: i2, .. }, .. },
        ) => {
            assert_eq!((f1, t1), (t2, f2));
            assert_eq!(u1[0].0, "x");
            assert_eq!(u2[0].0, "x");
            assert_eq!(d1, vec![("y".to_string(), 1)]);
            assert_eq!(i2, vec![("y".to_string(), 1)]);
            assert_eq!(i1, vec![("z".to_string(), 1)]);
            assert_eq!(d2, vec![("z".to_string(), 1)]);
        },
        _ => panic!("expected record diffs both ways"),
    }
}

#[test]
fn front_segments() {
    let mut list: Interspersed<ReplaceGroup, Vec<usize>> = Interspersed::new();
    list.front_b().push(7);
    assert_eq!(list.last, Some(vec![7]));
    list.front_a().additions.push(3);
    list.front_a().removals.push(2);
    assert_eq!(list.first.as_ref().map(|g| (g.removals.clone(), g.additions.clone())), Some((vec![2], vec![3])));
    list.front_b().push(1);
    assert!(list.first.is_none());
    assert_eq!(list.values.len(), 1);
    assert_eq!(list.values[0].0, vec![1]);
    assert_eq!(list.values[0].1.removals, vec![2]);
    list.front_b().insert(0, 0);
    assert_eq!(list.values[0].0, vec![0, 1]);
    assert_eq!(list.last, Some(vec![7]));
}

#[test]
fn one_element_against_two_others() {
    let a = ints(&["1"]);
    let b = ints(&["2", "3"]);
    match compare(&a, &b) {
        Diff::Sequence { updates, .. } => {
            let group = updates.0.first.as_ref().expect("one replace group");
            assert!(updates.0.values.is_empty());
            assert!(updates.0.last.is_none());
            let plain = group.0.first.as_ref().expect("a plain group");
            assert_eq!(plain.removals, vec![0]);
            assert_eq!(plain.additions, vec![0, 1]);
            assert!(group.0.values.is_empty());
            assert!(group.0.last.is_none());
        },
        _ => panic!("expected a sequence diff"),
    }
}

#[test]
fn kept_head_then_replaced_tail() {
    let a = ints(&["1", "2"]);
    let b = ints(&["1", "3"]);
    match compare(&a, &b) {
        Diff::Sequence { updates, .. } => {
            assert!(updates.0.first.is_none());
            assert_eq!(updates.0.values.len(), 1);
            assert_eq!(updates.0.values[0].0, vec![0]);
            let plain = updates.0.values[0].1 .0.first.as_ref().expect("a plain group");
            assert_eq!(plain.removals, vec![1]);
            assert_eq!(plain.additions, vec![1]);
            assert!(updates.0.last.is_none());
        },
        _ => panic!("expected a sequence diff"),
    }
}

#[test]
fn equal_elements_leave_no_group() {
    let mut a = ints(&["1", "2"]);
    a.nodes[2].has_eq = false;
    let b = a.nodes.iter().map(|n| Node {
        type_id: n.type_id,
        name: n.name.clone(),
        has_eq: n.has_eq,
        content: match &n.content {
            Content::Scalar { repr } => Content::Scalar { repr: repr.clone() },
            Content::List { items } => Content::List { items: items.clone() },
            _ => unreachable!(),
        },
    });
    let b = Tree { nodes: b.collect() };
    match compare(&a, &b) {
        Diff::Sequence { updates, .. } => {
            assert!(updates.0.first.is_none());
            assert!(updates.0.values.is_empty());
            assert_eq!(updates.0.last, Some(vec![0, 1]));
        },
        _ => panic!("expected a sequence diff"),
    }
}

#[test]
fn equality_comes_from_the_table() {
    let a = ints(&["1"]);
    let b = ints(&["1"]);
    let mut eq = table(&a, &b);
    eq[0][0] = false;
    eq[1][1] = false;
    match Diff::new(&a, &b, &eq) {
        Diff::Sequence { updates, .. } => {
            let group = updates.0.first.as_ref().expect("a replace group");
            let plain = group.0.first.as_ref().expect("a plain group");
            assert_eq!(plain.removals, vec![0]);
            assert_eq!(plain.additions, vec![0]);
        },
        _ => panic!("expected a sequence diff"),
    }
}
