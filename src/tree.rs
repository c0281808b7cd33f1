//! The values being compared: an arena of typed nodes, each child stored before its parent.

use vstd::prelude::*;

verus! {

/// How the fields of a record or of a union case are laid out.
#[derive(PartialEq, Eq, Structural, Clone, Copy, Debug)]
pub enum StructKind {
    Unit,
    TupleStruct,
    Struct,
    Tuple,
}

impl StructKind {
    /// Fields are matched by position rather than by name.
    pub open spec fn positional_spec(self) -> bool {
        self == StructKind::Tuple || self == StructKind::TupleStruct
    }

    pub fn is_positional(&self) -> (r: bool)
        ensures
            r == self.positional_spec(),
    {
        match self {
            StructKind::Tuple | StructKind::TupleStruct => true,
            _ => false,
        }
    }
}

/// A named field and the node that holds its value.
pub struct Field {
    pub name: String,
    pub node: usize,
}

/// The shape of a node and its children.
pub enum Content {
    /// A value without inner structure, given by its rendering.
    Scalar { repr: String },
    /// A record.
    Struct { kind: StructKind, fields: Vec<Field> },
    /// A tagged union, with its active case.
    Enum { variant: String, kind: StructKind, fields: Vec<Field> },
    /// An optional value.
    Optional { value: Option<usize> },
    /// An ordered collection.
    List { items: Vec<usize> },
}

/// One value: its type's identity and name, whether that type has an equality test, and its content.
pub struct Node {
    pub type_id: u64,
    pub name: String,
    pub has_eq: bool,
    pub content: Content,
}

/// A value and all its parts. The last node is the root.
pub struct Tree {
    pub nodes: Vec<Node>,
}

pub open spec fn field_nodes(fields: Seq<Field>) -> Seq<usize> {
    fields.map_values(|f: Field| f.node)
}

impl Content {
    /// The nodes directly below this one.
    pub open spec fn children(self) -> Seq<usize> {
        match self {
            Content::Scalar { .. } => seq![],
            Content::Struct { fields, .. } => field_nodes(fields@),
            Content::Enum { fields, .. } => field_nodes(fields@),
            Content::Optional { value } => match value {
                Some(v) => seq![v],
                None => seq![],
            },
            Content::List { items } => items@,
        }
    }

    /// No two fields share a name.
    pub open spec fn names_unique(self) -> bool {
        match self {
            Content::Struct { fields, .. } => unique_names(fields@),
            Content::Enum { fields, .. } => unique_names(fields@),
            _ => true,
        }
    }
}

pub open spec fn unique_names(fields: Seq<Field>) -> bool {
    forall|i: int, j: int|
        0 <= i < fields.len() && 0 <= j < fields.len() && i != j ==> fields[i].name@
            != fields[j].name@
}

impl Tree {
    /// Every child comes before its parent, field names are unique, no node has more children than
    /// memory could hold, and there is a root.
    pub open spec fn wf(self) -> bool {
        &&& 0 < self.nodes.len()
        &&& forall|n: int, k: int|
            0 <= n < self.nodes.len() && 0 <= k < self.nodes[n].content.children().len()
                ==> self.nodes[n].content.children()[k] < n
        &&& forall|n: int| 0 <= n < self.nodes.len() ==> self.nodes[n].content.names_unique()
        &&& forall|n: int|
            0 <= n < self.nodes.len() ==> self.nodes[n].content.children().len() < usize::MAX / 2
    }

    pub open spec fn root_spec(self) -> nat {
        (self.nodes.len() - 1) as nat
    }

    /// Whether the tree is well formed.
    pub fn is_well_formed(&self) -> (r: bool)
        ensures
            r == self.wf(),
    {
        if self.nodes.len() == 0 {
            return false;
        }
        let mut n: usize = 0;
        while n < self.nodes.len()
            invariant
                n <= self.nodes@.len(),
                forall|p: int, k: int|
                    0 <= p < n && 0 <= k < self.nodes[p].content.children().len()
                        ==> self.nodes[p].content.children()[k] < p,
                forall|p: int| 0 <= p < n ==> self.nodes[p].content.names_unique(),
                forall|p: int| 0 <= p < n ==> self.nodes[p].content.children().len() < usize::MAX / 2,
            decreases self.nodes@.len() - n,
        {
            let content = &self.nodes[n].content;
            let xs = content.child_nodes();
            if xs.len() >= usize::MAX / 2 {
                return false;
            }
            let mut k: usize = 0;
            while k < xs.len()
                invariant
                    k <= xs@.len(),
                    n < self.nodes@.len(),
                    xs@ == self.nodes[n as int].content.children(),
                    forall|q: int| 0 <= q < k ==> xs@[q] < n,
                decreases xs@.len() - k,
            {
                if xs[k] >= n {
                    assert(self.nodes[n as int].content.children()[k as int] >= n);
                    return false;
                }
                k += 1;
            }
            let unique = match content {
                Content::Struct { fields, .. } => names_distinct(fields),
                Content::Enum { fields, .. } => names_distinct(fields),
                _ => true,
            };
            if !unique {
                return false;
            }
            n += 1;
        }
        true
    }

    pub fn root(&self) -> (r: usize)
        requires
            self.wf(),
        ensures
            r == self.root_spec(),
    {
        self.nodes.len() - 1
    }
}


/// `eqt` holds, for each node of `ft` and each node of `tt`, what the type's own equality test
/// says of the two values; it has a row per node of `ft` and a column per node of `tt`.
pub open spec fn table_fits(eqt: Vec<Vec<bool>>, ft: Tree, tt: Tree) -> bool {
    &&& eqt@.len() == ft.nodes.len()
    &&& forall|f: int| 0 <= f < ft.nodes.len() ==> #[trigger] eqt@[f]@.len() == tt.nodes.len()
}

/// The two nodes have one type, that type has an equality test, and the test says they are equal.
pub open spec fn equal_nodes(eqt: Vec<Vec<bool>>, ft: Tree, f: nat, tt: Tree, t: nat) -> bool {
    &&& f < ft.nodes.len()
    &&& t < tt.nodes.len()
    &&& ft.nodes[f as int].type_id == tt.nodes[t as int].type_id
    &&& ft.nodes[f as int].has_eq
    &&& eqt@[f as int]@[t as int]
}

fn fields_nodes(fields: &Vec<Field>) -> (r: Vec<usize>)
    ensures
        r@ == field_nodes(fields@),
{
    let mut r: Vec<usize> = Vec::new();
    let mut i: usize = 0;
    while i < fields.len()
        invariant
            i <= fields.len(),
            r@ == field_nodes(fields@.subrange(0, i as int)),
        decreases fields.len() - i,
    {
        r.push(fields[i].node);
        proof {
            assert(fields@.subrange(0, i as int + 1) == fields@.subrange(0, i as int).push(fields@[i as int]));
        }
        i += 1;
    }
    proof {
        assert(fields@.subrange(0, i as int) == fields@);
    }
    r
}

impl Content {
    pub fn child_nodes(&self) -> (r: Vec<usize>)
        ensures
            r@ == self.children(),
    {
        match self {
            Content::Scalar { .. } => Vec::new(),
            Content::Struct { fields, .. } => fields_nodes(fields),
            Content::Enum { fields, .. } => fields_nodes(fields),
            Content::Optional { value } => match value {
                Some(v) => vec![*v],
                None => Vec::new(),
            },
            Content::List { items } => items.clone(),
        }
    }
}

fn names_distinct(fields: &Vec<Field>) -> (r: bool)
    ensures
        r == unique_names(fields@),
{
    let mut i: usize = 0;
    while i < fields.len()
        invariant
            i <= fields@.len(),
            forall|a: int, b: int|
                0 <= a < i && 0 <= b < fields@.len() && a != b ==> fields@[a].name@ != fields@[b].name@,
        decreases fields@.len() - i,
    {
        let mut j: usize = 0;
        while j < fields.len()
            invariant
                i < fields@.len(),
                j <= fields@.len(),
                forall|b: int| 0 <= b < j && b != i ==> fields@[i as int].name@ != fields@[b].name@,
            decreases fields@.len() - j,
        {
            if j != i && fields[i].name == fields[j].name {
                return false;
            }
            j += 1;
        }
        i += 1;
    }
    true
}

/// A value of a type with a working equality test equals itself.
pub proof fn lemma_equal_reflexive(eqt: Vec<Vec<bool>>, t: Tree, v: nat)
    requires
        t.wf(),
        v < t.nodes.len(),
        t.nodes[v as int].has_eq,
        eqt@[v as int]@[v as int],
    ensures
        equal_nodes(eqt, t, v, t, v),
{
}

/// Nodes of one type agree on whether that type has an equality test.
pub open spec fn consistent_tests(ft: Tree, tt: Tree) -> bool {
    forall|f: int, t: int|
        0 <= f < ft.nodes.len() && 0 <= t < tt.nodes.len() && #[trigger] ft.nodes[f].type_id
            == #[trigger] tt.nodes[t].type_id ==> ft.nodes[f].has_eq == tt.nodes[t].has_eq
}

/// `back` answers the equality test with the sides swapped, as `eqt` does.
pub open spec fn transposed(eqt: Vec<Vec<bool>>, back: Vec<Vec<bool>>, ft: Tree, tt: Tree) -> bool {
    forall|f: int, t: int|
        0 <= f < ft.nodes.len() && 0 <= t < tt.nodes.len() ==> #[trigger] eqt@[f]@[t] == back@[t]@[f]
}

/// Equality of nodes does not depend on the order of the two sides.
pub proof fn lemma_equal_symmetric(eqt: Vec<Vec<bool>>, back: Vec<Vec<bool>>, ft: Tree, f: nat, tt: Tree, t: nat)
    requires
        consistent_tests(ft, tt),
        transposed(eqt, back, ft, tt),
    ensures
        equal_nodes(eqt, ft, f, tt, t) == equal_nodes(back, tt, t, ft, f),
{
    if f < ft.nodes.len() && t < tt.nodes.len() {
        assert(eqt@[f as int]@[t as int] == back@[t as int]@[f as int]);
    }
}

/// Whether the two nodes have one type with an equality test, and are equal under it.
pub fn equal_values(eqt: &Vec<Vec<bool>>, ft: &Tree, f: usize, tt: &Tree, t: usize) -> (r: bool)
    requires
        table_fits(*eqt, *ft, *tt),
        f < ft.nodes.len(),
        t < tt.nodes.len(),
    ensures
        r == equal_nodes(*eqt, *ft, f as nat, *tt, t as nat),
{
    ft.nodes[f].type_id == tt.nodes[t].type_id && ft.nodes[f].has_eq && eqt[f][t]
}

} // verus!
