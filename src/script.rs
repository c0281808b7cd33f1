//! Shortest edit scripts between two lists, given which pairs of elements are equal.
use vstd::prelude::*;

verus! {

/// One step of an edit script, with the position it concerns.
#[derive(PartialEq, Eq, Structural, Clone, Copy, Debug)]
pub enum Edit {
    /// Element `i` of the old list stays.
    Keep(usize),
    /// Element `i` of the old list goes.
    Remove(usize),
    /// Element `j` of the new list comes.
    Add(usize),
}

/// `same[i][j]` tells whether element `i` of the old list equals element `j` of the new one.
pub open spec fn matrix(same: Seq<Vec<bool>>, eq: spec_fn(int, int) -> bool, n: nat, m: nat) -> bool {
    &&& same.len() == n
    &&& forall|i: int| 0 <= i < n ==> #[trigger] same[i]@.len() == m
    &&& forall|i: int, j: int| 0 <= i < n && 0 <= j < m ==> #[trigger] same[i]@[j] == eq(i, j)
}

pub open spec fn max(a: nat, b: nat) -> nat {
    if a >= b { a } else { b }
}

pub open spec fn min(a: nat, b: nat) -> nat {
    if a <= b { a } else { b }
}

/// Length of a longest common subsequence of the first `x` old and the first `y` new elements.
pub open spec fn lcs(eq: spec_fn(int, int) -> bool, x: nat, y: nat) -> nat
    decreases x + y,
{
    if x == 0 || y == 0 {
        0
    } else {
        let skip = max(lcs(eq, (x - 1) as nat, y), lcs(eq, x, (y - 1) as nat));
        if eq(x - 1, y - 1) {
            max(skip, lcs(eq, (x - 1) as nat, (y - 1) as nat) + 1)
        } else {
            skip
        }
    }
}

/// Fewest removals and additions that turn the first `x` old elements into the first `y` new ones.
pub open spec fn dist(eq: spec_fn(int, int) -> bool, x: nat, y: nat) -> nat
    decreases x + y,
{
    if x == 0 {
        y
    } else if y == 0 {
        x
    } else {
        let step = min(dist(eq, (x - 1) as nat, y), dist(eq, x, (y - 1) as nat)) + 1;
        if eq(x - 1, y - 1) {
            min(step, dist(eq, (x - 1) as nat, (y - 1) as nat))
        } else {
            step
        }
    }
}

/// The steps of `s`, taken from its last to its first, lead from position `(x, y)` to `(ex, ey)`;
/// a kept element is equal to its counterpart.
pub open spec fn walk_to(eq: spec_fn(int, int) -> bool, s: Seq<Edit>, x: nat, y: nat, ex: nat, ey: nat) -> bool
    decreases s.len(),
{
    if s.len() == 0 {
        x == ex && y == ey
    } else {
        let p = s.drop_last();
        match s.last() {
            Edit::Keep(i) => i == ex && eq(ex as int, ey as int) && walk_to(eq, p, x, y, ex + 1, ey + 1),
            Edit::Remove(i) => i == ex && walk_to(eq, p, x, y, ex + 1, ey),
            Edit::Add(j) => j == ey && walk_to(eq, p, x, y, ex, ey + 1),
        }
    }
}

/// `s` lists, back to front, an edit script from the `n` old elements to the `m` new ones.
pub open spec fn script_of(eq: spec_fn(int, int) -> bool, s: Seq<Edit>, n: nat, m: nat) -> bool {
    walk_to(eq, s, n, m, 0, 0)
}

/// Number of removals and additions in `s`.
pub open spec fn cost(s: Seq<Edit>) -> nat
    decreases s.len(),
{
    if s.len() == 0 {
        0
    } else {
        cost(s.drop_last()) + match s.last() {
            Edit::Keep(_) => 0nat,
            _ => 1nat,
        }
    }
}

/// Number of kept elements in `s`.
pub open spec fn kept(s: Seq<Edit>) -> nat
    decreases s.len(),
{
    if s.len() == 0 {
        0
    } else {
        kept(s.drop_last()) + match s.last() {
            Edit::Keep(_) => 1nat,
            _ => 0nat,
        }
    }
}

/// A walk covers both lists: each kept element counts on both sides, each edit on one.
pub proof fn lemma_walk_counts(eq: spec_fn(int, int) -> bool, s: Seq<Edit>, x: nat, y: nat, ex: nat, ey: nat)
    requires
        walk_to(eq, s, x, y, ex, ey),
    ensures
        x + y == ex + ey + 2 * kept(s) + cost(s),
        s.len() == kept(s) + cost(s),
    decreases s.len(),
{
    if s.len() > 0 {
        let p = s.drop_last();
        match s.last() {
            Edit::Keep(_) => lemma_walk_counts(eq, p, x, y, ex + 1, ey + 1),
            Edit::Remove(_) => lemma_walk_counts(eq, p, x, y, ex + 1, ey),
            Edit::Add(_) => lemma_walk_counts(eq, p, x, y, ex, ey + 1),
        }
    }
}

proof fn lemma_walk_ends(eq: spec_fn(int, int) -> bool, s: Seq<Edit>, x: nat, y: nat, ex: nat, ey: nat)
    requires
        walk_to(eq, s, x, y, ex, ey),
    ensures
        ex <= x,
        ey <= y,
    decreases s.len(),
{
    if s.len() > 0 {
        let p = s.drop_last();
        match s.last() {
            Edit::Keep(_) => lemma_walk_ends(eq, p, x, y, ex + 1, ey + 1),
            Edit::Remove(_) => lemma_walk_ends(eq, p, x, y, ex + 1, ey),
            Edit::Add(_) => lemma_walk_ends(eq, p, x, y, ex, ey + 1),
        }
    }
}

/// Every step of a walk names a position inside the lists.
pub proof fn lemma_edits_in_range(
    eq: spec_fn(int, int) -> bool,
    s: Seq<Edit>,
    x: nat,
    y: nat,
    ex: nat,
    ey: nat,
    k: int,
)
    requires
        walk_to(eq, s, x, y, ex, ey),
        0 <= k < s.len(),
    ensures
        match s[k] {
            Edit::Keep(i) => i < x,
            Edit::Remove(i) => i < x,
            Edit::Add(j) => j < y,
        },
    decreases s.len(),
{
    let p = s.drop_last();
    if k == s.len() - 1 {
        match s.last() {
            Edit::Keep(_) => lemma_walk_ends(eq, p, x, y, ex + 1, ey + 1),
            Edit::Remove(_) => lemma_walk_ends(eq, p, x, y, ex + 1, ey),
            Edit::Add(_) => lemma_walk_ends(eq, p, x, y, ex, ey + 1),
        }
    } else {
        assert(p[k] == s[k]);
        match s.last() {
            Edit::Keep(_) => lemma_edits_in_range(eq, p, x, y, ex + 1, ey + 1, k),
            Edit::Remove(_) => lemma_edits_in_range(eq, p, x, y, ex + 1, ey, k),
            Edit::Add(_) => lemma_edits_in_range(eq, p, x, y, ex, ey + 1, k),
        }
    }
}

/// The distance and the longest common subsequence determine each other.
pub proof fn lemma_dist_lcs(eq: spec_fn(int, int) -> bool, x: nat, y: nat)
    ensures
        dist(eq, x, y) + 2 * lcs(eq, x, y) == x + y,
    decreases x + y,
{
    if x > 0 && y > 0 {
        lemma_dist_lcs(eq, (x - 1) as nat, y);
        lemma_dist_lcs(eq, x, (y - 1) as nat);
        lemma_dist_lcs(eq, (x - 1) as nat, (y - 1) as nat);
    }
}

proof fn lemma_cost_first(s: Seq<Edit>)
    requires
        s.len() > 0,
    ensures
        cost(s) == cost(s.drop_first()) + if s[0] is Keep {
            0nat
        } else {
            1nat
        },
    decreases s.len(),
{
    if s.len() > 1 {
        lemma_cost_first(s.drop_last());
        let d = s.drop_last().drop_first();
        assert(d == s.drop_first().drop_last());
        assert(s.drop_first().last() == s.last());
        assert(s.drop_last()[0] == s[0]);
        assert(cost(s.drop_first()) == cost(d) + match s.last() {
            Edit::Keep(_) => 0nat,
            _ => 1nat,
        });
    } else {
        assert(s.drop_first().len() == 0);
        assert(s.drop_last().len() == 0);
        assert(s.last() == s[0]);
        assert(cost(s.drop_last()) == 0);
        assert(cost(s.drop_first()) == 0);
    }
}

/// The traceback's script costs exactly the edit distance.
pub proof fn lemma_traceback_cost(eq: spec_fn(int, int) -> bool, x: nat, y: nat)
    ensures
        cost(traceback(eq, x, y)) == dist(eq, x, y),
    decreases x + y,
{
    let s = traceback(eq, x, y);
    if x > 0 || y > 0 {
        lemma_cost_first(s);
        if y == 0 {
            lemma_traceback_cost(eq, (x - 1) as nat, y);
            assert(s.drop_first() == traceback(eq, (x - 1) as nat, y));
        } else if x == 0 {
            lemma_traceback_cost(eq, x, (y - 1) as nat);
            assert(s.drop_first() == traceback(eq, x, (y - 1) as nat));
        } else if keeps(eq, x, y) {
            lemma_traceback_cost(eq, (x - 1) as nat, (y - 1) as nat);
            assert(s.drop_first() == traceback(eq, (x - 1) as nat, (y - 1) as nat));
        } else if dist(eq, (x - 1) as nat, y) < dist(eq, x, (y - 1) as nat) {
            lemma_traceback_cost(eq, (x - 1) as nat, y);
            assert(s.drop_first() == traceback(eq, (x - 1) as nat, y));
        } else {
            lemma_traceback_cost(eq, x, (y - 1) as nat);
            assert(s.drop_first() == traceback(eq, x, (y - 1) as nat));
        }
    }
}

/// A longest common subsequence does not depend on which list comes first.
pub proof fn lemma_lcs_transpose(e1: spec_fn(int, int) -> bool, e2: spec_fn(int, int) -> bool, x: nat, y: nat)
    requires
        forall|i: int, j: int| #[trigger] e1(i, j) == e2(j, i),
    ensures
        lcs(e1, x, y) == lcs(e2, y, x),
    decreases x + y,
{
    if x > 0 && y > 0 {
        lemma_lcs_transpose(e1, e2, (x - 1) as nat, y);
        lemma_lcs_transpose(e1, e2, x, (y - 1) as nat);
        lemma_lcs_transpose(e1, e2, (x - 1) as nat, (y - 1) as nat);
        assert(e1(x - 1, y - 1) == e2(y - 1, x - 1));
    }
}

/// The traceback step's choice when both lists still have elements: whether to keep, else whether to remove.
pub open spec fn keeps(eq: spec_fn(int, int) -> bool, x: nat, y: nat) -> bool {
    eq(x - 1, y - 1) && dist(eq, (x - 1) as nat, (y - 1) as nat) <= min(
        dist(eq, (x - 1) as nat, y),
        dist(eq, x, (y - 1) as nat),
    ) + 1
}

/// The edit script that the traceback rule picks, listed back to front: from `(x, y)`, keep an
/// equal pair when that costs no more than an edge step plus one; otherwise remove when the cell
/// to the left is strictly cheaper than the cell above, and add if not.
pub open spec fn traceback(eq: spec_fn(int, int) -> bool, x: nat, y: nat) -> Seq<Edit>
    decreases x + y,
{
    if x == 0 && y == 0 {
        seq![]
    } else if y == 0 {
        seq![Edit::Remove((x - 1) as usize)] + traceback(eq, (x - 1) as nat, y)
    } else if x == 0 {
        seq![Edit::Add((y - 1) as usize)] + traceback(eq, x, (y - 1) as nat)
    } else if keeps(eq, x, y) {
        seq![Edit::Keep((x - 1) as usize)] + traceback(eq, (x - 1) as nat, (y - 1) as nat)
    } else if dist(eq, (x - 1) as nat, y) < dist(eq, x, (y - 1) as nat) {
        seq![Edit::Remove((x - 1) as usize)] + traceback(eq, (x - 1) as nat, y)
    } else {
        seq![Edit::Add((y - 1) as usize)] + traceback(eq, x, (y - 1) as nat)
    }
}

fn distance_table(same: &Vec<Vec<bool>>, n: usize, m: usize, Ghost(eq): Ghost<spec_fn(int, int) -> bool>) -> (t: Vec<Vec<usize>>)
    requires
        matrix(same@, eq, n as nat, m as nat),
        n + m < usize::MAX,
    ensures
        t@.len() == n + 1,
        forall|i: int| 0 <= i <= n ==> #[trigger] t@[i]@.len() == m + 1,
        forall|i: int, j: int| 0 <= i <= n && 0 <= j <= m ==> #[trigger] t@[i]@[j] == dist(eq, i as nat, j as nat),
{
    let mut t: Vec<Vec<usize>> = Vec::new();
    let mut x: usize = 0;
    while x <= n
        invariant
            x <= n + 1,
            n + m < usize::MAX,
            matrix(same@, eq, n as nat, m as nat),
            t@.len() == x,
            forall|i: int| 0 <= i < x ==> #[trigger] t@[i]@.len() == m + 1,
            forall|i: int, j: int| 0 <= i < x && 0 <= j <= m ==> #[trigger] t@[i]@[j] == dist(eq, i as nat, j as nat),
        decreases n + 1 - x,
    {
        let mut row: Vec<usize> = Vec::new();
        let mut y: usize = 0;
        while y <= m
            invariant
                x <= n,
                y <= m + 1,
                n + m < usize::MAX,
                matrix(same@, eq, n as nat, m as nat),
                t@.len() == x,
                forall|i: int| 0 <= i < x ==> #[trigger] t@[i]@.len() == m + 1,
                forall|i: int, j: int| 0 <= i < x && 0 <= j <= m ==> #[trigger] t@[i]@[j] == dist(eq, i as nat, j as nat),
                row@.len() == y,
                forall|j: int| 0 <= j < y ==> #[trigger] row@[j] == dist(eq, x as nat, j as nat),
            decreases m + 1 - y,
        {
            let v: usize = if x == 0 {
                y
            } else if y == 0 {
                x
            } else {
                proof {
                    lemma_dist_lcs(eq, (x - 1) as nat, y as nat);
                    lemma_dist_lcs(eq, x as nat, (y - 1) as nat);
                }
                let up = t[x - 1][y];
                let left = row[y - 1];
                let step = if up <= left { up + 1 } else { left + 1 };
                if same[x - 1][y - 1] {
                    let diag = t[x - 1][y - 1];
                    if diag <= step { diag } else { step }
                } else {
                    step
                }
            };
            row.push(v);
            y += 1;
        }
        t.push(row);
        x += 1;
    }
    t
}

/// The shortest edit script from `n` old elements to `m` new ones, listed back to front.
///
/// Walking back from the end, an equal pair is kept when that costs no more than an edge step;
/// otherwise an old element is removed when that is strictly cheaper, and a new one added if not.
pub fn edit_script(same: &Vec<Vec<bool>>, n: usize, m: usize, Ghost(eq): Ghost<spec_fn(int, int) -> bool>) -> (s: Vec<Edit>)
    requires
        matrix(same@, eq, n as nat, m as nat),
        n + m < usize::MAX,
    ensures
        s@ == traceback(eq, n as nat, m as nat),
        script_of(eq, s@, n as nat, m as nat),
        cost(s@) == dist(eq, n as nat, m as nat),
        cost(s@) + 2 * lcs(eq, n as nat, m as nat) == n + m,
        kept(s@) == lcs(eq, n as nat, m as nat),
{
    let t = distance_table(same, n, m, Ghost(eq));
    let mut s: Vec<Edit> = Vec::new();
    let mut x: usize = n;
    let mut y: usize = m;
    while x > 0 || y > 0
        invariant
            x <= n,
            y <= m,
            n + m < usize::MAX,
            matrix(same@, eq, n as nat, m as nat),
            t@.len() == n + 1,
            forall|i: int| 0 <= i <= n ==> #[trigger] t@[i]@.len() == m + 1,
            forall|i: int, j: int| 0 <= i <= n && 0 <= j <= m ==> #[trigger] t@[i]@[j] == dist(eq, i as nat, j as nat),
            walk_to(eq, s@, n as nat, m as nat, x as nat, y as nat),
            cost(s@) + dist(eq, x as nat, y as nat) == dist(eq, n as nat, m as nat),
            s@ + traceback(eq, x as nat, y as nat) == traceback(eq, n as nat, m as nat),
        decreases x + y,
    {
        let ghost before = s@;
        let ghost rest = traceback(eq, x as nat, y as nat);
        if y == 0 {
            s.push(Edit::Remove(x - 1));
            x -= 1;
        } else if x == 0 {
            s.push(Edit::Add(y - 1));
            y -= 1;
        } else {
            proof {
                lemma_dist_lcs(eq, (x - 1) as nat, y as nat);
                lemma_dist_lcs(eq, x as nat, (y - 1) as nat);
            }
            let diag = t[x - 1][y - 1];
            let up = t[x - 1][y];
            let left = t[x][y - 1];
            let edge = if up <= left { up } else { left };
            if same[x - 1][y - 1] && diag <= edge + 1 {
                s.push(Edit::Keep(x - 1));
                x -= 1;
                y -= 1;
            } else if up < left {
                s.push(Edit::Remove(x - 1));
                x -= 1;
            } else {
                s.push(Edit::Add(y - 1));
                y -= 1;
            }
        }
        proof {
            assert(s@.drop_last() == before);
            assert(rest == seq![s@.last()] + traceback(eq, x as nat, y as nat));
            assert(s@ + traceback(eq, x as nat, y as nat) == before + rest);
        }
    }
    proof {
        assert(s@ + traceback(eq, 0, 0) == s@);
        lemma_dist_lcs(eq, n as nat, m as nat);
        lemma_walk_counts(eq, s@, n as nat, m as nat, 0, 0);
    }
    s
}

} // verus!
