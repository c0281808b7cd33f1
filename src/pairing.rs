//! Pairing removed elements with added ones so that the pairs are as close as possible.
use vstd::prelude::*;

verus! {

/// One step of a refined replace group, with the positions it concerns.
#[derive(PartialEq, Eq, Structural, Clone, Copy, Debug)]
pub enum Step {
    /// Removal `i` stays a plain removal.
    Remove(usize),
    /// Addition `j` stays a plain addition.
    Add(usize),
    /// Removal `i` and addition `j` are one element, changed.
    Pair(usize, usize),
}

/// `table[i][j]` is `w(i, j)`, how close removal `i` is to addition `j`.
pub open spec fn weights(table: Seq<Vec<u64>>, w: spec_fn(int, int) -> nat, n: nat, m: nat) -> bool {
    &&& table.len() == n
    &&& forall|i: int| 0 <= i < n ==> #[trigger] table[i]@.len() == m
    &&& forall|i: int, j: int| 0 <= i < n && 0 <= j < m ==> #[trigger] table[i]@[j] as nat == w(i, j)
}

/// The best total closeness over the first `x` removals and the first `y` additions.
pub open spec fn best(w: spec_fn(int, int) -> nat, x: nat, y: nat) -> nat
    decreases x + y,
{
    if x == 0 || y == 0 {
        0
    } else {
        let skip = best(w, x, (y - 1) as nat);
        let pair = best(w, (x - 1) as nat, (y - 1) as nat) + w(x - 1, y - 1);
        if skip >= pair {
            skip
        } else {
            pair
        }
    }
}

/// The steps of `s`, taken from its last to its first, lead from `(x, y)` to `(ex, ey)`.
pub open spec fn steps_to(s: Seq<Step>, x: nat, y: nat, ex: nat, ey: nat) -> bool
    decreases s.len(),
{
    if s.len() == 0 {
        x == ex && y == ey
    } else {
        let p = s.drop_last();
        match s.last() {
            Step::Remove(i) => i == ex && steps_to(p, x, y, ex + 1, ey),
            Step::Add(j) => j == ey && steps_to(p, x, y, ex, ey + 1),
            Step::Pair(i, j) => i == ex && j == ey && steps_to(p, x, y, ex + 1, ey + 1),
        }
    }
}

/// `s` lists, back to front, each of `n` removals and `m` additions once, plain or paired.
pub open spec fn pairing_of(s: Seq<Step>, n: nat, m: nat) -> bool {
    steps_to(s, n, m, 0, 0)
}

/// Total closeness of the pairs in `s`.
pub open spec fn gain(w: spec_fn(int, int) -> nat, s: Seq<Step>) -> nat
    decreases s.len(),
{
    if s.len() == 0 {
        0
    } else {
        gain(w, s.drop_last()) + match s.last() {
            Step::Pair(i, j) => w(i as int, j as int),
            _ => 0nat,
        }
    }
}

/// The pairing that the traceback rule picks, listed back to front: from `(x, y)`, once either
/// side is used up the other stays plain; an addition stays plain when the best total without it
/// is as good (ties favour additions); otherwise it is paired with the current removal.
pub open spec fn chosen(w: spec_fn(int, int) -> nat, x: nat, y: nat) -> Seq<Step>
    decreases x + y,
{
    if x == 0 && y == 0 {
        seq![]
    } else if x == 0 {
        seq![Step::Add((y - 1) as usize)] + chosen(w, x, (y - 1) as nat)
    } else if y == 0 {
        seq![Step::Remove((x - 1) as usize)] + chosen(w, (x - 1) as nat, y)
    } else if best(w, x, (y - 1) as nat) == best(w, x, y) {
        seq![Step::Add((y - 1) as usize)] + chosen(w, x, (y - 1) as nat)
    } else {
        seq![Step::Pair((x - 1) as usize, (y - 1) as usize)] + chosen(w, (x - 1) as nat, (y - 1) as nat)
    }
}

proof fn lemma_chosen_removals_only(w: spec_fn(int, int) -> nat, x: nat)
    ensures
        forall|q: int| 0 <= q < chosen(w, x, 0).len() ==> #[trigger] chosen(w, x, 0)[q] is Remove,
    decreases x,
{
    if x > 0 {
        lemma_chosen_removals_only(w, (x - 1) as nat);
        let rest = chosen(w, (x - 1) as nat, 0);
        assert forall|q: int| 0 <= q < chosen(w, x, 0).len() implies #[trigger] chosen(w, x, 0)[q] is Remove by {
            if q > 0 {
                assert(chosen(w, x, 0)[q] == rest[q - 1]);
            }
        }
    }
}

/// In a chosen pairing, listed back to front, plain removals come last: front to back, they lead.
pub proof fn lemma_chosen_removals_lead(w: spec_fn(int, int) -> nat, x: nat, y: nat, p: int, q: int)
    requires
        0 <= p < q < chosen(w, x, y).len(),
        chosen(w, x, y)[p] is Remove,
    ensures
        chosen(w, x, y)[q] is Remove,
    decreases x + y,
{
    let s = chosen(w, x, y);
    if y == 0 {
        lemma_chosen_removals_only(w, x);
    } else if x == 0 {
        lemma_chosen_removals_lead(w, x, (y - 1) as nat, p - 1, q - 1);
    } else if best(w, x, (y - 1) as nat) == best(w, x, y) {
        lemma_chosen_removals_lead(w, x, (y - 1) as nat, p - 1, q - 1);
    } else {
        lemma_chosen_removals_lead(w, (x - 1) as nat, (y - 1) as nat, p - 1, q - 1);
    }
}

proof fn lemma_best_bound(w: spec_fn(int, int) -> nat, x: nat, y: nat)
    requires
        forall|i: int, j: int| 0 <= i < x && 0 <= j < y ==> #[trigger] w(i, j) <= u64::MAX,
    ensures
        best(w, x, y) <= x * (u64::MAX as nat),
    decreases x + y,
{
    if x > 0 && y > 0 {
        lemma_best_bound(w, x, (y - 1) as nat);
        lemma_best_bound(w, (x - 1) as nat, (y - 1) as nat);
        assert(((x - 1) as nat) * (u64::MAX as nat) + u64::MAX as nat == x * (u64::MAX as nat))
            by (nonlinear_arith)
            requires
                x >= 1,
        ;
    }
}

proof fn lemma_best_fits(w: spec_fn(int, int) -> nat, x: nat, y: nat)
    requires
        x <= usize::MAX,
        forall|i: int, j: int| 0 <= i < x && 0 <= j < y ==> #[trigger] w(i, j) <= u64::MAX,
    ensures
        best(w, x, y) + u64::MAX as nat <= u128::MAX,
{
    lemma_best_bound(w, x, y);
    assert(x * (u64::MAX as nat) + u64::MAX as nat <= u128::MAX) by (nonlinear_arith)
        requires
            x <= u64::MAX,
    ;
}

proof fn lemma_pair_at_or_past_end(s: Seq<Step>, x: nat, y: nat, ex: nat, ey: nat, k: int)
    requires
        steps_to(s, x, y, ex, ey),
        0 <= k < s.len(),
        s[k] is Pair,
    ensures
        s[k]->Pair_0 >= ex,
        s[k]->Pair_1 >= ey,
    decreases s.len(),
{
    if k < s.len() - 1 {
        let p = s.drop_last();
        assert(p[k] == s[k]);
        match s.last() {
            Step::Remove(_) => lemma_pair_at_or_past_end(p, x, y, ex + 1, ey, k),
            Step::Add(_) => lemma_pair_at_or_past_end(p, x, y, ex, ey + 1, k),
            Step::Pair(_, _) => lemma_pair_at_or_past_end(p, x, y, ex + 1, ey + 1, k),
        }
    }
}

proof fn lemma_steps_end(s: Seq<Step>, x: nat, y: nat, ex: nat, ey: nat)
    requires
        steps_to(s, x, y, ex, ey),
    ensures
        ex <= x,
        ey <= y,
    decreases s.len(),
{
    if s.len() > 0 {
        let p = s.drop_last();
        match s.last() {
            Step::Remove(_) => lemma_steps_end(p, x, y, ex + 1, ey),
            Step::Add(_) => lemma_steps_end(p, x, y, ex, ey + 1),
            Step::Pair(_, _) => lemma_steps_end(p, x, y, ex + 1, ey + 1),
        }
    }
}

/// Every step names positions inside the group.
pub proof fn lemma_steps_in_range(s: Seq<Step>, x: nat, y: nat, ex: nat, ey: nat, k: int)
    requires
        steps_to(s, x, y, ex, ey),
        0 <= k < s.len(),
    ensures
        match s[k] {
            Step::Remove(i) => i < x,
            Step::Add(j) => j < y,
            Step::Pair(i, j) => i < x && j < y,
        },
    decreases s.len(),
{
    let p = s.drop_last();
    if k == s.len() - 1 {
        match s.last() {
            Step::Remove(_) => lemma_steps_end(p, x, y, ex + 1, ey),
            Step::Add(_) => lemma_steps_end(p, x, y, ex, ey + 1),
            Step::Pair(_, _) => lemma_steps_end(p, x, y, ex + 1, ey + 1),
        }
    } else {
        assert(p[k] == s[k]);
        match s.last() {
            Step::Remove(_) => lemma_steps_in_range(p, x, y, ex + 1, ey, k),
            Step::Add(_) => lemma_steps_in_range(p, x, y, ex, ey + 1, k),
            Step::Pair(_, _) => lemma_steps_in_range(p, x, y, ex + 1, ey + 1, k),
        }
    }
}

proof fn lemma_steps_do_not_cross(s: Seq<Step>, x: nat, y: nat, ex: nat, ey: nat, p: int, q: int)
    requires
        steps_to(s, x, y, ex, ey),
        0 <= p < q < s.len(),
        s[p] is Pair,
        s[q] is Pair,
    ensures
        s[p]->Pair_0 > s[q]->Pair_0,
        s[p]->Pair_1 > s[q]->Pair_1,
    decreases s.len(),
{
    let r = s.drop_last();
    assert(r[p] == s[p]);
    if q == s.len() - 1 {
        lemma_pair_at_or_past_end(r, x, y, ex + 1, ey + 1, p);
    } else {
        assert(r[q] == s[q]);
        match s.last() {
            Step::Remove(_) => lemma_steps_do_not_cross(r, x, y, ex + 1, ey, p, q),
            Step::Add(_) => lemma_steps_do_not_cross(r, x, y, ex, ey + 1, p, q),
            Step::Pair(_, _) => lemma_steps_do_not_cross(r, x, y, ex + 1, ey + 1, p, q),
        }
    }
}

/// The pairs of a refined replace group never cross: when removal `i` is paired with addition `j`,
/// no later removal is paired with an earlier addition. (The steps are listed back to front, so a
/// pair listed first lies further along both lists.)
pub proof fn lemma_pairs_never_cross(s: Seq<Step>, n: nat, m: nat, p: int, q: int)
    requires
        pairing_of(s, n, m),
        0 <= p < s.len(),
        0 <= q < s.len(),
        s[p] is Pair,
        s[q] is Pair,
        s[p]->Pair_0 > s[q]->Pair_0,
    ensures
        s[p]->Pair_1 > s[q]->Pair_1,
{
    if q < p {
        lemma_steps_do_not_cross(s, n, m, 0, 0, q, p);
    } else if p < q {
        lemma_steps_do_not_cross(s, n, m, 0, 0, p, q);
    }
}

fn best_table(table: &Vec<Vec<u64>>, n: usize, m: usize, Ghost(w): Ghost<spec_fn(int, int) -> nat>) -> (t: Vec<Vec<u128>>)
    requires
        weights(table@, w, n as nat, m as nat),
        m < usize::MAX,
    ensures
        t@.len() == n + 1,
        forall|i: int| 0 <= i <= n ==> #[trigger] t@[i]@.len() == m + 1,
        forall|i: int, j: int|
            0 <= i <= n && 0 <= j <= m ==> #[trigger] t@[i]@[j] == best(w, i as nat, j as nat),
{
    let mut t: Vec<Vec<u128>> = Vec::new();
    let mut first: Vec<u128> = Vec::new();
    let mut y: usize = 0;
    while y <= m
        invariant
            y <= m + 1,
            m < usize::MAX,
            first@.len() == y,
            forall|j: int| 0 <= j < y ==> #[trigger] first@[j] == best(w, 0, j as nat),
        decreases m + 1 - y,
    {
        first.push(0);
        y += 1;
    }
    t.push(first);
    let mut x: usize = 0;
    while x < n
        invariant
            x <= n,
            m < usize::MAX,
            weights(table@, w, n as nat, m as nat),
            t@.len() == x + 1,
            forall|i: int| 0 <= i <= x ==> #[trigger] t@[i]@.len() == m + 1,
            forall|i: int, j: int|
                0 <= i <= x && 0 <= j <= m ==> #[trigger] t@[i]@[j] == best(w, i as nat, j as nat),
        decreases n - x,
    {
        let mut row: Vec<u128> = vec![0];
        let mut y: usize = 0;
        while y < m
            invariant
                x < n,
                y <= m,
                m < usize::MAX,
                weights(table@, w, n as nat, m as nat),
                t@.len() == x + 1,
                forall|i: int| 0 <= i <= x ==> #[trigger] t@[i]@.len() == m + 1,
                forall|i: int, j: int|
                    0 <= i <= x && 0 <= j <= m ==> #[trigger] t@[i]@[j] == best(w, i as nat, j as nat),
                row.len() == y + 1,
                forall|j: int| 0 <= j <= y ==> #[trigger] row[j] == best(w, (x + 1) as nat, j as nat),
            decreases m - y,
        {
            proof {
                assert forall|i: int, j: int| 0 <= i < x && 0 <= j < y implies #[trigger] w(i, j) <= u64::MAX by {
                    assert(table@[i]@[j] as nat == w(i, j));
                }
                lemma_best_fits(w, x as nat, y as nat);
            }
            let skip = row[y];
            let pair = t[x][y] + table[x][y] as u128;
            row.push(if skip >= pair { skip } else { pair });
            y += 1;
        }
        t.push(row);
        x += 1;
    }
    t
}

/// Pairs removals with additions, back to front, for the greatest total closeness.
///
/// Walking back from the end, an addition stays plain when the best total without it is as good
/// (ties favour additions); otherwise it is paired with the current removal. Once the additions
/// run out the remaining removals stay plain, and once the removals run out so do the additions.
pub fn pair_up(table: &Vec<Vec<u64>>, n: usize, m: usize, Ghost(w): Ghost<spec_fn(int, int) -> nat>) -> (s: Vec<Step>)
    requires
        weights(table@, w, n as nat, m as nat),
        m < usize::MAX,
    ensures
        s@ == chosen(w, n as nat, m as nat),
        pairing_of(s@, n as nat, m as nat),
        gain(w, s@) == best(w, n as nat, m as nat),
{
    let t = best_table(table, n, m, Ghost(w));
    let mut s: Vec<Step> = Vec::new();
    let mut x: usize = n;
    let mut y: usize = m;
    while x > 0 || y > 0
        invariant
            x <= n,
            y <= m,
            weights(table@, w, n as nat, m as nat),
            t@.len() == n + 1,
            forall|i: int| 0 <= i <= n ==> #[trigger] t@[i]@.len() == m + 1,
            forall|i: int, j: int|
                0 <= i <= n && 0 <= j <= m ==> #[trigger] t@[i]@[j] == best(w, i as nat, j as nat),
            steps_to(s@, n as nat, m as nat, x as nat, y as nat),
            gain(w, s@) + best(w, x as nat, y as nat) == best(w, n as nat, m as nat),
            s@ + chosen(w, x as nat, y as nat) == chosen(w, n as nat, m as nat),
        decreases x + y,
    {
        let ghost before = s@;
        let ghost rest = chosen(w, x as nat, y as nat);
        if x == 0 {
            s.push(Step::Add(y - 1));
            y -= 1;
        } else if y == 0 {
            s.push(Step::Remove(x - 1));
            x -= 1;
        } else if t[x][y - 1] == t[x][y] {
            s.push(Step::Add(y - 1));
            y -= 1;
        } else {
            s.push(Step::Pair(x - 1, y - 1));
            x -= 1;
            y -= 1;
        }
        proof {
            assert(s@.drop_last() == before);
            assert(rest == seq![s@.last()] + chosen(w, x as nat, y as nat));
            assert(s@ + chosen(w, x as nat, y as nat) == before + rest);
        }
    }
    proof {
        assert(s@ + chosen(w, 0, 0) == s@);
    }
    s
}

} // verus!
