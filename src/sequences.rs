//! Edit scripts between lists of nodes: kept runs alternating with refined replace groups.
use vstd::prelude::*;

use crate::diff::{closeness_weights, compare_within, diff_for, Diff};
use crate::pairing::{
    best, chosen, lemma_chosen_removals_lead, lemma_steps_in_range, pair_up, pairing_of, Step,
};
use crate::script::{
    cost, edit_script, kept, lcs, lemma_dist_lcs, lemma_traceback_cost, lemma_edits_in_range, lemma_walk_counts, script_of, traceback, Edit,
};
use crate::tree::{equal_nodes, equal_values, table_fits, Tree};

verus! {

/// A list of `A` segments and `B` segments, alternating: an optional leading `A`, then pairs of a
/// `B` followed by an `A`, then an optional trailing `B`.
pub struct Interspersed<A, B> {
    pub first: Option<A>,
    pub values: Vec<(B, A)>,
    pub last: Option<B>,
}

impl<A, B> Interspersed<A, B> {
    pub fn new() -> (r: Self)
        ensures
            r.first is None,
            r.values@.len() == 0,
            r.last is None,
    {
        Interspersed { first: None, values: Vec::new(), last: None }
    }

    /// The leading `A` segment, opened with a default value when the list does not start with one.
    pub fn front_a(&mut self) -> (r: &mut A) where A: Default
        ensures
            old(self).first is Some ==> *r == old(self).first->Some_0,
            old(self).first is None ==> call_ensures(A::default, (), *r),
            final(self).first == Some(*final(r)),
            final(self).values == old(self).values,
            final(self).last == old(self).last,
    {
        self.first.get_or_insert(A::default())
    }

    /// The leading `B` segment. A leading `A` is first moved behind a new default `B`.
    pub fn front_b(&mut self) -> (r: &mut B) where B: Default
        ensures
            final(self).first is None,
            old(self).first is Some ==> {
                &&& call_ensures(B::default, (), *r)
                &&& final(self).values@.len() == old(self).values@.len() + 1
                &&& final(self).values@[0] == (*final(r), old(self).first->Some_0)
                &&& final(self).values@.skip(1) == old(self).values@
                &&& final(self).last == old(self).last
            },
            old(self).first is None && old(self).values@.len() > 0 ==> {
                &&& *r == old(self).values@[0].0
                &&& final(self).values@ == old(self).values@.update(
                    0,
                    (*final(r), old(self).values@[0].1),
                )
                &&& final(self).last == old(self).last
            },
            old(self).first is None && old(self).values@.len() == 0 ==> {
                &&& final(self).values@.len() == 0
                &&& old(self).last is Some ==> *r == old(self).last->Some_0
                &&& old(self).last is None ==> call_ensures(B::default, (), *r)
                &&& final(self).last == Some(*final(r))
            },
    {
        if let Some(a) = self.first.take() {
            self.values.insert(0, (B::default(), a));
        }
        if self.values.len() > 0 {
            &mut self.values[0].0
        } else {
            self.last.get_or_insert(B::default())
        }
    }
}

/// A run of removals followed by a run of additions.
pub struct ReplaceGroup {
    pub removals: Vec<usize>,
    pub additions: Vec<usize>,
}

impl Default for ReplaceGroup {
    fn default() -> (r: Self)
        ensures
            r.removals@.len() == 0,
            r.additions@.len() == 0,
    {
        ReplaceGroup { removals: Vec::new(), additions: Vec::new() }
    }
}

/// A refined replace group: plain groups alternating with runs of paired changes.
pub struct UpdatesGroup(pub Interspersed<ReplaceGroup, Vec<Diff>>);

/// An edit script: runs of kept elements alternating with refined replace groups.
pub struct Updates(pub Interspersed<UpdatesGroup, Vec<usize>>);

pub open spec fn kept_in_runs(v: Seq<(Vec<usize>, UpdatesGroup)>) -> nat
    decreases v.len(),
{
    if v.len() == 0 {
        0
    } else {
        kept_in_runs(v.drop_last()) + v.last().0@.len()
    }
}

pub open spec fn runs_concat(v: Seq<(Vec<usize>, UpdatesGroup)>) -> Seq<usize>
    decreases v.len(),
{
    if v.len() == 0 {
        seq![]
    } else {
        runs_concat(v.drop_last()) + v.last().0@
    }
}

pub open spec fn kept_at(a: Seq<usize>, e: Edit) -> Seq<usize> {
    match e {
        Edit::Keep(i) => seq![a[i as int]],
        _ => seq![],
    }
}

/// The elements of `a` that the back-to-front script `s` keeps, front to back.
pub open spec fn kept_elements(a: Seq<usize>, s: Seq<Edit>) -> Seq<usize>
    decreases s.len(),
{
    if s.len() == 0 {
        seq![]
    } else {
        kept_at(a, s.last()) + kept_elements(a, s.drop_last())
    }
}

proof fn lemma_kept_elements_first(a: Seq<usize>, s: Seq<Edit>)
    requires
        s.len() > 0,
    ensures
        kept_elements(a, s) == kept_elements(a, s.drop_first()) + kept_at(a, s[0]),
    decreases s.len(),
{
    let first = kept_at(a, s[0]);
    if s.len() > 1 {
        lemma_kept_elements_first(a, s.drop_last());
        let d = s.drop_last().drop_first();
        assert(d == s.drop_first().drop_last());
        assert(s.drop_first().last() == s.last());
        assert(s.drop_last()[0] == s[0]);
        let l = kept_at(a, s.last());
        assert(kept_elements(a, s) == l + (kept_elements(a, d) + first));
        assert(kept_elements(a, s.drop_first()) == l + kept_elements(a, d));
        assert(l + (kept_elements(a, d) + first) == (l + kept_elements(a, d)) + first);
    } else {
        assert(s.drop_first().len() == 0);
        assert(s.drop_last().len() == 0);
        assert(kept_elements(a, s.drop_last()) == Seq::<usize>::empty());
        assert(kept_elements(a, s.drop_first()) == Seq::<usize>::empty());
        assert(first + Seq::<usize>::empty() == first);
        assert(Seq::<usize>::empty() + first == first);
    }
}

/// The nodes that one step of a refined group leaves plain: a removal of `r` or an addition of `a`.
pub open spec fn plain_removal(r: Seq<usize>, st: Step) -> Seq<usize> {
    match st {
        Step::Remove(i) => seq![r[i as int]],
        _ => seq![],
    }
}

pub open spec fn plain_addition(a: Seq<usize>, st: Step) -> Seq<usize> {
    match st {
        Step::Add(j) => seq![a[j as int]],
        _ => seq![],
    }
}

/// The plain removals of the back-to-front steps `s`, front to back.
pub open spec fn removed_by(r: Seq<usize>, s: Seq<Step>) -> Seq<usize>
    decreases s.len(),
{
    if s.len() == 0 {
        seq![]
    } else {
        plain_removal(r, s.last()) + removed_by(r, s.drop_last())
    }
}

/// The plain additions of the back-to-front steps `s`, front to back.
pub open spec fn added_by(a: Seq<usize>, s: Seq<Step>) -> Seq<usize>
    decreases s.len(),
{
    if s.len() == 0 {
        seq![]
    } else {
        plain_addition(a, s.last()) + added_by(a, s.drop_last())
    }
}

/// Number of pairs among the steps `s`.
pub open spec fn pairs(s: Seq<Step>) -> nat
    decreases s.len(),
{
    if s.len() == 0 {
        0
    } else {
        pairs(s.drop_last()) + if s.last() is Pair {
            1nat
        } else {
            0nat
        }
    }
}

proof fn lemma_steps_first(r: Seq<usize>, a: Seq<usize>, s: Seq<Step>)
    requires
        s.len() > 0,
    ensures
        removed_by(r, s) == removed_by(r, s.drop_first()) + plain_removal(r, s[0]),
        added_by(a, s) == added_by(a, s.drop_first()) + plain_addition(a, s[0]),
        pairs(s) == pairs(s.drop_first()) + if s[0] is Pair {
            1nat
        } else {
            0nat
        },
    decreases s.len(),
{
    let fr = plain_removal(r, s[0]);
    let fa = plain_addition(a, s[0]);
    if s.len() > 1 {
        lemma_steps_first(r, a, s.drop_last());
        let d = s.drop_last().drop_first();
        assert(d == s.drop_first().drop_last());
        assert(s.drop_first().last() == s.last());
        assert(s.drop_last()[0] == s[0]);
        let lr = plain_removal(r, s.last());
        let la = plain_addition(a, s.last());
        assert(lr + (removed_by(r, d) + fr) == (lr + removed_by(r, d)) + fr);
        assert(la + (added_by(a, d) + fa) == (la + added_by(a, d)) + fa);
        assert(pairs(s.drop_first()) == pairs(d) + if s.last() is Pair {
            1nat
        } else {
            0nat
        });
    } else {
        assert(s.last() == s[0]);
        assert(pairs(s.drop_last()) == 0);
        assert(pairs(s.drop_first()) == 0);
        assert(s.drop_first().len() == 0);
        assert(s.drop_last().len() == 0);
        assert(removed_by(r, s.drop_last()) == Seq::<usize>::empty());
        assert(removed_by(r, s.drop_first()) == Seq::<usize>::empty());
        assert(added_by(a, s.drop_last()) == Seq::<usize>::empty());
        assert(added_by(a, s.drop_first()) == Seq::<usize>::empty());
        assert(fr + Seq::<usize>::empty() == fr);
        assert(Seq::<usize>::empty() + fr == fr);
        assert(fa + Seq::<usize>::empty() == fa);
        assert(Seq::<usize>::empty() + fa == fa);
    }
}

pub open spec fn pair_at(st: Step) -> Seq<(usize, usize)> {
    match st {
        Step::Pair(i, j) => seq![(i, j)],
        _ => seq![],
    }
}

/// The pairs of the back-to-front steps `s`, front to back, as positions in the group.
pub open spec fn paired_by(s: Seq<Step>) -> Seq<(usize, usize)>
    decreases s.len(),
{
    if s.len() == 0 {
        seq![]
    } else {
        pair_at(s.last()) + paired_by(s.drop_last())
    }
}

proof fn lemma_paired_first(s: Seq<Step>)
    requires
        s.len() > 0,
    ensures
        paired_by(s) == paired_by(s.drop_first()) + pair_at(s[0]),
    decreases s.len(),
{
    let f = pair_at(s[0]);
    if s.len() > 1 {
        lemma_paired_first(s.drop_last());
        let d = s.drop_last().drop_first();
        assert(d == s.drop_first().drop_last());
        assert(s.drop_first().last() == s.last());
        assert(s.drop_last()[0] == s[0]);
        let l = pair_at(s.last());
        assert(l + (paired_by(d) + f) == (l + paired_by(d)) + f);
    } else {
        assert(s.drop_first().len() == 0);
        assert(s.drop_last().len() == 0);
        assert(paired_by(s.drop_last()) == Seq::<(usize, usize)>::empty());
        assert(paired_by(s.drop_first()) == Seq::<(usize, usize)>::empty());
        assert(f + Seq::<(usize, usize)>::empty() == f);
        assert(Seq::<(usize, usize)>::empty() + f == f);
    }
}

/// One element of an edit script as it is laid out, front to back.
pub enum Entry {
    Keep(usize),
    Remove(usize),
    Add(usize),
    Change(Diff),
}

/// One element of an edit script as the algorithm decides it, front to back; a pair names the
/// removed and the added node.
pub enum Item {
    Keep(usize),
    Remove(usize),
    Add(usize),
    Pair(usize, usize),
}

pub open spec fn entry_fits(eqt: Vec<Vec<bool>>, ft: Tree, tt: Tree, e: Entry, i: Item) -> bool {
    match (e, i) {
        (Entry::Keep(x), Item::Keep(y)) => x == y,
        (Entry::Remove(x), Item::Remove(y)) => x == y,
        (Entry::Add(x), Item::Add(y)) => x == y,
        (Entry::Change(d), Item::Pair(f, t)) => diff_for(eqt, ft, f as nat, tt, t as nat, d),
        _ => false,
    }
}

/// `es` lays out `is` element for element, each change being the diff of its pair.
pub open spec fn lays_out(eqt: Vec<Vec<bool>>, ft: Tree, tt: Tree, es: Seq<Entry>, is: Seq<Item>) -> bool {
    &&& es.len() == is.len()
    &&& forall|k: int| 0 <= k < es.len() ==> #[trigger] entry_fits(eqt, ft, tt, es[k], is[k])
}

pub open spec fn item_at(r: Seq<usize>, a: Seq<usize>, st: Step) -> Seq<Item> {
    match st {
        Step::Remove(i) => seq![Item::Remove(r[i as int])],
        Step::Add(j) => seq![Item::Add(a[j as int])],
        Step::Pair(i, j) => seq![Item::Pair(r[i as int], a[j as int])],
    }
}

/// The items of the back-to-front steps `s` over removals `r` and additions `a`, front to back.
pub open spec fn pair_items(r: Seq<usize>, a: Seq<usize>, s: Seq<Step>) -> Seq<Item>
    decreases s.len(),
{
    if s.len() == 0 {
        seq![]
    } else {
        item_at(r, a, s.last()) + pair_items(r, a, s.drop_last())
    }
}

proof fn lemma_items_first(r: Seq<usize>, a: Seq<usize>, s: Seq<Step>)
    requires
        s.len() > 0,
    ensures
        pair_items(r, a, s) == pair_items(r, a, s.drop_first()) + item_at(r, a, s[0]),
    decreases s.len(),
{
    let f = item_at(r, a, s[0]);
    if s.len() > 1 {
        lemma_items_first(r, a, s.drop_last());
        let d = s.drop_last().drop_first();
        assert(d == s.drop_first().drop_last());
        assert(s.drop_first().last() == s.last());
        assert(s.drop_last()[0] == s[0]);
        let l = item_at(r, a, s.last());
        assert(l + (pair_items(r, a, d) + f) == (l + pair_items(r, a, d)) + f);
    } else {
        assert(s.drop_first().len() == 0);
        assert(s.drop_last().len() == 0);
        assert(pair_items(r, a, s.drop_last()) == Seq::<Item>::empty());
        assert(pair_items(r, a, s.drop_first()) == Seq::<Item>::empty());
        assert(f + Seq::<Item>::empty() == f);
        assert(Seq::<Item>::empty() + f == f);
    }
}

pub open spec fn removal_entries(v: Seq<usize>) -> Seq<Entry> {
    v.map_values(|n: usize| Entry::Remove(n))
}

pub open spec fn addition_entries(v: Seq<usize>) -> Seq<Entry> {
    v.map_values(|n: usize| Entry::Add(n))
}

pub open spec fn change_entries(v: Seq<Diff>) -> Seq<Entry> {
    v.map_values(|d: Diff| Entry::Change(d))
}

pub open spec fn plain_entries(g: Option<ReplaceGroup>) -> Seq<Entry> {
    match g {
        Some(p) => removal_entries(p.removals@) + addition_entries(p.additions@),
        None => seq![],
    }
}

pub open spec fn run_entries(ds: Option<Vec<Diff>>) -> Seq<Entry> {
    change_entries(run_of(ds))
}

pub open spec fn refined_entries(v: Seq<(Vec<Diff>, ReplaceGroup)>) -> Seq<Entry>
    decreases v.len(),
{
    if v.len() == 0 {
        seq![]
    } else {
        refined_entries(v.drop_last()) + change_entries(v.last().0@) + plain_entries(Some(v.last().1))
    }
}

/// The entries of a group being assembled: the finished part, the open run of changes, and the
/// open plain group.
pub open spec fn assembly(
    first: Option<ReplaceGroup>,
    values: Seq<(Vec<Diff>, ReplaceGroup)>,
    changes: Option<Vec<Diff>>,
    plain: Option<ReplaceGroup>,
) -> Seq<Entry> {
    plain_entries(first) + refined_entries(values) + run_entries(changes) + plain_entries(plain)
}

/// Back to front, once a plain removal is listed only plain removals follow.
pub open spec fn removals_lead(s: Seq<Step>) -> bool {
    forall|p: int, q: int| 0 <= p < q < s.len() && #[trigger] s[p] is Remove ==> #[trigger] s[q] is Remove
}

proof fn lemma_lays_out_push(eqt: Vec<Vec<bool>>, ft: Tree, tt: Tree, es: Seq<Entry>, is: Seq<Item>, e: Entry, i: Item)
    requires
        lays_out(eqt, ft, tt, es, is),
        entry_fits(eqt, ft, tt, e, i),
    ensures
        lays_out(eqt, ft, tt, es.push(e), is.push(i)),
{
    assert forall|k: int| 0 <= k < es.len() + 1 implies #[trigger] entry_fits(eqt, ft, tt, es.push(e)[k], is.push(i)[k]) by {
        if k < es.len() {
            assert(es.push(e)[k] == es[k]);
            assert(is.push(i)[k] == is[k]);
        }
    }
}

/// The refinement of a replace group with removals `r` and additions `a`, front to back.
pub open spec fn refined_items(eqt: Vec<Vec<bool>>, ft: Tree, tt: Tree, r: Seq<usize>, a: Seq<usize>) -> Seq<Item> {
    pair_items(r, a, chosen(closeness_weights(eqt, ft, r, tt, a), r.len(), a.len()))
}

/// The edit script `s` between `a` and `b`, listed back to front, laid out front to back: kept
/// elements, and each maximal run of removals and additions refined as one replace group.
/// `r` and `ad` are the removals and additions of the run still open.
pub open spec fn layout(
    eqt: Vec<Vec<bool>>,
    ft: Tree,
    tt: Tree,
    a: Seq<usize>,
    b: Seq<usize>,
    s: Seq<Edit>,
    r: Seq<usize>,
    ad: Seq<usize>,
) -> Seq<Item>
    decreases s.len(),
{
    if s.len() == 0 {
        refined_items(eqt, ft, tt, r, ad)
    } else {
        match s.last() {
            Edit::Keep(i) => refined_items(eqt, ft, tt, r, ad) + seq![Item::Keep(a[i as int])] + layout(
                eqt,
                ft,
                tt,
                a,
                b,
                s.drop_last(),
                seq![],
                seq![],
            ),
            Edit::Remove(i) => layout(eqt, ft, tt, a, b, s.drop_last(), r.push(a[i as int]), ad),
            Edit::Add(j) => layout(eqt, ft, tt, a, b, s.drop_last(), r, ad.push(b[j as int])),
        }
    }
}

pub open spec fn item_weight(i: Item) -> nat {
    match i {
        Item::Keep(_) => 0,
        Item::Pair(_, _) => 2,
        _ => 1,
    }
}

/// Removals plus additions in `is`, a pair counting as one of each.
pub open spec fn edit_count(is: Seq<Item>) -> nat
    decreases is.len(),
{
    if is.len() == 0 {
        0
    } else {
        edit_count(is.drop_last()) + item_weight(is.last())
    }
}

proof fn lemma_edit_count_concat(p: Seq<Item>, q: Seq<Item>)
    ensures
        edit_count(p + q) == edit_count(p) + edit_count(q),
    decreases q.len(),
{
    if q.len() == 0 {
        assert(p + q == p);
    } else {
        lemma_edit_count_concat(p, q.drop_last());
        assert((p + q).drop_last() == p + q.drop_last());
        assert((p + q).last() == q.last());
    }
}

proof fn lemma_chosen_count(w: spec_fn(int, int) -> nat, r: Seq<usize>, a: Seq<usize>, x: nat, y: nat)
    ensures
        edit_count(pair_items(r, a, chosen(w, x, y))) == x + y,
    decreases x + y,
{
    let s = chosen(w, x, y);
    if x > 0 || y > 0 {
        lemma_items_first(r, a, s);
        let rest = s.drop_first();
        if x == 0 || (y > 0 && best(w, x, (y - 1) as nat) == best(w, x, y)) {
            assert(rest == chosen(w, x, (y - 1) as nat));
            lemma_chosen_count(w, r, a, x, (y - 1) as nat);
        } else if y == 0 {
            assert(rest == chosen(w, (x - 1) as nat, y));
            lemma_chosen_count(w, r, a, (x - 1) as nat, y);
        } else {
            assert(rest == chosen(w, (x - 1) as nat, (y - 1) as nat));
            lemma_chosen_count(w, r, a, (x - 1) as nat, (y - 1) as nat);
        }
        let h = item_at(r, a, s[0]);
        lemma_edit_count_concat(pair_items(r, a, rest), h);
        assert(edit_count(h) == item_weight(h[0])) by {
            assert(h.len() == 1);
            assert(h.drop_last() =~= Seq::<Item>::empty());
            assert(edit_count(h.drop_last()) == 0);
            assert(h.last() == h[0]);
        }
    }
}

proof fn lemma_layout_count(
    eqt: Vec<Vec<bool>>,
    ft: Tree,
    tt: Tree,
    a: Seq<usize>,
    b: Seq<usize>,
    s: Seq<Edit>,
    r: Seq<usize>,
    ad: Seq<usize>,
)
    ensures
        edit_count(layout(eqt, ft, tt, a, b, s, r, ad)) == cost(s) + r.len() + ad.len(),
    decreases s.len(),
{
    let ri = refined_items(eqt, ft, tt, r, ad);
    lemma_chosen_count(closeness_weights(eqt, ft, r, tt, ad), r, ad, r.len(), ad.len());
    if s.len() > 0 {
        let rest = s.drop_last();
        match s.last() {
            Edit::Keep(i) => {
                lemma_layout_count(eqt, ft, tt, a, b, rest, seq![], seq![]);
                let k = seq![Item::Keep(a[i as int])];
                assert(edit_count(k) == 0) by {
                    assert(k.len() == 1);
                    assert(k.drop_last() =~= Seq::<Item>::empty());
                    assert(edit_count(k.drop_last()) == 0);
                    assert(k.last() == Item::Keep(a[i as int]));
                }
                lemma_edit_count_concat(ri, k);
                lemma_edit_count_concat(ri + k, layout(eqt, ft, tt, a, b, rest, seq![], seq![]));
            },
            Edit::Remove(i) => lemma_layout_count(eqt, ft, tt, a, b, rest, r.push(a[i as int]), ad),
            Edit::Add(j) => lemma_layout_count(eqt, ft, tt, a, b, rest, r, ad.push(b[j as int])),
        }
    }
}

proof fn lemma_refined_nonempty(eqt: Vec<Vec<bool>>, ft: Tree, tt: Tree, r: Seq<usize>, a: Seq<usize>, u: UpdatesGroup)
    requires
        r.len() + a.len() > 0,
        lays_out(eqt, ft, tt, u.entries(), refined_items(eqt, ft, tt, r, a)),
    ensures
        u.entries().len() > 0,
{
    lemma_chosen_count(closeness_weights(eqt, ft, r, tt, a), r, a, r.len(), a.len());
    if refined_items(eqt, ft, tt, r, a).len() == 0 {
        assert(edit_count(refined_items(eqt, ft, tt, r, a)) == 0);
    }
}

/// The refined edit script between two lists removes and adds, counting each pair as one removal
/// and one addition, as many elements as the two lists hold beyond a longest common subsequence.
pub proof fn lemma_sequence_edit_count(eqt: Vec<Vec<bool>>, ft: Tree, tt: Tree, a: Seq<usize>, b: Seq<usize>)
    ensures
        edit_count(
            layout(
                eqt,
                ft,
                tt,
                a,
                b,
                traceback(element_equality(eqt, ft, a, tt, b), a.len(), b.len()),
                seq![],
                seq![],
            ),
        ) + 2 * lcs(element_equality(eqt, ft, a, tt, b), a.len(), b.len()) == a.len() + b.len(),
{
    let eq = element_equality(eqt, ft, a, tt, b);
    lemma_layout_count(eqt, ft, tt, a, b, traceback(eq, a.len(), b.len()), seq![], seq![]);
    lemma_traceback_cost(eq, a.len(), b.len());
    lemma_dist_lcs(eq, a.len(), b.len());
}

pub open spec fn keep_entries(v: Seq<usize>) -> Seq<Entry> {
    v.map_values(|n: usize| Entry::Keep(n))
}

pub open spec fn keeps_of(k: Option<Vec<usize>>) -> Seq<usize> {
    match k {
        Some(v) => v@,
        None => seq![],
    }
}

pub open spec fn group_entries(g: Option<UpdatesGroup>) -> Seq<Entry> {
    match g {
        Some(u) => u.entries(),
        None => seq![],
    }
}

pub open spec fn script_entries(v: Seq<(Vec<usize>, UpdatesGroup)>) -> Seq<Entry>
    decreases v.len(),
{
    if v.len() == 0 {
        seq![]
    } else {
        script_entries(v.drop_last()) + keep_entries(v.last().0@) + v.last().1.entries()
    }
}

proof fn lemma_lays_out_concat(
    eqt: Vec<Vec<bool>>,
    ft: Tree,
    tt: Tree,
    e1: Seq<Entry>,
    i1: Seq<Item>,
    e2: Seq<Entry>,
    i2: Seq<Item>,
)
    requires
        lays_out(eqt, ft, tt, e1, i1),
        lays_out(eqt, ft, tt, e2, i2),
    ensures
        lays_out(eqt, ft, tt, e1 + e2, i1 + i2),
{
    assert forall|k: int| 0 <= k < e1.len() + e2.len() implies #[trigger] entry_fits(eqt, ft, tt, (e1 + e2)[k], (i1 + i2)[k]) by {
        if k < e1.len() {
            assert((e1 + e2)[k] == e1[k]);
            assert((i1 + i2)[k] == i1[k]);
        } else {
            assert((e1 + e2)[k] == e2[k - e1.len()]);
            assert((i1 + i2)[k] == i2[k - e1.len()]);
        }
    }
}

pub open spec fn run_of(ds: Option<Vec<Diff>>) -> Seq<Diff> {
    match ds {
        Some(ds) => ds@,
        None => seq![],
    }
}

pub open spec fn changes_of(v: Seq<(Vec<Diff>, ReplaceGroup)>) -> Seq<Diff>
    decreases v.len(),
{
    if v.len() == 0 {
        seq![]
    } else {
        changes_of(v.drop_last()) + v.last().0@
    }
}

/// The `k`-th diff of `ds` compares the removal and the addition of the `k`-th pair of `ps`.
pub open spec fn compares_pairs(
    eqt: Vec<Vec<bool>>,
    ft: Tree,
    r: Seq<usize>,
    tt: Tree,
    a: Seq<usize>,
    ps: Seq<(usize, usize)>,
    ds: Seq<Diff>,
) -> bool {
    &&& ds.len() == ps.len()
    &&& forall|k: int|
        #![trigger ds[k]]
        0 <= k < ds.len() ==> diff_for(eqt, ft, r[ps[k].0 as int] as nat, tt, a[ps[k].1 as int] as nat, ds[k])
}

pub open spec fn group_removals(g: Option<ReplaceGroup>) -> Seq<usize> {
    match g {
        Some(p) => p.removals@,
        None => seq![],
    }
}

pub open spec fn group_additions(g: Option<ReplaceGroup>) -> Seq<usize> {
    match g {
        Some(p) => p.additions@,
        None => seq![],
    }
}

pub open spec fn removals_in(v: Seq<(Vec<Diff>, ReplaceGroup)>) -> Seq<usize>
    decreases v.len(),
{
    if v.len() == 0 {
        seq![]
    } else {
        removals_in(v.drop_last()) + v.last().1.removals@
    }
}

pub open spec fn additions_in(v: Seq<(Vec<Diff>, ReplaceGroup)>) -> Seq<usize>
    decreases v.len(),
{
    if v.len() == 0 {
        seq![]
    } else {
        additions_in(v.drop_last()) + v.last().1.additions@
    }
}

pub open spec fn changes_in(v: Seq<(Vec<Diff>, ReplaceGroup)>) -> nat
    decreases v.len(),
{
    if v.len() == 0 {
        0
    } else {
        changes_in(v.drop_last()) + v.last().0@.len()
    }
}

impl UpdatesGroup {
    /// The removals left plain, front to back.
    pub open spec fn plain_removals(self) -> Seq<usize> {
        group_removals(self.0.first) + removals_in(self.0.values@)
    }

    /// The additions left plain, front to back.
    pub open spec fn plain_additions(self) -> Seq<usize> {
        group_additions(self.0.first) + additions_in(self.0.values@)
    }

    /// The group laid out front to back.
    pub open spec fn entries(self) -> Seq<Entry> {
        plain_entries(self.0.first) + refined_entries(self.0.values@) + run_entries(self.0.last)
    }

    /// The paired changes, front to back.
    pub open spec fn changes(self) -> Seq<Diff> {
        changes_of(self.0.values@) + match self.0.last {
            Some(ds) => ds@,
            None => seq![],
        }
    }

    /// Number of paired changes.
    pub open spec fn change_count(self) -> nat {
        changes_in(self.0.values@) + match self.0.last {
            Some(ds) => ds@.len(),
            None => 0,
        }
    }
}

/// Saturates at the largest `u64`.
pub open spec fn capped(n: nat) -> nat {
    if n <= u64::MAX {
        n
    } else {
        u64::MAX as nat
    }
}

/// `eq(i, j)`: element `i` of `a` in `ft` equals element `j` of `b` in `tt`.
pub open spec fn element_equality(eqt: Vec<Vec<bool>>, ft: Tree, a: Seq<usize>, tt: Tree, b: Seq<usize>) -> spec_fn(
    int,
    int,
) -> bool {
    |i: int, j: int| equal_nodes(eqt, ft, a[i] as nat, tt, b[j] as nat)
}

/// The elements of `a` are nodes of `ft` below `bound`, those of `b` nodes of `tt`.
pub open spec fn lists_in(ft: Tree, a: Seq<usize>, tt: Tree, b: Seq<usize>, bound: nat) -> bool {
    &&& forall|i: int| 0 <= i < a.len() ==> #[trigger] a[i] < bound && a[i] < ft.nodes.len()
    &&& forall|j: int| 0 <= j < b.len() ==> #[trigger] b[j] < tt.nodes.len()
}

impl Updates {
    /// Number of kept elements.
    pub open spec fn kept_total(self) -> nat {
        kept_in_runs(self.0.values@) + match self.0.last {
            Some(k) => k@.len(),
            None => 0,
        }
    }

    /// The kept elements, front to back.
    pub open spec fn kept_nodes(self) -> Seq<usize> {
        runs_concat(self.0.values@) + match self.0.last {
            Some(k) => k@,
            None => seq![],
        }
    }

    /// Every kept run and every replace group holds at least one element.
    pub open spec fn runs_nonempty(self) -> bool {
        &&& self.0.first is Some ==> self.0.first->Some_0.entries().len() > 0
        &&& forall|k: int|
            #![trigger self.0.values@[k]]
            0 <= k < self.0.values@.len() ==> self.0.values@[k].0@.len() > 0
                && self.0.values@[k].1.entries().len() > 0
        &&& self.0.last is Some ==> self.0.last->Some_0@.len() > 0
    }

    /// The edit script laid out front to back.
    pub open spec fn entries(self) -> Seq<Entry> {
        group_entries(self.0.first) + script_entries(self.0.values@) + keep_entries(keeps_of(self.0.last))
    }

    /// The similarity score of a sequence: the number of kept elements.
    pub(crate) fn closeness(&self) -> (r: u64)
        ensures
            r == capped(self.kept_total()),
    {
        let mut sum: u64 = 0;
        let mut i: usize = 0;
        while i < self.0.values.len()
            invariant
                i <= self.0.values@.len(),
                sum == capped(kept_in_runs(self.0.values@.subrange(0, i as int))),
            decreases self.0.values@.len() - i,
        {
            proof {
                assert(self.0.values@.subrange(0, i as int + 1).drop_last() == self.0.values@.subrange(0, i as int));
            }
            let len = self.0.values[i].0.len() as u64;
            sum = if sum > u64::MAX - len { u64::MAX } else { sum + len };
            i += 1;
        }
        proof {
            assert(self.0.values@.subrange(0, i as int) == self.0.values@);
        }
        match &self.0.last {
            Some(k) => {
                let len = k.len() as u64;
                if sum > u64::MAX - len { u64::MAX } else { sum + len }
            },
            None => sum,
        }
    }
}

/// Refines a replace group: pairs removals with additions for the greatest total closeness, and
/// compares each pair. Every removal and every addition is used once, plain or in a pair, in order.
fn refine(eqt: &Vec<Vec<bool>>, ft: &Tree, tt: &Tree, group: ReplaceGroup, Ghost(bound): Ghost<nat>) -> (r: UpdatesGroup)
    requires
        ft.wf(),
        tt.wf(),
        table_fits(*eqt, *ft, *tt),
        lists_in(*ft, group.removals@, *tt, group.additions@, bound),
        group.additions@.len() < usize::MAX,
    ensures
        ({
            let s = chosen(
                closeness_weights(*eqt, *ft, group.removals@, *tt, group.additions@),
                group.removals@.len(),
                group.additions@.len(),
            );
            &&& r.plain_removals() == removed_by(group.removals@, s)
            &&& r.plain_additions() == added_by(group.additions@, s)
            &&& r.change_count() == pairs(s)
            &&& compares_pairs(*eqt, *ft, group.removals@, *tt, group.additions@, paired_by(s), r.changes())
            &&& lays_out(*eqt, *ft, *tt, r.entries(), pair_items(group.removals@, group.additions@, s))
        }),
    decreases bound, 1nat,
{
    let n = group.removals.len();
    let m = group.additions.len();
    let ghost w_spec = closeness_weights(*eqt, *ft, group.removals@, *tt, group.additions@);
    let mut w: Vec<Vec<u64>> = Vec::new();
    let mut i: usize = 0;
    while i < n
        invariant
            i <= n,
            n == group.removals@.len(),
            m == group.additions@.len(),
            ft.wf(),
            tt.wf(),
            table_fits(*eqt, *ft, *tt),
            lists_in(*ft, group.removals@, *tt, group.additions@, bound),
            w_spec == closeness_weights(*eqt, *ft, group.removals@, *tt, group.additions@),
            w@.len() == i,
            forall|k: int| 0 <= k < i ==> #[trigger] w@[k]@.len() == m,
            forall|x: int, y: int| 0 <= x < i && 0 <= y < m ==> #[trigger] w@[x]@[y] as nat == w_spec(x, y),
        decreases n - i,
    {
        let mut row: Vec<u64> = Vec::new();
        let mut j: usize = 0;
        while j < m
            invariant
                i < n,
                j <= m,
                n == group.removals@.len(),
                m == group.additions@.len(),
                ft.wf(),
                tt.wf(),
                table_fits(*eqt, *ft, *tt),
                lists_in(*ft, group.removals@, *tt, group.additions@, bound),
                w_spec == closeness_weights(*eqt, *ft, group.removals@, *tt, group.additions@),
                row@.len() == j,
                forall|y: int| 0 <= y < j ==> #[trigger] row@[y] as nat == w_spec(i as int, y),
            decreases m - j,
        {
            let d = compare_within(eqt, ft, tt, group.removals[i], group.additions[j]);
            row.push(d.closeness());
            proof {
                assert(row@[j as int] as nat == w_spec(i as int, j as int));
            }
            j += 1;
        }
        w.push(row);
        i += 1;
    }
    let s = pair_up(&w, n, m, Ghost(w_spec));
    proof {
        assert forall|p: int, q: int| 0 <= p < q < s@.len() && #[trigger] s@[p] is Remove implies #[trigger] s@[q] is Remove by {
            lemma_chosen_removals_lead(w_spec, n as nat, m as nat, p, q);
        }
    }
    assemble(eqt, ft, tt, &group, &s, Ghost(bound))
}

/// Lays out the steps of a pairing, front to back: plain groups of removals and additions
/// alternating with runs of the paired changes, each pair compared.
#[verifier::rlimit(100)]
fn assemble(eqt: &Vec<Vec<bool>>, ft: &Tree, tt: &Tree, group: &ReplaceGroup, s: &Vec<Step>, Ghost(bound): Ghost<nat>) -> (r: UpdatesGroup)
    requires
        ft.wf(),
        tt.wf(),
        table_fits(*eqt, *ft, *tt),
        lists_in(*ft, group.removals@, *tt, group.additions@, bound),
        pairing_of(s@, group.removals@.len(), group.additions@.len()),
        removals_lead(s@),
    ensures
        lays_out(*eqt, *ft, *tt, r.entries(), pair_items(group.removals@, group.additions@, s@)),
        r.plain_removals() == removed_by(group.removals@, s@),
        r.plain_additions() == added_by(group.additions@, s@),
        r.change_count() == pairs(s@),
        compares_pairs(*eqt, *ft, group.removals@, *tt, group.additions@, paired_by(s@), r.changes()),
    decreases bound, 0nat,
{
    let ghost n = group.removals@.len();
    let ghost m = group.additions@.len();
    let ghost rs = group.removals@;
    let ghost ad = group.additions@;
    let mut first: Option<ReplaceGroup> = None;
    let mut values: Vec<(Vec<Diff>, ReplaceGroup)> = Vec::new();
    let mut changes: Option<Vec<Diff>> = None;
    let mut plain: Option<ReplaceGroup> = None;
    let mut k: usize = s.len();
    proof {
        assert(s@.subrange(s@.len() as int, s@.len() as int) == Seq::<Step>::empty());
    }
    while k > 0
        invariant
            k <= s@.len(),
            pairing_of(s@, n, m),
            n == rs.len(),
            m == ad.len(),
            rs == group.removals@,
            ad == group.additions@,
            ft.wf(),
            tt.wf(),
            table_fits(*eqt, *ft, *tt),
            lists_in(*ft, group.removals@, *tt, group.additions@, bound),
            changes is None ==> first is None && values@.len() == 0,
            group_removals(first) + removals_in(values@) + group_removals(plain) == removed_by(
                rs,
                s@.subrange(k as int, s@.len() as int),
            ),
            group_additions(first) + additions_in(values@) + group_additions(plain) == added_by(
                ad,
                s@.subrange(k as int, s@.len() as int),
            ),
            changes_in(values@) + match changes {
                Some(ds) => ds@.len(),
                None => 0,
            } == pairs(s@.subrange(k as int, s@.len() as int)),
            compares_pairs(
                *eqt,
                *ft,
                rs,
                *tt,
                ad,
                paired_by(s@.subrange(k as int, s@.len() as int)),
                changes_of(values@) + run_of(changes),
            ),
            removals_lead(s@),
            lays_out(*eqt, *ft, *tt, assembly(first, values@, changes, plain), pair_items(rs, ad, s@.subrange(k as int, s@.len() as int))),
            (forall|q: int| k <= q < s@.len() ==> #[trigger] s@[q] is Remove) ==> (group_additions(plain).len() == 0 && changes is None),
        decreases k,
    {
        let ghost done = s@.subrange(k as int, s@.len() as int);
        let ghost next = s@.subrange(k - 1, s@.len() as int);
        proof {
            lemma_steps_in_range(s@, n, m, 0, 0, k - 1);
            lemma_steps_first(rs, ad, next);
            lemma_paired_first(next);
            lemma_items_first(rs, ad, next);
            assert(next.drop_first() == done);
            assert(next[0] == s@[k - 1]);
        }
        let ghost first0 = first;
        let ghost values0 = values@;
        let ghost plain0 = plain;
        let ghost changes0 = changes;
        let ghost e0 = assembly(first, values@, changes, plain);
        match s[k - 1] {
            Step::Pair(x, y) => {
                if let Some(p) = plain.take() {
                    match changes.take() {
                        Some(ds) => {
                            proof {
                                assert(values@.push((ds, p)).drop_last() == values@);
                                assert(values@.push((ds, p)).last() == (ds, p));
                                assert(changes_of(values@.push((ds, p))) == changes_of(values@) + ds@);
                            }
                            values.push((ds, p));
                        },
                        None => first = Some(p),
                    }
                }
                let ghost before = changes_of(values@) + run_of(changes);
                let ghost e_mid = assembly(first, values@, changes, plain);
                proof {
                    if plain0 is Some {
                        if changes0 is Some {
                            assert(values@ == values0.push((changes0->Some_0, plain0->Some_0)));
                            assert(values@.drop_last() == values0);
                            assert(refined_entries(values@) == refined_entries(values0) + change_entries(
                                run_of(changes0),
                            ) + plain_entries(plain0));
                        } else {
                            assert(refined_entries(values@) =~= Seq::<Entry>::empty());
                            assert(run_entries(changes0) =~= Seq::<Entry>::empty());
                        }
                    }
                    assert(e_mid =~= e0);
                }
                proof {
                    assert(before == changes_of(values0) + run_of(changes0)) by {
                        if changes0 is None {
                            assert(before == Seq::<Diff>::empty() + Seq::<Diff>::empty());
                        }
                    }
                }
                proof {
                    assert(group_removals(first) + removals_in(values@) == group_removals(first0)
                        + removals_in(values0) + group_removals(plain0));
                    assert(group_additions(first) + additions_in(values@) == group_additions(first0)
                        + additions_in(values0) + group_additions(plain0));
                }
                let d = compare_within(eqt, ft, tt, group.removals[x], group.additions[y]);
                let mut ds = match changes.take() {
                    Some(ds) => ds,
                    None => Vec::new(),
                };
                let ghost old_ds = ds@;
                ds.push(d);
                changes = Some(ds);
                proof {
                    assert(before == changes_of(values@) + old_ds);
                    let now = changes_of(values@) + ds@;
                    assert(now == before.push(d));
                    let ps = paired_by(next);
                    assert(ps == paired_by(done) + seq![(x, y)]);
                    assert(now.len() == ps.len());
                    assert forall|q: int| 0 <= q < now.len() implies #[trigger] diff_for(*eqt, *ft, rs[ps[q].0 as int] as nat, *tt, ad[ps[q].1 as int] as nat, now[q]) by {
                        if q < before.len() {
                            assert(now[q] == before[q]);
                            assert(ps[q] == paired_by(done)[q]);
                        }
                    }
                    assert(plain_removal(rs, next[0]) == Seq::<usize>::empty());
                    assert(plain_addition(ad, next[0]) == Seq::<usize>::empty());
                    assert(group_removals(plain) == Seq::<usize>::empty());
                    assert(group_additions(plain) == Seq::<usize>::empty());
                    assert(group_removals(first) + removals_in(values@) + group_removals(plain)
                        == group_removals(first) + removals_in(values@));
                    assert(group_additions(first) + additions_in(values@) + group_additions(plain)
                        == group_additions(first) + additions_in(values@));
                    assert(removed_by(rs, done) + Seq::<usize>::empty() == removed_by(rs, done));
                    assert(added_by(ad, done) + Seq::<usize>::empty() == added_by(ad, done));
                }
                proof {
                    let it = Item::Pair(rs[x as int], ad[y as int]);
                    assert(change_entries(old_ds.push(d)) =~= change_entries(old_ds).push(Entry::Change(d)));
                    assert(run_of(changes) == old_ds.push(d));
                    assert(plain_entries(plain) =~= Seq::<Entry>::empty());
                    assert(assembly(first, values@, changes, plain) =~= e_mid.push(Entry::Change(d)));
                    assert(item_at(rs, ad, next[0]) == seq![it]);
                    assert(pair_items(rs, ad, next) =~= pair_items(rs, ad, done).push(it));
                    lemma_lays_out_push(*eqt, *ft, *tt, e0, pair_items(rs, ad, done), Entry::Change(d), it);
                    assert(!(s@[k - 1] is Remove));
                }
            },
            Step::Remove(x) => {
                let mut p = match plain.take() {
                    Some(p) => p,
                    None => ReplaceGroup::default(),
                };
                p.removals.push(group.removals[x]);
                plain = Some(p);
                proof {
                    assert(pair_at(next[0]) == Seq::<(usize, usize)>::empty());
                    assert(paired_by(next) == paired_by(done));
                    assert(plain_addition(ad, next[0]) == Seq::<usize>::empty());
                    assert(group_additions(plain) == group_additions(plain0));
                    assert(group_removals(first) + removals_in(values@) + group_removals(plain) == (
                    group_removals(first) + removals_in(values@) + group_removals(plain0)) + seq![
                        rs[x as int],
                    ]);
                    assert(added_by(ad, done) + Seq::<usize>::empty() == added_by(ad, done));
                }
                proof {
                    let n = rs[x as int];
                    assert forall|q: int| k <= q < s@.len() implies #[trigger] s@[q] is Remove by {
                        assert(s@[k - 1] is Remove);
                    }
                    let pr = group_removals(plain0);
                    assert(group_additions(plain0).len() == 0);
                    assert(group_removals(plain) == pr.push(n));
                    assert(group_additions(plain) =~= Seq::<usize>::empty());
                    assert(removal_entries(pr.push(n)) =~= removal_entries(pr).push(Entry::Remove(n)));
                    assert(addition_entries(Seq::<usize>::empty()) =~= Seq::<Entry>::empty());
                    assert(plain_entries(plain0) =~= removal_entries(pr));
                    assert(plain_entries(plain) =~= removal_entries(pr).push(Entry::Remove(n)));
                    assert(assembly(first, values@, changes, plain) =~= e0.push(Entry::Remove(n)));
                    assert(item_at(rs, ad, next[0]) == seq![Item::Remove(n)]);
                    assert(pair_items(rs, ad, next) =~= pair_items(rs, ad, done).push(Item::Remove(n)));
                    lemma_lays_out_push(*eqt, *ft, *tt, e0, pair_items(rs, ad, done), Entry::Remove(n), Item::Remove(n));
                }
            },
            Step::Add(y) => {
                let mut p = match plain.take() {
                    Some(p) => p,
                    None => ReplaceGroup::default(),
                };
                p.additions.push(group.additions[y]);
                plain = Some(p);
                proof {
                    assert(pair_at(next[0]) == Seq::<(usize, usize)>::empty());
                    assert(paired_by(next) == paired_by(done));
                    assert(plain_removal(rs, next[0]) == Seq::<usize>::empty());
                    assert(group_removals(plain) == group_removals(plain0));
                    assert(group_additions(first) + additions_in(values@) + group_additions(plain) == (
                    group_additions(first) + additions_in(values@) + group_additions(plain0))
                        + seq![ad[y as int]]);
                    assert(removed_by(rs, done) + Seq::<usize>::empty() == removed_by(rs, done));
                }
                proof {
                    let n = ad[y as int];
                    let pa = group_additions(plain0);
                    assert(group_additions(plain) == pa.push(n));
                    assert(group_removals(plain) == group_removals(plain0));
                    assert(addition_entries(pa.push(n)) =~= addition_entries(pa).push(Entry::Add(n)));
                    assert(plain_entries(plain0) =~= removal_entries(group_removals(plain0)) + addition_entries(pa));
                    assert(plain_entries(plain) =~= plain_entries(plain0).push(Entry::Add(n)));
                    assert(assembly(first, values@, changes, plain) =~= e0.push(Entry::Add(n)));
                    assert(item_at(rs, ad, next[0]) == seq![Item::Add(n)]);
                    assert(pair_items(rs, ad, next) =~= pair_items(rs, ad, done).push(Item::Add(n)));
                    lemma_lays_out_push(*eqt, *ft, *tt, e0, pair_items(rs, ad, done), Entry::Add(n), Item::Add(n));
                    assert(!(s@[k - 1] is Remove));
                }
            },
        }
        k -= 1;
    }
    proof {
        assert(s@.subrange(0, s@.len() as int) == s@);
    }
    let ghost first0 = first;
    let ghost values0 = values@;
    let ghost e0 = assembly(first, values@, changes, plain);
    let ghost changes0 = changes;
    let ghost plain0 = plain;
    let mut last: Option<Vec<Diff>> = None;
    match plain {
        Some(p) => match changes {
            Some(ds) => {
                proof {
                    assert(values@.push((ds, p)).drop_last() == values@);
                    assert(values@.push((ds, p)).last() == (ds, p));
                    assert(changes_of(values@.push((ds, p))) == changes_of(values@) + ds@);
                    assert(changes_of(values@) + ds@ + Seq::<Diff>::empty() == changes_of(values@) + ds@);
                }
                values.push((ds, p));
            },
            None => {
                first = Some(p);
                proof {
                    assert(changes_of(values@) == Seq::<Diff>::empty());
                    assert(Seq::<Diff>::empty() + Seq::<Diff>::empty() == Seq::<Diff>::empty());
                }
            },
        },
        None => {
            last = changes;
            proof {
                assert(group_removals(first) + removals_in(values@) + Seq::<usize>::empty()
                    == group_removals(first) + removals_in(values@));
                assert(group_additions(first) + additions_in(values@) + Seq::<usize>::empty()
                    == group_additions(first) + additions_in(values@));
            }
        },
    }
    proof {
        assert(group_removals(first) + removals_in(values@) == group_removals(first0) + removals_in(
            values0,
        ) + group_removals(plain));
        assert(group_additions(first) + additions_in(values@) == group_additions(first0)
            + additions_in(values0) + group_additions(plain));
        if plain0 is Some {
            if changes0 is Some {
                assert(values@.drop_last() == values0);
                assert(refined_entries(values@) == refined_entries(values0) + change_entries(
                    run_of(changes0),
                ) + plain_entries(plain0));
            } else {
                assert(refined_entries(values@) =~= Seq::<Entry>::empty());
                assert(run_entries(changes0) =~= Seq::<Entry>::empty());
            }
            assert(run_entries(last) =~= Seq::<Entry>::empty());
        } else {
            assert(plain_entries(plain0) =~= Seq::<Entry>::empty());
        }
        assert(plain_entries(first) + refined_entries(values@) + run_entries(last) =~= e0);
    }
    UpdatesGroup(Interspersed { first, values, last })
}

/// The edit script between two lists of nodes, with every replace group refined.
#[verifier::rlimit(100)]
pub(crate) fn diff_within(eqt: &Vec<Vec<bool>>, 
    ft: &Tree,
    tt: &Tree,
    a: &Vec<usize>,
    b: &Vec<usize>,
    Ghost(bound): Ghost<nat>,
) -> (r: Updates)
    requires
        ft.wf(),
        tt.wf(),
        table_fits(*eqt, *ft, *tt),
        lists_in(*ft, a@, *tt, b@, bound),
        a@.len() + b@.len() < usize::MAX,
    ensures
        r.kept_total() == lcs(element_equality(*eqt, *ft, a@, *tt, b@), a@.len(), b@.len()),
        r.kept_nodes() == kept_elements(a@, traceback(element_equality(*eqt, *ft, a@, *tt, b@), a@.len(), b@.len())),
        lays_out(*eqt, *ft, *tt, r.entries(), layout(*eqt, *ft, *tt, a@, b@, traceback(element_equality(*eqt, *ft, a@, *tt, b@), a@.len(), b@.len()), seq![], seq![])),
        r.runs_nonempty(),
    decreases bound, 2nat,
{
    let n = a.len();
    let m = b.len();
    let ghost eq = element_equality(*eqt, *ft, a@, *tt, b@);
    let mut same: Vec<Vec<bool>> = Vec::new();
    let mut i: usize = 0;
    while i < n
        invariant
            i <= n,
            n == a@.len(),
            m == b@.len(),
            ft.wf(),
            tt.wf(),
            table_fits(*eqt, *ft, *tt),
            lists_in(*ft, a@, *tt, b@, bound),
            eq == element_equality(*eqt, *ft, a@, *tt, b@),
            same@.len() == i,
            forall|x: int| 0 <= x < i ==> #[trigger] same@[x]@.len() == m,
            forall|x: int, y: int| 0 <= x < i && 0 <= y < m ==> #[trigger] same@[x]@[y] == eq(x, y),
        decreases n - i,
    {
        let mut row: Vec<bool> = Vec::new();
        let mut j: usize = 0;
        while j < m
            invariant
                i < n,
                j <= m,
                n == a@.len(),
                m == b@.len(),
                ft.wf(),
                tt.wf(),
                table_fits(*eqt, *ft, *tt),
                lists_in(*ft, a@, *tt, b@, bound),
                eq == element_equality(*eqt, *ft, a@, *tt, b@),
                row@.len() == j,
                forall|y: int| 0 <= y < j ==> #[trigger] row@[y] == eq(i as int, y),
            decreases m - j,
        {
            row.push(equal_values(eqt, ft, a[i], tt, b[j]));
            j += 1;
        }
        same.push(row);
        i += 1;
    }
    let s = edit_script(&same, n, m, Ghost(eq));
    proof {
        lemma_walk_counts(eq, s@, n as nat, m as nat, 0, 0);
        assert(s@.subrange(0, s@.len() as int) == s@);
    }
    let mut first: Option<UpdatesGroup> = None;
    let mut values: Vec<(Vec<usize>, UpdatesGroup)> = Vec::new();
    let mut keeps: Option<Vec<usize>> = None;
    let mut group: Option<ReplaceGroup> = None;
    let mut k: usize = s.len();
    let ghost whole = layout(*eqt, *ft, *tt, a@, b@, s@, seq![], seq![]);
    let ghost mut done: Seq<Item> = seq![];
    proof {
        assert(done + layout(*eqt, *ft, *tt, a@, b@, s@.subrange(0, k as int), seq![], seq![]) =~= whole);
        assert(group_entries(first) + script_entries(values@) + keep_entries(keeps_of(keeps)) =~= Seq::<Entry>::empty());
    }
    while k > 0
        invariant
            k <= s@.len(),
            s@.len() <= n + m,
            n == a@.len(),
            m == b@.len(),
            n + m < usize::MAX,
            script_of(eq, s@, n as nat, m as nat),
            ft.wf(),
            tt.wf(),
            table_fits(*eqt, *ft, *tt),
            lists_in(*ft, a@, *tt, b@, bound),
            kept_in_runs(values@) + match keeps {
                Some(v) => v@.len(),
                None => 0,
            } + kept(s@.subrange(0, k as int)) == kept(s@),
            runs_concat(values@) + match keeps {
                Some(v) => v@,
                None => seq![],
            } == kept_elements(a@, s@.subrange(k as int, s@.len() as int)),
            match group {
                Some(g) => lists_in(*ft, g.removals@, *tt, g.additions@, bound) && g.additions@.len()
                    <= s@.len() - k,
                None => true,
            },
            keeps is None ==> first is None && values@.len() == 0,
            whole == layout(*eqt, *ft, *tt, a@, b@, s@, seq![], seq![]),
            lays_out(*eqt, *ft, *tt, group_entries(first) + script_entries(values@) + keep_entries(keeps_of(keeps)), done),
            done + layout(*eqt, *ft, *tt, a@, b@, s@.subrange(0, k as int), group_removals(group), group_additions(group)) == whole,
            first is Some ==> first->Some_0.entries().len() > 0,
            forall|q: int|
                #![trigger values@[q]]
                0 <= q < values@.len() ==> values@[q].0@.len() > 0 && values@[q].1.entries().len() > 0,
            keeps is Some ==> keeps->Some_0@.len() > 0,
            group is Some ==> group_removals(group).len() + group_additions(group).len() > 0,
        decreases k,
    {
        let ghost e0 = group_entries(first) + script_entries(values@) + keep_entries(keeps_of(keeps));
        let ghost gr = group_removals(group);
        let ghost ga = group_additions(group);
        let ghost first0 = first;
        let ghost values0 = values@;
        let ghost keeps0 = keeps;
        let ghost group0 = group;
        let ghost rest = s@.subrange(0, k - 1);
        proof {
            lemma_edits_in_range(eq, s@, n as nat, m as nat, 0, 0, k - 1);
            assert(s@.subrange(0, k as int).drop_last() == s@.subrange(0, k - 1));
            lemma_kept_elements_first(a@, s@.subrange(k - 1, s@.len() as int));
            assert(s@.subrange(k - 1, s@.len() as int).drop_first() == s@.subrange(k as int, s@.len() as int));
            assert(s@.subrange(k - 1, s@.len() as int)[0] == s@[k - 1]);
        }
        match s[k - 1] {
            Edit::Keep(x) => {
                if let Some(g) = group.take() {
                    let refined = refine(eqt, ft, tt, g, Ghost(bound));
                    proof {
                        lemma_refined_nonempty(*eqt, *ft, *tt, g.removals@, g.additions@, refined);
                    }
                    match keeps.take() {
                        Some(kv) => {
                            proof {
                                assert(values@.push((kv, refined)).drop_last() == values@);
                                assert(values@.push((kv, refined)).last() == (kv, refined));
                            }
                            values.push((kv, refined));
                        },
                        None => first = Some(refined),
                    }
                }
                let ghost e_mid = group_entries(first) + script_entries(values@) + keep_entries(keeps_of(keeps));
                let ghost ri = refined_items(*eqt, *ft, *tt, gr, ga);
                proof {
                    if group0 is Some {
                        let rf = if keeps0 is Some { values@.last().1 } else { first->Some_0 };
                        assert(lays_out(*eqt, *ft, *tt, rf.entries(), ri));
                        if keeps0 is Some {
                            assert(values@.drop_last() == values0);
                            assert(script_entries(values@) == script_entries(values0) + keep_entries(
                                keeps_of(keeps0),
                            ) + rf.entries());
                            assert(e_mid =~= e0 + rf.entries());
                        } else {
                            assert(script_entries(values@) =~= Seq::<Entry>::empty());
                            assert(e_mid =~= e0 + rf.entries());
                        }
                        lemma_lays_out_concat(*eqt, *ft, *tt, e0, done, rf.entries(), ri);
                    } else {
                        assert(chosen(closeness_weights(*eqt, *ft, gr, *tt, ga), 0, 0) =~= Seq::<Step>::empty());
                        assert(ri =~= Seq::<Item>::empty());
                        assert(e_mid =~= e0);
                        assert(done + ri =~= done);
                        assert(e0 + Seq::<Entry>::empty() =~= e0);
                    }
                }
                let mut kv = match keeps.take() {
                    Some(kv) => kv,
                    None => Vec::new(),
                };
                let ghost kv0 = kv@;
                kv.push(a[x]);
                keeps = Some(kv);
                proof {
                    let it = Item::Keep(a@[x as int]);
                    assert(keep_entries(kv0.push(a@[x as int])) =~= keep_entries(kv0).push(Entry::Keep(a@[x as int])));
                    if group0 is Some && keeps0 is Some {
                        assert(kv0 =~= Seq::<usize>::empty());
                    }
                    assert(e_mid =~= group_entries(first) + script_entries(values@) + keep_entries(kv0));
                    lemma_lays_out_push(*eqt, *ft, *tt, e_mid, done + ri, Entry::Keep(a@[x as int]), it);
                    assert(group_entries(first) + script_entries(values@) + keep_entries(keeps_of(keeps)) =~= e_mid.push(Entry::Keep(a@[x as int])));
                    assert(layout(*eqt, *ft, *tt, a@, b@, s@.subrange(0, k as int), gr, ga) == ri + seq![it] + layout(*eqt, *ft, *tt, a@, b@, rest, seq![], seq![]));
                    assert(group_removals(group) =~= Seq::<usize>::empty());
                    assert(group_additions(group) =~= Seq::<usize>::empty());
                    assert(done + ri + seq![it] + layout(*eqt, *ft, *tt, a@, b@, rest, seq![], seq![]) =~= done + (ri + seq![it] + layout(*eqt, *ft, *tt, a@, b@, rest, seq![], seq![])));
                    assert((done + ri).push(it) =~= done + ri + seq![it]);
                    done = done + ri + seq![it];
                }
            },
            Edit::Remove(x) => {
                let mut g = match group.take() {
                    Some(g) => g,
                    None => ReplaceGroup::default(),
                };
                g.removals.push(a[x]);
                group = Some(g);
                proof {
                    assert(group_removals(group) == gr.push(a@[x as int]));
                    assert(group_additions(group) == ga);
                }
            },
            Edit::Add(y) => {
                let mut g = match group.take() {
                    Some(g) => g,
                    None => ReplaceGroup::default(),
                };
                g.additions.push(b[y]);
                group = Some(g);
                proof {
                    assert(group_additions(group) == ga.push(b@[y as int]));
                    assert(group_removals(group) == gr);
                }
            },
        }
        k -= 1;
    }
    proof {
        assert(s@.subrange(0, 0) == Seq::<Edit>::empty());
        assert(s@.subrange(0, s@.len() as int) == s@);
    }
    let ghost e0 = group_entries(first) + script_entries(values@) + keep_entries(keeps_of(keeps));
    let ghost ri = refined_items(*eqt, *ft, *tt, group_removals(group), group_additions(group));
    let ghost values0 = values@;
    let ghost keeps0 = keeps;
    let ghost group0 = group;
    proof {
        assert(layout(*eqt, *ft, *tt, a@, b@, s@.subrange(0, 0), group_removals(group), group_additions(group)) == ri);
    }
    let mut last: Option<Vec<usize>> = None;
    match group {
        Some(g) => {
            let refined = refine(eqt, ft, tt, g, Ghost(bound));
            proof {
                lemma_refined_nonempty(*eqt, *ft, *tt, g.removals@, g.additions@, refined);
            }
            match keeps {
                Some(kv) => {
                    proof {
                        assert(values@.push((kv, refined)).drop_last() == values@);
                        assert(values@.push((kv, refined)).last() == (kv, refined));
                    }
                    values.push((kv, refined));
                },
                None => first = Some(refined),
            }
        },
        None => last = keeps,
    }
    proof {
        let fin = group_entries(first) + script_entries(values@) + keep_entries(keeps_of(last));
        if group0 is Some {
            let rf = if keeps0 is Some { values@.last().1 } else { first->Some_0 };
            assert(lays_out(*eqt, *ft, *tt, rf.entries(), ri));
            if keeps0 is Some {
                assert(values@.drop_last() == values0);
                assert(script_entries(values@) == script_entries(values0) + keep_entries(keeps_of(keeps0)) + rf.entries());
            } else {
                assert(script_entries(values@) =~= Seq::<Entry>::empty());
            }
            assert(keep_entries(keeps_of(last)) =~= Seq::<Entry>::empty());
            assert(fin =~= e0 + rf.entries());
            lemma_lays_out_concat(*eqt, *ft, *tt, e0, done, rf.entries(), ri);
        } else {
            assert(chosen(closeness_weights(*eqt, *ft, seq![], *tt, seq![]), 0, 0) =~= Seq::<Step>::empty());
            assert(ri =~= Seq::<Item>::empty());
            assert(fin =~= e0);
            assert(done + ri =~= done);
        }
    }
    Updates(Interspersed { first, values, last })
}

/// The edit script between two lists of nodes, `a` of `ft` and `b` of `tt`, found by a shortest
/// edit script and with every replace group refined; it keeps as many elements as a longest common
/// subsequence holds.
pub fn diff(eqt: &Vec<Vec<bool>>, ft: &Tree, tt: &Tree, a: Vec<usize>, b: Vec<usize>) -> (r: Updates)
    requires
        ft.wf(),
        tt.wf(),
        table_fits(*eqt, *ft, *tt),
        forall|i: int| 0 <= i < a@.len() ==> #[trigger] a@[i] < ft.nodes.len(),
        forall|j: int| 0 <= j < b@.len() ==> #[trigger] b@[j] < tt.nodes.len(),
        a@.len() + b@.len() < usize::MAX,
    ensures
        r.kept_total() == lcs(element_equality(*eqt, *ft, a@, *tt, b@), a@.len(), b@.len()),
        r.kept_nodes() == kept_elements(a@, traceback(element_equality(*eqt, *ft, a@, *tt, b@), a@.len(), b@.len())),
        lays_out(*eqt, *ft, *tt, r.entries(), layout(*eqt, *ft, *tt, a@, b@, traceback(element_equality(*eqt, *ft, a@, *tt, b@), a@.len(), b@.len()), seq![], seq![])),
        r.runs_nonempty(),
{
    diff_within(eqt, ft, tt, &a, &b, Ghost(ft.nodes@.len() as nat))
}

} // verus!
