//! A B-tree: an ordered map whose nodes hold many pairs, with every leaf at the same depth.

use crate::model::{
    absent, added, ascending, count_of, lemma_absent, lemma_absent_within, lemma_added,
    lemma_added_within, lemma_map_of_pairs, lemma_removed, lemma_removed_within, lists, lookup,
    map_of_pairs, removed,
};
use crate::order::{lemma_transitive, lemma_trichotomy, lt, relate, total_order, Relation};
use vstd::prelude::*;

verus! {

type Pair<K, V> = (K, V);

type Tree<K, V> = Box<Node<K, V>>;

/// A node of a B-tree: its pairs in ascending order of their keys and, above the leaves,
/// one child before, between and behind them.
pub struct Node<K: Ord, V> {
    pairs: Vec<Pair<K, V>>,
    children: Vec<Tree<K, V>>,
}

/// What is left over when a node is full: the pair in its middle, and the node that takes
/// what stood right of the middle.
pub struct SplitInfo<K: Ord, V> {
    mid_pair: Pair<K, V>,
    right_child: Tree<K, V>,
}

/// An ordered map as a B-tree.
pub struct BTree<K: Ord, V> {
    root: Option<Tree<K, V>>,
    max_children_length: usize,
    length: usize,
    /// The number of levels below the root.
    depth: Ghost<nat>,
}

/// The pairs `ps` with the sequences `cs` between them: `cs[0]`, `ps[0]`, `cs[1]`, and so
/// on to the last of `cs`, which is one longer than `ps`.
pub open spec fn interleave<P>(ps: Seq<P>, cs: Seq<Seq<P>>) -> Seq<P>
    decreases ps.len(),
{
    if ps.len() == 0 {
        cs[0]
    } else {
        interleave(ps.drop_last(), cs.drop_last()) + seq![ps.last()] + cs.last()
    }
}

/// What stands before `cs[i]` in `interleave(ps, cs)`.
pub open spec fn before<P>(ps: Seq<P>, cs: Seq<Seq<P>>, i: int) -> Seq<P> {
    if i == 0 {
        Seq::empty()
    } else {
        interleave(ps.take(i - 1), cs.take(i)) + seq![ps[i - 1]]
    }
}

/// What stands behind `cs[i]` in `interleave(ps, cs)`.
pub open spec fn behind<P>(ps: Seq<P>, cs: Seq<Seq<P>>, i: int) -> Seq<P> {
    if i == ps.len() {
        Seq::empty()
    } else {
        seq![ps[i]] + interleave(ps.skip(i + 1), cs.skip(i + 1))
    }
}

/// Cut at the pair `ps[m]`, an interleaving falls into the interleaving of what stands
/// before the cut, the pair, and the interleaving of what stands behind the cut.
pub proof fn lemma_interleave_cut<P>(ps: Seq<P>, cs: Seq<Seq<P>>, m: int)
    requires
        cs.len() == ps.len() + 1,
        0 <= m < ps.len(),
    ensures
        interleave(ps, cs) == interleave(ps.take(m), cs.take(m + 1)) + seq![ps[m]] + interleave(
            ps.skip(m + 1),
            cs.skip(m + 1),
        ),
    decreases ps.len(),
{
    let n = ps.len() as int;
    if m == n - 1 {
        assert(ps.take(m) =~= ps.drop_last());
        assert(cs.take(m + 1) =~= cs.drop_last());
        assert(ps.skip(m + 1) =~= Seq::<P>::empty());
        assert(cs.skip(m + 1)[0] == cs.last());
    } else {
        lemma_interleave_cut(ps.drop_last(), cs.drop_last(), m);
        assert(ps.drop_last().take(m) =~= ps.take(m));
        assert(cs.drop_last().take(m + 1) =~= cs.take(m + 1));
        assert(ps.skip(m + 1).drop_last() =~= ps.drop_last().skip(m + 1));
        assert(cs.skip(m + 1).drop_last() =~= cs.drop_last().skip(m + 1));
        assert(ps.skip(m + 1).last() == ps.last());
        assert(cs.skip(m + 1).last() == cs.last());
        assert(ps.drop_last()[m] == ps[m]);
        let a = interleave(ps.take(m), cs.take(m + 1));
        let b = interleave(ps.drop_last().skip(m + 1), cs.drop_last().skip(m + 1));
        assert((a + seq![ps[m]] + b) + seq![ps.last()] + cs.last() =~= a + seq![ps[m]] + (b
            + seq![ps.last()] + cs.last()));
    }
}

/// An interleaving is what stands before `cs[i]`, then `cs[i]`, then what stands behind it.
pub proof fn lemma_interleave_around<P>(ps: Seq<P>, cs: Seq<Seq<P>>, i: int)
    requires
        cs.len() == ps.len() + 1,
        0 <= i <= ps.len(),
    ensures
        interleave(ps, cs) == before(ps, cs, i) + cs[i] + behind(ps, cs, i),
{
    let n = ps.len() as int;
    if i < n {
        lemma_interleave_cut(ps, cs, i);
        let head = interleave(ps.take(i), cs.take(i + 1));
        if i == 0 {
            assert(ps.take(0).len() == 0);
            assert(cs.take(1)[0] == cs[0]);
            assert(head == cs[0]);
            assert(before(ps, cs, i) + cs[i] + behind(ps, cs, i) =~= cs[0] + seq![ps[0]]
                + interleave(ps.skip(1), cs.skip(1)));
        } else {
            assert(ps.take(i).drop_last() =~= ps.take(i - 1));
            assert(cs.take(i + 1).drop_last() =~= cs.take(i));
            assert(ps.take(i).last() == ps[i - 1]);
            assert(cs.take(i + 1).last() == cs[i]);
            let tail = interleave(ps.skip(i + 1), cs.skip(i + 1));
            assert(head + seq![ps[i]] + tail =~= before(ps, cs, i) + cs[i] + (seq![ps[i]] + tail));
        }
    } else {
        if i == 0 {
            assert(before(ps, cs, i) + cs[i] + behind(ps, cs, i) =~= cs[0]);
        } else {
            assert(ps.drop_last() =~= ps.take(i - 1));
            assert(cs.drop_last() =~= cs.take(i));
            assert(before(ps, cs, i) + cs[i] + behind(ps, cs, i) =~= interleave(
                ps.drop_last(),
                cs.drop_last(),
            ) + seq![ps.last()] + cs.last());
        }
    }
}

/// An interleaving holds at least the pairs.
pub proof fn lemma_interleave_len<P>(ps: Seq<P>, cs: Seq<Seq<P>>)
    ensures
        interleave(ps, cs).len() >= ps.len(),
    decreases ps.len(),
{
    if ps.len() > 0 {
        lemma_interleave_len(ps.drop_last(), cs.drop_last());
    }
}

/// An interleaving holds at least the pairs and its first sequence.
pub proof fn lemma_interleave_first<P>(ps: Seq<P>, cs: Seq<Seq<P>>)
    requires
        cs.len() == ps.len() + 1,
    ensures
        interleave(ps, cs).len() >= ps.len() + cs[0].len(),
    decreases ps.len(),
{
    if ps.len() > 0 {
        lemma_interleave_first(ps.drop_last(), cs.drop_last());
        assert(cs.drop_last()[0] == cs[0]);
    }
}

/// With nothing between the pairs, an interleaving is the pairs.
pub proof fn lemma_interleave_bare<P>(ps: Seq<P>, cs: Seq<Seq<P>>)
    requires
        cs.len() == ps.len() + 1,
        forall|i: int| 0 <= i < cs.len() ==> (#[trigger] cs[i]).len() == 0,
    ensures
        interleave(ps, cs) == ps,
    decreases ps.len(),
{
    if ps.len() == 0 {
        assert(cs[0] =~= Seq::<P>::empty());
        assert(ps =~= Seq::<P>::empty());
    } else {
        lemma_interleave_bare(ps.drop_last(), cs.drop_last());
        assert(cs.last() =~= Seq::<P>::empty());
        assert(ps.drop_last() + seq![ps.last()] + cs.last() =~= ps);
    }
}


/// The parts of a sequence that ascends ascend, and what stands in the first part sorts
/// before what stands in the second.
pub proof fn lemma_ascending_split<K: Ord, V>(a: Seq<(K, V)>, b: Seq<(K, V)>)
    requires
        ascending(a + b),
    ensures
        ascending(a),
        ascending(b),
        forall|i: int, j: int|
            0 <= i < a.len() && 0 <= j < b.len() ==> lt((#[trigger] a[i]).0, (#[trigger] b[j]).0),
{
    let e = a + b;
    assert forall|i: int, j: int| 0 <= i < j < a.len() implies lt(
        (#[trigger] a[i]).0,
        (#[trigger] a[j]).0,
    ) by {
        assert(lt(e[i].0, e[j].0));
    }
    assert forall|i: int, j: int| 0 <= i < j < b.len() implies lt(
        (#[trigger] b[i]).0,
        (#[trigger] b[j]).0,
    ) by {
        assert(lt(e[a.len() + i].0, e[a.len() + j].0));
    }
    assert forall|i: int, j: int| 0 <= i < a.len() && 0 <= j < b.len() implies lt(
        (#[trigger] a[i]).0,
        (#[trigger] b[j]).0,
    ) by {
        assert(lt(e[i].0, e[a.len() + j].0));
    }
}

/// Where an interleaving ascends, so do its pairs, and around each of the sequences between
/// them stand only keys that sort before, or after, what the sequence holds.
pub proof fn lemma_interleave_ascending<K: Ord, V>(
    ps: Seq<(K, V)>,
    cs: Seq<Seq<(K, V)>>,
    i: int,
)
    requires
        total_order::<K>(),
        cs.len() == ps.len() + 1,
        0 <= i <= ps.len(),
        ascending(interleave(ps, cs)),
    ensures
        ascending(before(ps, cs, i)),
        ascending(cs[i]),
        ascending(behind(ps, cs, i)),
        ascending(before(ps, cs, i) + cs[i]),
        ascending(cs[i] + behind(ps, cs, i)),
        forall|x: int, y: int|
            0 <= x < before(ps, cs, i).len() && 0 <= y < cs[i].len() ==> lt(
                (#[trigger] before(ps, cs, i)[x]).0,
                (#[trigger] cs[i][y]).0,
            ),
        forall|x: int, y: int|
            0 <= x < before(ps, cs, i).len() && 0 <= y < behind(ps, cs, i).len() ==> lt(
                (#[trigger] before(ps, cs, i)[x]).0,
                (#[trigger] behind(ps, cs, i)[y]).0,
            ),
        forall|x: int, y: int|
            0 <= x < cs[i].len() && 0 <= y < behind(ps, cs, i).len() ==> lt(
                (#[trigger] cs[i][x]).0,
                (#[trigger] behind(ps, cs, i)[y]).0,
            ),
        i > 0 ==> before(ps, cs, i).last() == ps[i - 1] && forall|x: int|
            0 <= x < before(ps, cs, i).len() - 1 ==> lt(
                (#[trigger] before(ps, cs, i)[x]).0,
                ps[i - 1].0,
            ),
        i < ps.len() ==> behind(ps, cs, i)[0] == ps[i] && forall|y: int|
            1 <= y < behind(ps, cs, i).len() ==> lt(ps[i].0, (#[trigger] behind(ps, cs, i)[y]).0),
        i > 0 && i < ps.len() ==> lt(ps[i - 1].0, ps[i].0),
{
    lemma_interleave_around(ps, cs, i);
    let b = before(ps, cs, i);
    let x = cs[i];
    let h = behind(ps, cs, i);
    assert(b + x + h =~= b + (x + h));
    lemma_ascending_split(b + x, h);
    lemma_ascending_split(b, x);
    lemma_ascending_split(b, x + h);
    lemma_ascending_split(x, h);
    assert forall|p: int, q: int| 0 <= p < b.len() && 0 <= q < h.len() implies lt(
        (#[trigger] b[p]).0,
        (#[trigger] h[q]).0,
    ) by {
        assert((x + h)[x.len() + q] == h[q]);
        assert(lt(b[p].0, (x + h)[x.len() + q].0));
    }
    if i > 0 {
        assert forall|p: int| 0 <= p < b.len() - 1 implies lt((#[trigger] b[p]).0, ps[i - 1].0) by {
            assert(lt(b[p].0, b[b.len() - 1].0));
        }
    }
    if i < ps.len() {
        assert forall|q: int| 1 <= q < h.len() implies lt(ps[i].0, (#[trigger] h[q]).0) by {
            assert(lt(h[0].0, h[q].0));
        }
    }
    if i > 0 && i < ps.len() {
        assert(lt(b[b.len() - 1].0, h[0].0));
    }
}

/// Where an interleaving ascends, its pairs ascend.
pub proof fn lemma_pairs_ascending<K: Ord, V>(ps: Seq<(K, V)>, cs: Seq<Seq<(K, V)>>, j: int, k: int)
    requires
        total_order::<K>(),
        cs.len() == ps.len() + 1,
        0 <= j < k < ps.len(),
        ascending(interleave(ps, cs)),
    ensures
        lt(ps[j].0, ps[k].0),
    decreases k - j,
{
    lemma_interleave_ascending(ps, cs, k);
    if j < k - 1 {
        lemma_pairs_ascending(ps, cs, j, k - 1);
        lemma_transitive(ps[j].0, ps[k - 1].0, ps[k].0);
    }
}

/// Where the sequence `cs[i]` becomes `l`, and the pair `mid` and the sequence `r` are put in
/// behind it, the interleaving holds `l`, `mid` and `r` where it held `cs[i]`.
pub proof fn lemma_interleave_grown<P>(
    ps: Seq<P>,
    cs: Seq<Seq<P>>,
    i: int,
    l: Seq<P>,
    mid: P,
    r: Seq<P>,
)
    requires
        cs.len() == ps.len() + 1,
        0 <= i <= ps.len(),
    ensures
        interleave(ps.insert(i, mid), cs.update(i, l).insert(i + 1, r)) == before(ps, cs, i) + l
            + seq![mid] + r + behind(ps, cs, i),
{
    let ps1 = ps.insert(i, mid);
    let cs1 = cs.update(i, l).insert(i + 1, r);
    lemma_interleave_around(ps1, cs1, i + 1);
    assert(ps1.take(i) =~= ps.take(i));
    assert(cs1.take(i + 1) =~= cs.take(i).push(l));
    assert(ps1[i] == mid);
    assert(cs1[i + 1] == r);
    let head = interleave(ps1.take(i), cs1.take(i + 1));
    if i == 0 {
        assert(head == cs1.take(1)[0]);
        assert(head =~= before(ps, cs, i) + l);
    } else {
        assert(ps.take(i).drop_last() =~= ps.take(i - 1));
        assert(cs.take(i).push(l).drop_last() =~= cs.take(i));
        assert(ps.take(i).last() == ps[i - 1]);
        assert(cs.take(i).push(l).last() == l);
        assert(head =~= before(ps, cs, i) + l);
    }
    assert(before(ps1, cs1, i + 1) == head + seq![mid]);
    if i == ps.len() {
        assert(behind(ps1, cs1, i + 1) =~= behind(ps, cs, i));
    } else {
        assert(ps1[i + 1] == ps[i]);
        assert(ps1.skip(i + 2) =~= ps.skip(i + 1));
        assert(cs1.skip(i + 2) =~= cs.skip(i + 1));
    }
    assert(head + seq![mid] + r + behind(ps, cs, i) =~= before(ps, cs, i) + l + seq![mid] + r
        + behind(ps, cs, i));
}

/// Where only the sequence `cs[i]` changes, what stands before and behind it stays.
pub proof fn lemma_interleave_changed<P>(ps: Seq<P>, cs: Seq<Seq<P>>, i: int, x: Seq<P>)
    requires
        cs.len() == ps.len() + 1,
        0 <= i <= ps.len(),
    ensures
        interleave(ps, cs.update(i, x)) == before(ps, cs, i) + x + behind(ps, cs, i),
{
    let cs1 = cs.update(i, x);
    lemma_interleave_around(ps, cs1, i);
    assert(cs1.take(i) =~= cs.take(i));
    assert(cs1.skip(i + 1) =~= cs.skip(i + 1));
}

/// An interleaving around the pair `ps[i]` and the two sequences next to it.
pub proof fn lemma_interleave_pair<P>(ps: Seq<P>, cs: Seq<Seq<P>>, i: int)
    requires
        cs.len() == ps.len() + 1,
        0 <= i < ps.len(),
    ensures
        interleave(ps, cs) == before(ps, cs, i) + cs[i] + seq![ps[i]] + cs[i + 1] + behind(
            ps,
            cs,
            i + 1,
        ),
{
    lemma_interleave_around(ps, cs, i);
    let ps1 = ps.skip(i + 1);
    let cs1 = cs.skip(i + 1);
    lemma_interleave_around(ps1, cs1, 0);
    assert(cs1[0] == cs[i + 1]);
    assert(behind(ps1, cs1, 0) =~= behind(ps, cs, i + 1)) by {
        if i + 1 < ps.len() {
            assert(ps1[0] == ps[i + 1]);
            assert(ps1.skip(1) =~= ps.skip(i + 2));
            assert(cs1.skip(1) =~= cs.skip(i + 2));
        }
    }
    assert(before(ps, cs, i) + cs[i] + (seq![ps[i]] + (before(ps1, cs1, 0) + cs1[0] + behind(
        ps1,
        cs1,
        0,
    ))) =~= before(ps, cs, i) + cs[i] + seq![ps[i]] + cs[i + 1] + behind(ps, cs, i + 1));
}

/// What stands before `cs[i]` depends only on the pairs and sequences before it.
pub proof fn lemma_before_same<P>(ps: Seq<P>, cs: Seq<Seq<P>>, qs: Seq<P>, ds: Seq<Seq<P>>, i: int)
    requires
        0 <= i <= ps.len(),
        i <= qs.len(),
        i <= cs.len(),
        i <= ds.len(),
        forall|j: int| 0 <= j < i ==> ps[j] == qs[j],
        forall|j: int| 0 <= j < i ==> cs[j] == ds[j],
    ensures
        before(ps, cs, i) == before(qs, ds, i),
{
    if i > 0 {
        assert(ps.take(i - 1) =~= qs.take(i - 1));
        assert(cs.take(i) =~= ds.take(i));
    }
}

/// What stands behind `cs[i]` depends only on the pairs and sequences behind it, which may
/// stand at other places, `shift` further on, in another interleaving.
pub proof fn lemma_behind_same<P>(
    ps: Seq<P>,
    cs: Seq<Seq<P>>,
    i: int,
    qs: Seq<P>,
    ds: Seq<Seq<P>>,
    shift: int,
)
    requires
        0 <= i <= ps.len(),
        cs.len() == ps.len() + 1,
        0 <= i + shift,
        qs.len() == ps.len() + shift,
        ds.len() == cs.len() + shift,
        forall|j: int| i <= j < ps.len() ==> ps[j] == qs[j + shift],
        forall|j: int| i < j < cs.len() ==> cs[j] == ds[j + shift],
    ensures
        behind(ps, cs, i) == behind(qs, ds, i + shift),
{
    if i < ps.len() {
        assert(ps.skip(i + 1) =~= qs.skip(i + shift + 1));
        assert(cs.skip(i + 1) =~= ds.skip(i + shift + 1));
    }
}

/// An interleaving with a sequence and a pair put in front.
pub proof fn lemma_interleave_front<P>(ps: Seq<P>, cs: Seq<Seq<P>>, p: P, z: Seq<P>)
    requires
        cs.len() == ps.len() + 1,
    ensures
        interleave(ps.insert(0, p), cs.insert(0, z)) == z + seq![p] + interleave(ps, cs),
{
    let ps1 = ps.insert(0, p);
    let cs1 = cs.insert(0, z);
    lemma_interleave_around(ps1, cs1, 0);
    assert(ps1.skip(1) =~= ps);
    assert(cs1.skip(1) =~= cs);
    assert(before(ps1, cs1, 0) + cs1[0] + behind(ps1, cs1, 0) =~= z + seq![p] + interleave(ps, cs));
}

/// An interleaving without its first sequence and pair.
pub proof fn lemma_interleave_rest<P>(ps: Seq<P>, cs: Seq<Seq<P>>)
    requires
        cs.len() == ps.len() + 1,
        ps.len() > 0,
    ensures
        interleave(ps, cs) == cs[0] + seq![ps[0]] + interleave(ps.skip(1), cs.skip(1)),
{
    lemma_interleave_around(ps, cs, 0);
    assert(before(ps, cs, 0) + cs[0] + behind(ps, cs, 0) =~= cs[0] + seq![ps[0]] + interleave(
        ps.skip(1),
        cs.skip(1),
    ));
}

/// An interleaving with a pair and a sequence put behind.
pub proof fn lemma_interleave_back<P>(ps: Seq<P>, cs: Seq<Seq<P>>, p: P, z: Seq<P>)
    requires
        cs.len() == ps.len() + 1,
    ensures
        interleave(ps.push(p), cs.push(z)) == interleave(ps, cs) + seq![p] + z,
{
    assert(ps.push(p).drop_last() =~= ps);
    assert(cs.push(z).drop_last() =~= cs);
}

/// Two interleavings joined by a pair.
pub proof fn lemma_interleave_joined<P>(
    ps: Seq<P>,
    cs: Seq<Seq<P>>,
    p: P,
    qs: Seq<P>,
    ds: Seq<Seq<P>>,
)
    requires
        cs.len() == ps.len() + 1,
        ds.len() == qs.len() + 1,
    ensures
        interleave(ps + seq![p] + qs, cs + ds) == interleave(ps, cs) + seq![p] + interleave(qs, ds),
{
    let all = ps + seq![p] + qs;
    let kids = cs + ds;
    let m = ps.len() as int;
    lemma_interleave_cut(all, kids, m);
    assert(all.take(m) =~= ps);
    assert(kids.take(m + 1) =~= cs);
    assert(all.skip(m + 1) =~= qs);
    assert(kids.skip(m + 1) =~= ds);
    assert(all[m] == p);
}

/// What stands behind `cs[i]` begins with the pair `ps[i]` and the sequence `cs[i + 1]`.
pub proof fn lemma_behind_step<P>(ps: Seq<P>, cs: Seq<Seq<P>>, i: int)
    requires
        cs.len() == ps.len() + 1,
        0 <= i < ps.len(),
    ensures
        behind(ps, cs, i) == seq![ps[i]] + cs[i + 1] + behind(ps, cs, i + 1),
{
    let ps1 = ps.skip(i + 1);
    let cs1 = cs.skip(i + 1);
    lemma_interleave_around(ps1, cs1, 0);
    assert(cs1[0] == cs[i + 1]);
    if i + 1 < ps.len() {
        assert(ps1[0] == ps[i + 1]);
        assert(ps1.skip(1) =~= ps.skip(i + 2));
        assert(cs1.skip(1) =~= cs.skip(i + 2));
    }
    assert(seq![ps[i]] + (before(ps1, cs1, 0) + cs1[0] + behind(ps1, cs1, 0)) =~= seq![ps[i]]
        + cs[i + 1] + behind(ps, cs, i + 1));
}

impl<K: Ord, V> SplitInfo<K, V> {
    fn new(mid_pair: Pair<K, V>, right_child: Tree<K, V>) -> (split: Self)
        ensures
            split.mid_pair == mid_pair,
            split.right_child == right_child,
    {
        Self { mid_pair, right_child }
    }
}

impl<K: Ord, V> Node<K, V> {
    /// The leaves of the subtree stand `depth` levels below the node, and a node above the
    /// leaves has one child more than it has pairs.
    pub closed spec fn shaped(self, depth: nat) -> bool
        decreases depth,
    {
        if depth == 0 {
            self.children@.len() == 0
        } else {
            &&& self.children@.len() == self.pairs@.len() + 1
            &&& forall|i: int|
                0 <= i < self.children@.len() ==> (#[trigger] self.children@[i]).shaped(
                    (depth - 1) as nat,
                )
        }
    }

    /// For each of `count` places, the pairs of the child that hangs there, `depth` levels
    /// above the leaves; nothing where `depth` is 0.
    pub closed spec fn kids_of(children: Seq<Tree<K, V>>, count: nat, depth: nat) -> Seq<
        Seq<(K, V)>,
    >
        decreases depth, 0nat,
    {
        Seq::new(
            count,
            |i: int|
                if depth == 0 {
                    Seq::empty()
                } else {
                    children[i].entries((depth - 1) as nat)
                },
        )
    }

    /// For each place between the pairs of the node, the pairs of the child that hangs there.
    pub closed spec fn kids(self, depth: nat) -> Seq<Seq<(K, V)>>
        decreases depth, 1nat,
    {
        Self::kids_of(self.children@, self.pairs@.len() + 1, depth)
    }

    /// The pairs of the subtree from left to right.
    pub closed spec fn entries(self, depth: nat) -> Seq<(K, V)>
        decreases depth, 2nat,
    {
        interleave(self.pairs@, self.kids(depth))
    }

    /// The node holds at least `least` and fewer than `most` pairs, and every node below it
    /// at least one less than half of `most` and fewer than `most`.
    pub closed spec fn filled(self, depth: nat, most: nat, least: nat) -> bool
        decreases depth,
    {
        &&& least <= self.pairs@.len() < most
        &&& (depth > 0 ==> forall|i: int|
            0 <= i < self.children@.len() ==> (#[trigger] self.children@[i]).filled(
                (depth - 1) as nat,
                most,
                (most / 2 - 1) as nat,
            ))
    }

    fn new_leaf() -> (leaf: Tree<K, V>)
        ensures
            leaf.shaped(0),
            leaf.entries(0) == Seq::<(K, V)>::empty(),
            leaf.pairs@.len() == 0,
    {
        let leaf = Box::new(Self { pairs: Vec::new(), children: Vec::new() });
        assert(leaf.entries(0) =~= Seq::<(K, V)>::empty()) by {
            assert(leaf.kids(0)[0] =~= Seq::<(K, V)>::empty());
        }
        leaf
    }

    fn new_with_data(pairs: Vec<Pair<K, V>>, children: Option<Vec<Tree<K, V>>>) -> (node: Tree<K, V>)
        ensures
            node.pairs == pairs,
            node.children@ == (match children {
                Some(children) => children@,
                None => Seq::empty(),
            }),
    {
        let children = match children {
            Some(children) => children,
            None => Vec::new(),
        };
        Box::new(Self { pairs, children })
    }

    fn new_root(pair: Pair<K, V>, left_child: Tree<K, V>, right_child: Tree<K, V>) -> (node: Tree<
        K,
        V,
    >)
        ensures
            node.pairs@ == seq![pair],
            node.children@ == seq![left_child, right_child],
    {
        let mut pairs = Vec::new();
        pairs.push(pair);
        let mut children = Vec::new();
        children.push(left_child);
        children.push(right_child);
        let node = Box::new(Self { pairs, children });
        assert(node.pairs@ =~= seq![pair]);
        assert(node.children@ =~= seq![left_child, right_child]);
        node
    }

    /// Looks for `key` among pairs whose keys ascend: the place of the pair with that
    /// key, or else the place at which a pair with that key would have to stand.
    fn search(pairs: &Vec<Pair<K, V>>, key: &K) -> (found: Result<usize, usize>)
        requires
            total_order::<K>(),
            forall|j: int, k: int| 0 <= j < k < pairs@.len() ==> lt(pairs@[j].0, pairs@[k].0),
        ensures
            match found {
                Ok(at) => at < pairs@.len() && pairs@[at as int].0 == *key,
                Err(at) => at <= pairs@.len() && (forall|j: int|
                    0 <= j < at ==> lt((#[trigger] pairs@[j]).0, *key)) && (forall|j: int|
                    at <= j < pairs@.len() ==> lt(*key, (#[trigger] pairs@[j]).0)),
            },
    {
        let mut low: usize = 0;
        let mut high: usize = pairs.len();
        while low < high
            invariant
                total_order::<K>(),
                low <= high <= pairs@.len(),
                forall|j: int, k: int| 0 <= j < k < pairs@.len() ==> lt(pairs@[j].0, pairs@[k].0),
                forall|j: int| 0 <= j < low ==> lt((#[trigger] pairs@[j]).0, *key),
                forall|j: int| high <= j < pairs@.len() ==> lt(*key, (#[trigger] pairs@[j]).0),
            decreases high - low,
        {
            let mid = low + (high - low) / 2;
            match relate(&pairs[mid].0, key) {
                Relation::Less => {
                    assert forall|j: int| 0 <= j < mid + 1 implies lt(
                        (#[trigger] pairs@[j]).0,
                        *key,
                    ) by {
                        if j < mid {
                            assert(lt(pairs@[j].0, pairs@[mid as int].0));
                            lemma_transitive(pairs@[j].0, pairs@[mid as int].0, *key);
                        }
                    }
                    low = mid + 1;
                },
                Relation::Equal => {
                    return Ok(mid);
                },
                Relation::Greater => {
                    assert forall|j: int| mid <= j < pairs@.len() implies lt(
                        *key,
                        (#[trigger] pairs@[j]).0,
                    ) by {
                        if j > mid {
                            assert(lt(pairs@[mid as int].0, pairs@[j].0));
                            lemma_transitive(*key, pairs@[mid as int].0, pairs@[j].0);
                        }
                    }
                    high = mid;
                },
            }
        }
        Err(low)
    }

    /// The pairs after `pair` has been put at the place `to_insert`.
    pub closed spec fn pairs_with(self, to_insert: int, pair: Pair<K, V>) -> Seq<Pair<K, V>> {
        self.pairs@.insert(to_insert, pair)
    }

    /// The children after `right_child`, if there is one, has been put behind the place
    /// `to_insert`.
    pub closed spec fn children_with(self, to_insert: int, right_child: Option<Tree<K, V>>) -> Seq<
        Tree<K, V>,
    > {
        match right_child {
            Some(child) => self.children@.insert(to_insert + 1, child),
            None => self.children@,
        }
    }

    /// Puts `pair` at the place `to_insert` among the pairs of the node and, above the
    /// leaves, `right_child` behind it among the children. A node that is full then keeps what
    /// stands left of its middle, and hands back the pair in the middle and a new node with
    /// what stands right of it.
    #[verifier::rlimit(40)]
    fn add_pair(
        &mut self,
        max_children_length: usize,
        to_insert: usize,
        pair: Pair<K, V>,
        right_child: Option<Tree<K, V>>,
    ) -> (split: Option<SplitInfo<K, V>>)
        requires
            max_children_length >= 4,
            to_insert <= old(self).pairs@.len() < max_children_length,
            match right_child {
                Some(_) => old(self).children@.len() == old(self).pairs@.len() + 1,
                None => old(self).children@.len() == 0,
            },
        ensures
            ({
                let pairs = old(self).pairs_with(to_insert as int, pair);
                let children = old(self).children_with(to_insert as int, right_child);
                let middle = ((old(self).pairs@.len() + 1) / 2) as int;
                if old(self).pairs@.len() + 1 >= max_children_length {
                    &&& split is Some
                    &&& final(self).pairs@ == pairs.take(middle)
                    &&& split.unwrap().mid_pair == pairs[middle]
                    &&& split.unwrap().right_child.pairs@ == pairs.skip(middle + 1)
                    &&& final(self).children@ == (if right_child is Some {
                        children.take(middle + 1)
                    } else {
                        children
                    })
                    &&& split.unwrap().right_child.children@ == (if right_child is Some {
                        children.skip(middle + 1)
                    } else {
                        children
                    })
                } else {
                    &&& split is None
                    &&& final(self).pairs@ == pairs
                    &&& final(self).children@ == children
                }
            }),
    {
        let ghost ps = self.pairs@;
        let ghost cs = self.children@;
        let ghost ps1 = self.pairs_with(to_insert as int, pair);
        let ghost cs1 = self.children_with(to_insert as int, right_child);
        if self.pairs.len() + 1 >= max_children_length {
            let new_pair_index = (self.pairs.len() + 1) / 2;
            let ghost m = new_pair_index as int;
            let (mid_pair, right_pairs, right_children) = if to_insert < new_pair_index {
                let right_pairs = self.pairs.split_off(new_pair_index);
                let mid_pair = self.pairs.pop().unwrap();
                self.pairs.insert(to_insert, pair);
                let right_children = match right_child {
                    Some(right_child) => {
                        let right_children = self.children.split_off(new_pair_index);
                        self.children.insert(to_insert + 1, right_child);
                        assert(self.children@ =~= cs1.take(m + 1));
                        assert(right_children@ =~= cs1.skip(m + 1));
                        Some(right_children)
                    },
                    None => None,
                };
                assert(self.pairs@ =~= ps1.take(m));
                assert(right_pairs@ =~= ps1.skip(m + 1));
                (mid_pair, right_pairs, right_children)
            } else if to_insert == new_pair_index {
                let right_pairs = self.pairs.split_off(new_pair_index);
                let right_children = match right_child {
                    Some(right_child) => {
                        let mut right_children = self.children.split_off(new_pair_index + 1);
                        right_children.insert(0, right_child);
                        assert(self.children@ =~= cs1.take(m + 1));
                        assert(right_children@ =~= cs1.skip(m + 1));
                        Some(right_children)
                    },
                    None => None,
                };
                assert(self.pairs@ =~= ps1.take(m));
                assert(right_pairs@ =~= ps1.skip(m + 1));
                (pair, right_pairs, right_children)
            } else {
                let mut right_pairs = self.pairs.split_off(new_pair_index + 1);
                let mid_pair = self.pairs.pop().unwrap();
                let to_insert = to_insert - (new_pair_index + 1);
                right_pairs.insert(to_insert, pair);
                let right_children = match right_child {
                    Some(right_child) => {
                        let mut right_children = self.children.split_off(new_pair_index + 1);
                        right_children.insert(to_insert + 1, right_child);
                        assert(self.children@ =~= cs1.take(m + 1));
                        assert(right_children@ =~= cs1.skip(m + 1));
                        Some(right_children)
                    },
                    None => None,
                };
                assert(self.pairs@ =~= ps1.take(m));
                assert(right_pairs@ =~= ps1.skip(m + 1));
                (mid_pair, right_pairs, right_children)
            };
            Some(SplitInfo::new(mid_pair, Node::new_with_data(right_pairs, right_children)))
        } else {
            self.pairs.insert(to_insert, pair);
            if let Some(right_child) = right_child {
                self.children.insert(to_insert + 1, right_child);
            }
            None
        }
    }
}

impl<K: Ord, V> Node<K, V> {
    /// A node that is filled with some least number of pairs is filled with any least
    /// number of pairs that it holds.
    proof fn lemma_filled_least(self, depth: nat, most: nat, was: nat, least: nat)
        requires
            self.filled(depth, most, was),
            least <= self.pairs@.len(),
        ensures
            self.filled(depth, most, least),
    {
    }

    /// A subtree holds at least as many entries as its root holds pairs.
    proof fn lemma_entries_least(self, depth: nat, most: nat)
        ensures
            self.entries(depth).len() >= self.pairs@.len(),
    {
        lemma_interleave_len(self.pairs@, self.kids(depth));
    }

    /// The pairs of a leaf are its entries.
    proof fn lemma_leaf(self)
        requires
            self.shaped(0),
        ensures
            self.entries(0) == self.pairs@,
    {
        lemma_interleave_bare(self.pairs@, self.kids(0));
    }

    /// The entries of the children of a node above the leaves.
    proof fn lemma_kids(self, depth: nat)
        requires
            depth > 0,
        ensures
            self.kids(depth).len() == self.pairs@.len() + 1,
            forall|i: int|
                0 <= i <= self.pairs@.len() ==> #[trigger] self.kids(depth)[i]
                    == self.children@[i].entries((depth - 1) as nat),
    {
    }

    /// The two nodes that a split has made are as full as nodes below the root must be.
    proof fn lemma_split_filled(self, right: Self, all: Seq<Tree<K, V>>, depth: nat, most: nat)
        requires
            most >= 4,
            self.pairs@.len() == most / 2,
            right.pairs@.len() == most - most / 2 - 1,
            depth > 0 ==> self.children@ == all.take((most / 2 + 1) as int) && right.children@
                == all.skip((most / 2 + 1) as int) && all.len() == most + 1 && forall|i: int|
                0 <= i < all.len() ==> (#[trigger] all[i]).shaped((depth - 1) as nat)
                    && all[i].filled((depth - 1) as nat, most, (most / 2 - 1) as nat),
            depth == 0 ==> self.children@.len() == 0 && right.children@.len() == 0,
        ensures
            self.shaped(depth),
            right.shaped(depth),
            self.filled(depth, most, (most / 2 - 1) as nat),
            right.filled(depth, most, (most / 2 - 1) as nat),
    {
        if depth > 0 {
            assert forall|i: int| 0 <= i < self.children@.len() implies (
            #[trigger] self.children@[i]).shaped((depth - 1) as nat) && self.children@[i].filled(
                (depth - 1) as nat,
                most,
                (most / 2 - 1) as nat,
            ) by {
                assert(self.children@[i] == all[i]);
            }
            assert forall|i: int| 0 <= i < right.children@.len() implies (
            #[trigger] right.children@[i]).shaped((depth - 1) as nat) && right.children@[i].filled(
                (depth - 1) as nat,
                most,
                (most / 2 - 1) as nat,
            ) by {
                assert(right.children@[i] == all[i + most / 2 + 1]);
            }
        }
    }

    /// The entries of a node before and behind its pair at the place `at`.
    pub closed spec fn around_pair(self, depth: nat, at: int) -> (Seq<(K, V)>, Seq<(K, V)>) {
        (
            interleave(self.pairs@.take(at), self.kids(depth).take(at + 1)),
            interleave(self.pairs@.skip(at + 1), self.kids(depth).skip(at + 1)),
        )
    }

    /// The entries of a node before and behind its child at the place `at`.
    pub closed spec fn around_child(self, depth: nat, at: int) -> (Seq<(K, V)>, Seq<(K, V)>) {
        (before(self.pairs@, self.kids(depth), at), behind(self.pairs@, self.kids(depth), at))
    }

    /// The pairs of a node ascend where its entries do.
    proof fn lemma_node_pairs(self, depth: nat)
        requires
            total_order::<K>(),
            ascending(self.entries(depth)),
        ensures
            forall|j: int, k: int|
                0 <= j < k < self.pairs@.len() ==> lt(self.pairs@[j].0, self.pairs@[k].0),
    {
        assert forall|j: int, k: int| 0 <= j < k < self.pairs@.len() implies lt(
            self.pairs@[j].0,
            self.pairs@[k].0,
        ) by {
            lemma_pairs_ascending(self.pairs@, self.kids(depth), j, k);
        }
    }

    /// A node whose pair at the place `found` has got another value holds the new pair
    /// where it held the old one.
    proof fn lemma_value_replaced(self, after: Self, depth: nat, found: int, key: K, old: V, new: V)
        requires
            total_order::<K>(),
            ascending(self.entries(depth)),
            0 <= found < self.pairs@.len(),
            self.pairs@[found] == (key, old),
            after.pairs@ == self.pairs@.update(found, (key, new)),
            after.children@ == self.children@,
        ensures
            added(
                self.entries(depth),
                after.entries(depth),
                self.around_pair(depth, found).0,
                self.around_pair(depth, found).1,
                key,
                new,
                Some(old),
            ),
    {
        let ps = self.pairs@;
        let ks = self.kids(depth);
        let ps1 = after.pairs@;
        let a = self.around_pair(depth, found).0;
        let b = self.around_pair(depth, found).1;
        let e0 = self.entries(depth);
        assert(after.kids(depth) =~= ks);
        lemma_interleave_cut(ps, ks, found);
        lemma_interleave_cut(ps1, ks, found);
        assert(ps1.take(found) =~= ps.take(found));
        assert(ps1.skip(found + 1) =~= ps.skip(found + 1));
        assert(e0 == a + seq![(key, old)] + b);
        assert forall|i: int| 0 <= i < a.len() implies lt((#[trigger] a[i]).0, key) by {
            assert(e0[i] == a[i]);
            assert(e0[a.len() as int] == (key, old));
            assert(lt(e0[i].0, e0[a.len() as int].0));
        }
        assert forall|j: int| 0 <= j < b.len() implies lt(key, (#[trigger] b[j]).0) by {
            assert(e0[a.len() + 1 + j] == b[j]);
            assert(e0[a.len() as int] == (key, old));
            assert(lt(e0[a.len() as int].0, e0[a.len() + 1 + j].0));
        }
    }

    /// Around the child at which a key that is not among the pairs of the node has to be
    /// looked for stand only lesser keys before and greater keys behind.
    proof fn lemma_around_child(self, depth: nat, at: int, key: K)
        requires
            total_order::<K>(),
            ascending(self.entries(depth)),
            0 <= at <= self.pairs@.len(),
            forall|j: int| 0 <= j < at ==> lt((#[trigger] self.pairs@[j]).0, key),
            forall|j: int| at <= j < self.pairs@.len() ==> lt(key, (#[trigger] self.pairs@[j]).0),
        ensures
            self.entries(depth) == self.around_child(depth, at).0 + self.kids(depth)[at]
                + self.around_child(depth, at).1,
            ascending(self.kids(depth)[at]),
            forall|i: int|
                0 <= i < self.around_child(depth, at).0.len() ==> lt(
                    (#[trigger] self.around_child(depth, at).0[i]).0,
                    key,
                ),
            forall|j: int|
                0 <= j < self.around_child(depth, at).1.len() ==> lt(
                    key,
                    (#[trigger] self.around_child(depth, at).1[j]).0,
                ),
    {
        let ps = self.pairs@;
        let ks = self.kids(depth);
        let bf = before(ps, ks, at);
        let bh = behind(ps, ks, at);
        lemma_interleave_ascending(ps, ks, at);
        lemma_interleave_around(ps, ks, at);
        assert forall|i: int| 0 <= i < bf.len() implies lt((#[trigger] bf[i]).0, key) by {
            assert(bf.last() == ps[at - 1]);
            if i < bf.len() - 1 {
                lemma_transitive(bf[i].0, ps[at - 1].0, key);
            }
        }
        assert forall|j: int| 0 <= j < bh.len() implies lt(key, (#[trigger] bh[j]).0) by {
            assert(bh[0] == ps[at]);
            if j > 0 {
                lemma_transitive(key, ps[at].0, bh[j].0);
            }
        }
    }

    /// A leaf that has got a pair at the place `at`, and has split if it was full, holds
    /// the new pair between the pairs that stood before and behind that place.
    proof fn lemma_leaf_grown(
        self,
        after: Self,
        split: Option<SplitInfo<K, V>>,
        most: nat,
        least: nat,
        at: int,
        key: K,
        value: V,
    )
        requires
            most >= 4,
            least <= most / 2 - 1,
            self.shaped(0),
            self.filled(0, most, least),
            0 <= at <= self.pairs@.len(),
            forall|j: int| 0 <= j < at ==> lt((#[trigger] self.pairs@[j]).0, key),
            forall|j: int| at <= j < self.pairs@.len() ==> lt(key, (#[trigger] self.pairs@[j]).0),
            ({
                let pairs = self.pairs@.insert(at, (key, value));
                let middle = ((self.pairs@.len() + 1) / 2) as int;
                if self.pairs@.len() + 1 >= most {
                    &&& split is Some
                    &&& after.pairs@ == pairs.take(middle)
                    &&& split.unwrap().mid_pair == pairs[middle]
                    &&& split.unwrap().right_child.pairs@ == pairs.skip(middle + 1)
                    &&& after.children@.len() == 0
                    &&& split.unwrap().right_child.children@.len() == 0
                } else {
                    &&& split is None
                    &&& after.pairs@ == pairs
                    &&& after.children@.len() == 0
                }
            }),
        ensures
            after.shaped(0),
            match split {
                None => after.filled(0, most, least) && added(
                    self.entries(0),
                    after.entries(0),
                    self.pairs@.take(at),
                    self.pairs@.skip(at),
                    key,
                    value,
                    None,
                ),
                Some(split) => split.right_child.shaped(0) && after.filled(
                    0,
                    most,
                    (most / 2 - 1) as nat,
                ) && split.right_child.filled(0, most, (most / 2 - 1) as nat) && added(
                    self.entries(0),
                    after.entries(0) + seq![split.mid_pair] + split.right_child.entries(0),
                    self.pairs@.take(at),
                    self.pairs@.skip(at),
                    key,
                    value,
                    None,
                ),
            },
    {
        let ps = self.pairs@;
        let a = ps.take(at);
        let b = ps.skip(at);
        let ps1 = ps.insert(at, (key, value));
        self.lemma_leaf();
        assert(ps =~= a + b);
        assert(ps1 =~= a + seq![(key, value)] + b);
        after.lemma_leaf();
        match split {
            None => {},
            Some(split) => {
                split.right_child.lemma_leaf();
                let m = ((ps.len() + 1) / 2) as int;
                assert(ps1 =~= ps1.take(m) + seq![ps1[m]] + ps1.skip(m + 1));
                after.lemma_split_filled(*split.right_child, Seq::empty(), 0, most);
            },
        }
    }

    /// A node whose child at the place `at` has taken a pair without splitting holds the
    /// new entries of that child where it held the old ones.
    proof fn lemma_child_grown(
        self,
        after: Self,
        depth: nat,
        most: nat,
        least: nat,
        at: int,
        key: K,
        value: V,
        replaced: Option<V>,
        a: Seq<(K, V)>,
        b: Seq<(K, V)>,
    )
        requires
            total_order::<K>(),
            depth > 0,
            self.shaped(depth),
            self.filled(depth, most, least),
            ascending(self.entries(depth)),
            0 <= at <= self.pairs@.len(),
            forall|j: int| 0 <= j < at ==> lt((#[trigger] self.pairs@[j]).0, key),
            forall|j: int| at <= j < self.pairs@.len() ==> lt(key, (#[trigger] self.pairs@[j]).0),
            after.pairs@ == self.pairs@,
            after.children@ == self.children@.update(at, after.children@[at]),
            after.children@[at].shaped((depth - 1) as nat),
            after.children@[at].filled((depth - 1) as nat, most, (most / 2 - 1) as nat),
            added(
                self.children@[at].entries((depth - 1) as nat),
                after.children@[at].entries((depth - 1) as nat),
                a,
                b,
                key,
                value,
                replaced,
            ),
        ensures
            after.shaped(depth),
            after.filled(depth, most, least),
            added(
                self.entries(depth),
                after.entries(depth),
                self.around_child(depth, at).0 + a,
                b + self.around_child(depth, at).1,
                key,
                value,
                replaced,
            ),
    {
        let d1 = (depth - 1) as nat;
        let ps = self.pairs@;
        let ks = self.kids(depth);
        let cs = self.children@;
        let cs1 = after.children@;
        let bf = before(ps, ks, at);
        let bh = behind(ps, ks, at);
        self.lemma_around_child(depth, at, key);
        self.lemma_kids(depth);
        after.lemma_kids(depth);
        let x1 = cs1[at].entries(d1);
        assert(after.kids(depth) =~= ks.update(at, x1)) by {
            assert forall|i: int| 0 <= i < ks.len() && i != at implies after.kids(depth)[i]
                == ks[i] by {
                assert(cs1[i] == cs[i]);
            }
        }
        lemma_interleave_changed(ps, ks, at, x1);
        lemma_added_within(ks[at], x1, a, b, key, value, replaced, bf, bh);
        assert forall|i: int| 0 <= i < cs1.len() implies (#[trigger] cs1[i]).shaped(d1)
            && cs1[i].filled(d1, most, (most / 2 - 1) as nat) by {
            if i != at {
                assert(cs1[i] == cs[i]);
            }
        }
    }

    /// A node whose child at the place `at` has taken a pair and split, and which has taken
    /// in what the child split off, and has split itself if it was full, holds the new entries
    /// of the two halves of the child, and the pair between them, where it held the child's
    /// old entries.
    proof fn lemma_child_split(
        self,
        child: Tree<K, V>,
        child_split: SplitInfo<K, V>,
        after: Self,
        split: Option<SplitInfo<K, V>>,
        depth: nat,
        most: nat,
        least: nat,
        at: int,
        key: K,
        value: V,
        a: Seq<(K, V)>,
        b: Seq<(K, V)>,
    )
        requires
            total_order::<K>(),
            most >= 4,
            least <= most / 2 - 1,
            depth > 0,
            self.shaped(depth),
            self.filled(depth, most, least),
            ascending(self.entries(depth)),
            0 <= at <= self.pairs@.len(),
            forall|j: int| 0 <= j < at ==> lt((#[trigger] self.pairs@[j]).0, key),
            forall|j: int| at <= j < self.pairs@.len() ==> lt(key, (#[trigger] self.pairs@[j]).0),
            child.shaped((depth - 1) as nat),
            child.filled((depth - 1) as nat, most, (most / 2 - 1) as nat),
            child_split.right_child.shaped((depth - 1) as nat),
            child_split.right_child.filled((depth - 1) as nat, most, (most / 2 - 1) as nat),
            added(
                self.children@[at].entries((depth - 1) as nat),
                child.entries((depth - 1) as nat) + seq![child_split.mid_pair]
                    + child_split.right_child.entries((depth - 1) as nat),
                a,
                b,
                key,
                value,
                None,
            ),
            ({
                let pairs = self.pairs@.insert(at, child_split.mid_pair);
                let children = self.children@.update(at, child).insert(
                    at + 1,
                    child_split.right_child,
                );
                let middle = ((self.pairs@.len() + 1) / 2) as int;
                if self.pairs@.len() + 1 >= most {
                    &&& split is Some
                    &&& after.pairs@ == pairs.take(middle)
                    &&& split.unwrap().mid_pair == pairs[middle]
                    &&& split.unwrap().right_child.pairs@ == pairs.skip(middle + 1)
                    &&& after.children@ == children.take(middle + 1)
                    &&& split.unwrap().right_child.children@ == children.skip(middle + 1)
                } else {
                    &&& split is None
                    &&& after.pairs@ == pairs
                    &&& after.children@ == children
                }
            }),
        ensures
            after.shaped(depth),
            match split {
                None => after.filled(depth, most, least) && added(
                    self.entries(depth),
                    after.entries(depth),
                    self.around_child(depth, at).0 + a,
                    b + self.around_child(depth, at).1,
                    key,
                    value,
                    None,
                ),
                Some(split) => split.right_child.shaped(depth) && after.filled(
                    depth,
                    most,
                    (most / 2 - 1) as nat,
                ) && split.right_child.filled(depth, most, (most / 2 - 1) as nat) && added(
                    self.entries(depth),
                    after.entries(depth) + seq![split.mid_pair] + split.right_child.entries(depth),
                    self.around_child(depth, at).0 + a,
                    b + self.around_child(depth, at).1,
                    key,
                    value,
                    None,
                ),
            },
    {
        let d1 = (depth - 1) as nat;
        let ps = self.pairs@;
        let ks = self.kids(depth);
        let cs = self.children@;
        let bf = before(ps, ks, at);
        let bh = behind(ps, ks, at);
        let l = child.entries(d1);
        let mid = child_split.mid_pair;
        let rt = child_split.right_child.entries(d1);
        let ps2 = ps.insert(at, mid);
        let cs2 = cs.update(at, child).insert(at + 1, child_split.right_child);
        let ks2 = ks.update(at, l).insert(at + 1, rt);
        self.lemma_around_child(depth, at, key);
        self.lemma_kids(depth);
        lemma_interleave_grown(ps, ks, at, l, mid, rt);
        lemma_added_within(ks[at], l + seq![mid] + rt, a, b, key, value, None, bf, bh);
        assert(bf + l + seq![mid] + rt + bh =~= bf + (l + seq![mid] + rt) + bh);
        assert(Self::kids_of(cs2, ps2.len() + 1, depth) =~= ks2) by {
            assert forall|i: int| 0 <= i < ks2.len() implies Self::kids_of(
                cs2,
                ps2.len() + 1,
                depth,
            )[i] == ks2[i] by {
                if i < at {
                    assert(cs2[i] == cs[i]);
                } else if i > at + 1 {
                    assert(cs2[i] == cs[i - 1]);
                }
            }
        }
        assert forall|i: int| 0 <= i < cs2.len() implies (#[trigger] cs2[i]).shaped(d1)
            && cs2[i].filled(d1, most, (most / 2 - 1) as nat) by {
            if i < at {
                assert(cs2[i] == cs[i]);
            } else if i > at + 1 {
                assert(cs2[i] == cs[i - 1]);
            }
        }
        match split {
            None => {
                assert(after.kids(depth) =~= ks2);
            },
            Some(split) => {
                let m = ((ps.len() + 1) / 2) as int;
                lemma_interleave_cut(ps2, ks2, m);
                assert(after.kids(depth) =~= ks2.take(m + 1)) by {
                    assert forall|i: int| 0 <= i < m + 1 implies after.kids(depth)[i] == ks2[i] by {
                        assert(after.children@[i] == cs2[i]);
                    }
                }
                assert(split.right_child.kids(depth) =~= ks2.skip(m + 1)) by {
                    assert forall|i: int|
                        0 <= i < ks2.len() - (m + 1) implies split.right_child.kids(depth)[i]
                        == ks2[i + m + 1] by {
                        assert(split.right_child.children@[i] == cs2[i + m + 1]);
                    }
                }
                after.lemma_split_filled(*split.right_child, cs2, depth, most);
            },
        }
    }

    /// Puts the pair (`key`, `value`) into the subtree of `node`, or replaces the value of
    /// `key` there and hands the replaced value back. A node that is full hands back what it
    /// splits off. Also returns, for the proof, the entries before and behind the key.
    fn add_r(
        node: &mut Tree<K, V>,
        max_children_length: usize,
        key: K,
        value: V,
        Ghost(depth): Ghost<nat>,
        Ghost(least): Ghost<nat>,
    ) -> (r: (Option<SplitInfo<K, V>>, Option<V>, Ghost<Seq<(K, V)>>, Ghost<Seq<(K, V)>>))
        requires
            total_order::<K>(),
            max_children_length >= 4,
            least <= max_children_length / 2 - 1,
            old(node).shaped(depth),
            old(node).filled(depth, max_children_length as nat, least),
            ascending(old(node).entries(depth)),
        ensures
            final(node).shaped(depth),
            match r.0 {
                None => final(node).filled(depth, max_children_length as nat, least) && added(
                    old(node).entries(depth),
                    final(node).entries(depth),
                    r.2@,
                    r.3@,
                    key,
                    value,
                    r.1,
                ),
                Some(split) => r.1 is None && split.right_child.shaped(depth)
                    && final(node).filled(
                    depth,
                    max_children_length as nat,
                    (max_children_length / 2 - 1) as nat,
                ) && split.right_child.filled(
                    depth,
                    max_children_length as nat,
                    (max_children_length / 2 - 1) as nat,
                ) && added(
                    old(node).entries(depth),
                    final(node).entries(depth) + seq![split.mid_pair]
                        + split.right_child.entries(depth),
                    r.2@,
                    r.3@,
                    key,
                    value,
                    None,
                ),
            },
        decreases depth,
    {
        let ghost n0 = **node;
        let ghost most = max_children_length as nat;
        proof {
            n0.lemma_node_pairs(depth);
        }
        match Self::search(&node.pairs, &key) {
            Ok(found) => {
                let mut value = value;
                let ghost given = value;
                std::mem::swap(&mut value, &mut node.pairs[found].1);
                proof {
                    n0.lemma_value_replaced(**node, depth, found as int, key, value, given);
                }
                (
                    None,
                    Some(value),
                    Ghost(n0.around_pair(depth, found as int).0),
                    Ghost(n0.around_pair(depth, found as int).1),
                )
            },
            Err(to_insert) => {
                if node.children.len() == 0 {
                    let split = node.add_pair(max_children_length, to_insert, (key, value), None);
                    proof {
                        n0.lemma_leaf_grown(**node, split, most, least, to_insert as int, key, value);
                    }
                    (
                        split,
                        None,
                        Ghost(n0.pairs@.take(to_insert as int)),
                        Ghost(n0.pairs@.skip(to_insert as int)),
                    )
                } else {
                    proof {
                        n0.lemma_around_child(depth, to_insert as int, key);
                        n0.lemma_kids(depth);
                    }
                    let r = Self::add_r(
                        &mut node.children[to_insert],
                        max_children_length,
                        key,
                        value,
                        Ghost((depth - 1) as nat),
                        Ghost((max_children_length / 2 - 1) as nat),
                    );
                    let ghost n1 = **node;
                    let ghost a = n0.around_child(depth, to_insert as int).0 + r.2@;
                    let ghost b = r.3@ + n0.around_child(depth, to_insert as int).1;
                    match r.0 {
                        None => {
                            proof {
                                assert(n1.children@ =~= n0.children@.update(
                                    to_insert as int,
                                    n1.children@[to_insert as int],
                                ));
                                n0.lemma_child_grown(
                                    n1,
                                    depth,
                                    most,
                                    least,
                                    to_insert as int,
                                    key,
                                    value,
                                    r.1,
                                    r.2@,
                                    r.3@,
                                );
                            }
                            (None, r.1, Ghost(a), Ghost(b))
                        },
                        Some(child_split) => {
                            let ghost halves = child_split;
                            let split = node.add_pair(
                                max_children_length,
                                to_insert,
                                child_split.mid_pair,
                                Some(child_split.right_child),
                            );
                            proof {
                                assert(n1.children@ =~= n0.children@.update(
                                    to_insert as int,
                                    n1.children@[to_insert as int],
                                ));
                                n0.lemma_child_split(
                                    n1.children@[to_insert as int],
                                    halves,
                                    **node,
                                    split,
                                    depth,
                                    most,
                                    least,
                                    to_insert as int,
                                    key,
                                    value,
                                    r.2@,
                                    r.3@,
                                );
                            }
                            (split, None, Ghost(a), Ghost(b))
                        },
                    }
                }
            },
        }
    }
}

impl<K: Ord, V> View for BTree<K, V> {
    type V = Map<K, V>;

    /// The map from each key in the tree to its value.
    closed spec fn view(&self) -> Map<K, V> {
        map_of_pairs(self.entries())
    }
}

impl<K: Ord, V> Default for BTree<K, V> {
    /// An empty tree whose nodes have up to 256 children.
    fn default() -> (tree: Self)
        ensures
            tree.well_formed(),
            tree@ == Map::<K, V>::empty(),
            tree.order() == 256,
    {
        Self::new(256)
    }
}

impl<K: Ord, V> BTree<K, V> {
    /// The pairs of the tree in ascending order of their keys.
    pub closed spec fn entries(&self) -> Seq<(K, V)> {
        match self.root {
            None => Seq::empty(),
            Some(root) => root.entries(self.depth@),
        }
    }

    /// The greatest number of children that a node may have.
    pub closed spec fn order(&self) -> nat {
        self.max_children_length as nat
    }


    /// The keys ascend from left to right, every leaf stands at the same depth, every node
    /// holds fewer pairs than the order, every node but the root at least one less than
    /// half the order, and `len` counts the pairs.
    pub closed spec fn well_formed(&self) -> bool {
        &&& self.max_children_length >= 4
        &&& self.length == self.entries().len()
        &&& ascending(self.entries())
        &&& match self.root {
            None => self.length == 0,
            Some(root) => self.length > 0 && root.shaped(self.depth@) && root.filled(
                self.depth@,
                self.max_children_length as nat,
                1,
            ),
        }
    }

    /// `len` counts the keys of the map, and `iter` lists the pairs of the map in
    /// ascending order of the keys.
    pub proof fn lemma_entries(&self)
        requires
            total_order::<K>(),
            self.well_formed(),
        ensures
            ascending(self.entries()),
            lists(self.entries(), self@),
            self@.dom().finite(),
            self.entries().len() == self@.len(),
    {
        lemma_map_of_pairs(self.entries());
    }

    /// An empty tree whose nodes have up to `max_children_length` children.
    pub fn new(max_children_length: usize) -> (tree: Self)
        requires
            max_children_length >= 4,
        ensures
            tree.well_formed(),
            tree@ == Map::<K, V>::empty(),
            tree.order() == max_children_length,
    {
        let tree = Self { root: None, max_children_length, length: 0, depth: Ghost(0) };
        assert(tree@ =~= Map::<K, V>::empty());
        tree
    }

    /// The number of keys in the tree.
    pub fn len(&self) -> (n: usize)
        requires
            total_order::<K>(),
            self.well_formed(),
        ensures
            n == self@.len(),
    {
        proof {
            self.lemma_entries();
        }
        self.length
    }

    /// Whether the tree holds no key.
    pub fn is_empty(&self) -> (empty: bool)
        requires
            total_order::<K>(),
            self.well_formed(),
        ensures
            empty == (self@.len() == 0),
    {
        proof {
            self.lemma_entries();
        }
        self.length == 0
    }

    /// Maps `key` to `value` and returns the value that `key` had before, if any.
    pub fn add(&mut self, key: K, value: V) -> (replaced: Option<V>)
        requires
            total_order::<K>(),
            old(self).well_formed(),
            old(self)@.len() < usize::MAX,
        ensures
            final(self).well_formed(),
            final(self).order() == old(self).order(),
            final(self)@ == old(self)@.insert(key, value),
            replaced == lookup(old(self)@, key),
            final(self)@.len() + count_of(old(self)@, key) == old(self)@.len() + 1,
    {
        let ghost e0 = self.entries();
        proof {
            self.lemma_entries();
        }
        let ghost depth = if self.root is None {
            0nat
        } else {
            self.depth@
        };
        let ghost least: nat = if self.root is None {
            0
        } else {
            1
        };
        let mut node = match self.root.take() {
            Some(root) => root,
            None => Node::new_leaf(),
        };
        let ghost n0 = *node;
        assert(n0.entries(depth) == e0);
        assert(n0.filled(depth, self.max_children_length as nat, least));
        let r = Node::add_r(
            &mut node,
            self.max_children_length,
            key,
            value,
            Ghost(depth),
            Ghost(least),
        );
        let ghost halves = r.0;
        let ghost left = *node;
        match r.0 {
            None => {
                self.root = Some(node);
                self.depth = Ghost(depth);
            },
            Some(split) => {
                let root = Node::new_root(split.mid_pair, node, split.right_child);
                proof {
                    let right = halves.unwrap().right_child;
                    let mid = halves.unwrap().mid_pair;
                    root.lemma_kids(depth + 1);
                    let ks = root.kids(depth + 1);
                    assert(ks[0] == left.entries(depth));
                    assert(ks[1] == right.entries(depth));
                    assert(root.pairs@.drop_last() =~= Seq::<(K, V)>::empty());
                    assert(ks.drop_last()[0] == ks[0]);
                    assert(interleave(root.pairs@.drop_last(), ks.drop_last()) == ks[0]);
                    assert(root.pairs@.last() == mid);
                    assert(ks.last() == ks[1]);
                    assert(root.entries(depth + 1) == interleave(root.pairs@, ks));
                    assert(root.entries(depth + 1) =~= left.entries(depth) + seq![mid]
                        + right.entries(depth));
                    assert(root.shaped(depth + 1));
                    assert(root.filled(depth + 1, self.max_children_length as nat, 1));
                }
                self.root = Some(root);
                self.depth = Ghost(depth + 1);
            },
        }
        if r.1.is_none() {
            self.length += 1;
        }
        proof {
            lemma_added(e0, self.entries(), r.2@, r.3@, key, value, r.1);
            if halves is None {
                left.lemma_entries_least(depth, self.max_children_length as nat);
                if depth == 0 {
                    left.lemma_leaf();
                }
                left.lemma_filled_least(depth, self.max_children_length as nat, least, 1);
            }
        }
        r.1
    }
}

impl<K: Ord, V> Node<K, V> {
    /// A node that has got the pair `p` in front, and before it the child `z` where it
    /// stands above the leaves.
    proof fn lemma_child_front(self, after: Self, depth: nat, most: nat, p: (K, V), z: Tree<K, V>)
        requires
            self.shaped(depth),
            after.pairs@ == self.pairs@.insert(0, p),
            depth > 0 ==> after.children@ == self.children@.insert(0, z) && z.shaped(
                (depth - 1) as nat,
            ),
            depth == 0 ==> after.children@.len() == 0,
        ensures
            after.shaped(depth),
            after.entries(depth) == (if depth > 0 {
                z.entries((depth - 1) as nat)
            } else {
                Seq::empty()
            }) + seq![p] + self.entries(depth),
            forall|least: nat|
                self.filled(depth, most, least) && self.pairs@.len() + 1 < most && (depth > 0
                    ==> z.filled((depth - 1) as nat, most, (most / 2 - 1) as nat))
                    ==> #[trigger] after.filled(depth, most, least + 1),
    {
        let zs = if depth > 0 {
            z.entries((depth - 1) as nat)
        } else {
            Seq::empty()
        };
        assert(after.kids(depth) =~= self.kids(depth).insert(0, zs)) by {
            assert forall|i: int| 0 <= i < after.kids(depth).len() implies after.kids(depth)[i]
                == self.kids(depth).insert(0, zs)[i] by {
                if depth > 0 && i > 0 {
                    assert(after.children@[i] == self.children@[i - 1]);
                }
            }
        }
        lemma_interleave_front(self.pairs@, self.kids(depth), p, zs);
        if depth > 0 {
            assert forall|i: int| 0 <= i < after.children@.len() implies (
            #[trigger] after.children@[i]).shaped((depth - 1) as nat) by {
                if i > 0 {
                    assert(after.children@[i] == self.children@[i - 1]);
                }
            }
        }
        assert forall|least: nat|
            self.filled(depth, most, least) && self.pairs@.len() + 1 < most && (depth > 0
                ==> z.filled((depth - 1) as nat, most, (most / 2 - 1) as nat)) implies #[trigger] after.filled(
            depth,
            most,
            least + 1,
        ) by {
            if depth > 0 {
                assert forall|i: int| 0 <= i < after.children@.len() implies (
                #[trigger] after.children@[i]).filled(
                    (depth - 1) as nat,
                    most,
                    (most / 2 - 1) as nat,
                ) by {
                    if i > 0 {
                        assert(after.children@[i] == self.children@[i - 1]);
                    }
                }
            }
        }
    }

    /// A node that has got the pair `p` at its end, and behind it the child `z` where it
    /// stands above the leaves.
    proof fn lemma_child_back(self, after: Self, depth: nat, most: nat, p: (K, V), z: Tree<K, V>)
        requires
            self.shaped(depth),
            after.pairs@ == self.pairs@.push(p),
            depth > 0 ==> after.children@ == self.children@.push(z) && z.shaped(
                (depth - 1) as nat,
            ),
            depth == 0 ==> after.children@.len() == 0,
        ensures
            after.shaped(depth),
            after.entries(depth) == self.entries(depth) + seq![p] + (if depth > 0 {
                z.entries((depth - 1) as nat)
            } else {
                Seq::empty()
            }),
            forall|least: nat|
                self.filled(depth, most, least) && self.pairs@.len() + 1 < most && (depth > 0
                    ==> z.filled((depth - 1) as nat, most, (most / 2 - 1) as nat))
                    ==> #[trigger] after.filled(depth, most, least + 1),
    {
        let zs = if depth > 0 {
            z.entries((depth - 1) as nat)
        } else {
            Seq::empty()
        };
        assert(after.kids(depth) =~= self.kids(depth).push(zs)) by {
            assert forall|i: int| 0 <= i < after.kids(depth).len() implies after.kids(depth)[i]
                == self.kids(depth).push(zs)[i] by {
                if depth > 0 && i < self.children@.len() {
                    assert(after.children@[i] == self.children@[i]);
                }
            }
        }
        lemma_interleave_back(self.pairs@, self.kids(depth), p, zs);
        if depth > 0 {
            assert forall|i: int| 0 <= i < after.children@.len() implies (
            #[trigger] after.children@[i]).shaped((depth - 1) as nat) by {
                if i < self.children@.len() {
                    assert(after.children@[i] == self.children@[i]);
                }
            }
        }
        assert forall|least: nat|
            self.filled(depth, most, least) && self.pairs@.len() + 1 < most && (depth > 0
                ==> z.filled((depth - 1) as nat, most, (most / 2 - 1) as nat)) implies #[trigger] after.filled(
            depth,
            most,
            least + 1,
        ) by {
            if depth > 0 {
                assert forall|i: int| 0 <= i < after.children@.len() implies (
                #[trigger] after.children@[i]).filled(
                    (depth - 1) as nat,
                    most,
                    (most / 2 - 1) as nat,
                ) by {
                    if i < self.children@.len() {
                        assert(after.children@[i] == self.children@[i]);
                    }
                }
            }
        }
    }

    /// A node that has lost its last pair, and its last child where it stands above the
    /// leaves.
    proof fn lemma_child_less_last(self, after: Self, depth: nat, most: nat)
        requires
            self.shaped(depth),
            self.pairs@.len() > 0,
            after.pairs@ == self.pairs@.drop_last(),
            depth > 0 ==> after.children@ == self.children@.drop_last(),
            depth == 0 ==> after.children@.len() == 0,
        ensures
            after.shaped(depth),
            self.entries(depth) == after.entries(depth) + seq![self.pairs@.last()] + (if depth
                > 0 {
                self.children@.last().entries((depth - 1) as nat)
            } else {
                Seq::empty()
            }),
            depth > 0 ==> self.children@.last().shaped((depth - 1) as nat),
            forall|least: nat|
                self.filled(depth, most, least + 1) ==> #[trigger] after.filled(depth, most, least)
                    && (depth > 0 ==> self.children@.last().filled(
                    (depth - 1) as nat,
                    most,
                    (most / 2 - 1) as nat,
                )),
    {
        assert(after.kids(depth) =~= self.kids(depth).drop_last()) by {
            assert forall|i: int| 0 <= i < after.kids(depth).len() implies after.kids(depth)[i]
                == self.kids(depth)[i] by {
                if depth > 0 {
                    assert(after.children@[i] == self.children@[i]);
                }
            }
        }
        if depth > 0 {
            assert(self.children@.last() == self.children@[self.children@.len() - 1]);
            assert forall|i: int| 0 <= i < after.children@.len() implies (
            #[trigger] after.children@[i]).shaped((depth - 1) as nat) by {
                assert(after.children@[i] == self.children@[i]);
            }
        }
        assert forall|least: nat| self.filled(depth, most, least + 1) implies #[trigger] after.filled(
            depth,
            most,
            least,
        ) && (depth > 0 ==> self.children@.last().filled(
            (depth - 1) as nat,
            most,
            (most / 2 - 1) as nat,
        )) by {
            if depth > 0 {
                assert forall|i: int| 0 <= i < after.children@.len() implies (
                #[trigger] after.children@[i]).filled(
                    (depth - 1) as nat,
                    most,
                    (most / 2 - 1) as nat,
                ) by {
                    assert(after.children@[i] == self.children@[i]);
                }
            }
        }
    }

    /// A node that has lost its first pair, and its first child where it stands above the
    /// leaves.
    proof fn lemma_child_less_first(self, after: Self, depth: nat, most: nat)
        requires
            self.shaped(depth),
            self.pairs@.len() > 0,
            after.pairs@ == self.pairs@.skip(1),
            depth > 0 ==> after.children@ == self.children@.skip(1),
            depth == 0 ==> after.children@.len() == 0,
        ensures
            after.shaped(depth),
            self.entries(depth) == (if depth > 0 {
                self.children@[0].entries((depth - 1) as nat)
            } else {
                Seq::empty()
            }) + seq![self.pairs@[0]] + after.entries(depth),
            depth > 0 ==> self.children@[0].shaped((depth - 1) as nat),
            forall|least: nat|
                self.filled(depth, most, least + 1) ==> #[trigger] after.filled(depth, most, least)
                    && (depth > 0 ==> self.children@[0].filled(
                    (depth - 1) as nat,
                    most,
                    (most / 2 - 1) as nat,
                )),
    {
        assert(after.kids(depth) =~= self.kids(depth).skip(1)) by {
            assert forall|i: int| 0 <= i < after.kids(depth).len() implies after.kids(depth)[i]
                == self.kids(depth)[i + 1] by {
                if depth > 0 {
                    assert(after.children@[i] == self.children@[i + 1]);
                }
            }
        }
        lemma_interleave_rest(self.pairs@, self.kids(depth));
        if depth > 0 {
            assert forall|i: int| 0 <= i < after.children@.len() implies (
            #[trigger] after.children@[i]).shaped((depth - 1) as nat) by {
                assert(after.children@[i] == self.children@[i + 1]);
            }
        }
        assert forall|least: nat| self.filled(depth, most, least + 1) implies #[trigger] after.filled(
            depth,
            most,
            least,
        ) && (depth > 0 ==> self.children@[0].filled(
            (depth - 1) as nat,
            most,
            (most / 2 - 1) as nat,
        )) by {
            if depth > 0 {
                assert forall|i: int| 0 <= i < after.children@.len() implies (
                #[trigger] after.children@[i]).filled(
                    (depth - 1) as nat,
                    most,
                    (most / 2 - 1) as nat,
                ) by {
                    assert(after.children@[i] == self.children@[i + 1]);
                }
            }
        }
    }

    /// A node that has taken in the pair `p` and all that a neighbour to its right held.
    proof fn lemma_child_merged(self, right: Self, after: Self, depth: nat, most: nat, p: (K, V))
        requires
            self.shaped(depth),
            right.shaped(depth),
            after.pairs@ == self.pairs@.push(p) + right.pairs@,
            after.children@ == self.children@ + right.children@,
        ensures
            after.shaped(depth),
            after.entries(depth) == self.entries(depth) + seq![p] + right.entries(depth),
            forall|a: nat, b: nat|
                self.filled(depth, most, a) && right.filled(depth, most, b) && self.pairs@.len()
                    + 1 + right.pairs@.len() < most ==> #[trigger] after.filled(
                    depth,
                    most,
                    a + b + 1,
                ),
    {
        assert(after.pairs@ =~= self.pairs@ + seq![p] + right.pairs@);
        assert(after.kids(depth) =~= self.kids(depth) + right.kids(depth)) by {
            assert forall|i: int| 0 <= i < after.kids(depth).len() implies after.kids(depth)[i] == (
            self.kids(depth) + right.kids(depth))[i] by {
                if depth > 0 {
                    if i < self.children@.len() {
                        assert(after.children@[i] == self.children@[i]);
                    } else {
                        assert(after.children@[i] == right.children@[i - self.children@.len()]);
                    }
                }
            }
        }
        lemma_interleave_joined(self.pairs@, self.kids(depth), p, right.pairs@, right.kids(depth));
        if depth > 0 {
            assert forall|i: int| 0 <= i < after.children@.len() implies (
            #[trigger] after.children@[i]).shaped((depth - 1) as nat) by {
                if i < self.children@.len() {
                    assert(after.children@[i] == self.children@[i]);
                } else {
                    assert(after.children@[i] == right.children@[i - self.children@.len()]);
                }
            }
        }
        assert forall|a: nat, b: nat|
            self.filled(depth, most, a) && right.filled(depth, most, b) && self.pairs@.len() + 1
                + right.pairs@.len() < most implies #[trigger] after.filled(
            depth,
            most,
            a + b + 1,
        ) by {
            if depth > 0 {
                assert forall|i: int| 0 <= i < after.children@.len() implies (
                #[trigger] after.children@[i]).filled(
                    (depth - 1) as nat,
                    most,
                    (most / 2 - 1) as nat,
                ) by {
                    if i < self.children@.len() {
                        assert(after.children@[i] == self.children@[i]);
                    } else {
                        assert(after.children@[i] == right.children@[i - self.children@.len()]);
                    }
                }
            }
        }
    }

    /// A node keeps its entries where only a pair and the two children next to it change,
    /// and these three hold together what they held.
    proof fn lemma_two_children_changed(self, after: Self, depth: nat, at: int)
        requires
            depth > 0,
            self.shaped(depth),
            0 <= at < self.pairs@.len(),
            after.pairs@.len() == self.pairs@.len(),
            after.children@.len() == self.children@.len(),
            forall|i: int| 0 <= i < self.pairs@.len() && i != at ==> after.pairs@[i] == self.pairs@[i],
            forall|i: int|
                0 <= i < self.children@.len() && i != at && i != at + 1 ==> after.children@[i]
                    == self.children@[i],
            after.children@[at].shaped((depth - 1) as nat),
            after.children@[at + 1].shaped((depth - 1) as nat),
            after.children@[at].entries((depth - 1) as nat) + seq![after.pairs@[at]]
                + after.children@[at + 1].entries((depth - 1) as nat) == self.children@[at].entries(
                (depth - 1) as nat,
            ) + seq![self.pairs@[at]] + self.children@[at + 1].entries((depth - 1) as nat),
        ensures
            after.shaped(depth),
            after.entries(depth) == self.entries(depth),
    {
        let ps = self.pairs@;
        let ks = self.kids(depth);
        let qs = after.pairs@;
        let ds = after.kids(depth);
        lemma_interleave_pair(ps, ks, at);
        lemma_interleave_pair(qs, ds, at);
        assert forall|j: int| 0 <= j < ks.len() && j != at && j != at + 1 implies ks[j] == ds[j] by {
            assert(after.children@[j] == self.children@[j]);
        }
        lemma_before_same(ps, ks, qs, ds, at);
        lemma_behind_same(ps, ks, at + 1, qs, ds, 0);
        let bf = before(ps, ks, at);
        let bh = behind(ps, ks, at + 1);
        assert(bf + ds[at] + seq![qs[at]] + ds[at + 1] + bh =~= bf + (ds[at] + seq![qs[at]]
            + ds[at + 1]) + bh);
        assert(bf + ks[at] + seq![ps[at]] + ks[at + 1] + bh =~= bf + (ks[at] + seq![ps[at]]
            + ks[at + 1]) + bh);
        assert forall|i: int| 0 <= i < after.children@.len() implies (
        #[trigger] after.children@[i]).shaped((depth - 1) as nat) by {
            if i != at && i != at + 1 {
                assert(after.children@[i] == self.children@[i]);
            }
        }
    }

    /// A node keeps its entries where the pair at the place `at` and the child behind it
    /// leave, and the child before the pair holds what the three held.
    proof fn lemma_two_children_merged(self, after: Self, depth: nat, at: int)
        requires
            depth > 0,
            self.shaped(depth),
            0 <= at < self.pairs@.len(),
            after.pairs@ == self.pairs@.remove(at),
            after.children@.len() == self.children@.len() - 1,
            forall|i: int| 0 <= i < at ==> after.children@[i] == self.children@[i],
            forall|i: int|
                at < i < after.children@.len() ==> after.children@[i] == self.children@[i + 1],
            after.children@[at].shaped((depth - 1) as nat),
            after.children@[at].entries((depth - 1) as nat) == self.children@[at].entries(
                (depth - 1) as nat,
            ) + seq![self.pairs@[at]] + self.children@[at + 1].entries((depth - 1) as nat),
        ensures
            after.shaped(depth),
            after.entries(depth) == self.entries(depth),
    {
        let ps = self.pairs@;
        let ks = self.kids(depth);
        let qs = after.pairs@;
        let ds = after.kids(depth);
        lemma_interleave_pair(ps, ks, at);
        lemma_interleave_around(qs, ds, at);
        assert forall|j: int| 0 <= j < at implies ks[j] == ds[j] by {
            assert(after.children@[j] == self.children@[j]);
        }
        assert forall|j: int| at < j < ds.len() implies ds[j] == ks[j + 1] by {
            assert(after.children@[j] == self.children@[j + 1]);
        }
        lemma_before_same(ps, ks, qs, ds, at);
        lemma_behind_same(qs, ds, at, ps, ks, 1);
        let bf = before(ps, ks, at);
        let bh = behind(ps, ks, at + 1);
        assert(bf + ks[at] + seq![ps[at]] + ks[at + 1] + bh =~= bf + (ks[at] + seq![ps[at]]
            + ks[at + 1]) + bh);
        assert forall|i: int| 0 <= i < after.children@.len() implies (
        #[trigger] after.children@[i]).shaped((depth - 1) as nat) by {
            if i < at {
                assert(after.children@[i] == self.children@[i]);
            } else if i > at {
                assert(after.children@[i] == self.children@[i + 1]);
            }
        }
    }
}

impl<K: Ord, V> Node<K, V> {
    /// Every child of the node but the one at the place `but` holds at least one less than
    /// half of `most` pairs, and that one at most one less than that.
    pub closed spec fn children_filled_but(self, depth: nat, most: nat, but: int) -> bool {
        forall|i: int|
            0 <= i < self.children@.len() ==> (#[trigger] self.children@[i]).filled(
                (depth - 1) as nat,
                most,
                if i == but {
                    (most / 2 - 2) as nat
                } else {
                    (most / 2 - 1) as nat
                },
            )
    }

    /// Fills up the child at the place `child_index`, which has lost a pair, if it holds
    /// too few pairs now. A neighbour with pairs to spare hands its nearest pair up to
    /// the node, which hands the pair between the two down to the child; the left neighbour
    /// is asked first. Where neither has a pair to spare, the child takes in the pair between
    /// it and a neighbour, and all that the neighbour holds.
    fn fix_on_child_removed(
        node: &mut Tree<K, V>,
        max_children_length: usize,
        child_index: usize,
        Ghost(depth): Ghost<nat>,
    )
        requires
            max_children_length >= 4,
            depth > 0,
            old(node).shaped(depth),
            old(node).pairs@.len() >= 1,
            child_index < old(node).children@.len(),
            old(node).children_filled_but(depth, max_children_length as nat, child_index as int),
        ensures
            final(node).shaped(depth),
            final(node).entries(depth) == old(node).entries(depth),
            final(node).children_filled_but(depth, max_children_length as nat, -1),
            old(node).pairs@.len() - 1 <= final(node).pairs@.len() <= old(node).pairs@.len(),
            old(node).children@[child_index as int].pairs@.len() >= max_children_length / 2 - 1
                ==> final(node).pairs@.len() == old(node).pairs@.len(),
    {
        let ghost n0 = **node;
        let ghost most = max_children_length as nat;
        let ghost d1 = (depth - 1) as nat;
        let ghost c = child_index as int;
        let min_pairs_len = max_children_length / 2 - 1;
        let children_len = node.children.len();
        assert(n0.children@[c].filled(d1, most, (most / 2 - 2) as nat));
        assert(n0.children@[c].shaped(d1));
        if node.children[child_index].pairs.len() >= min_pairs_len {
            proof {
                n0.children@[c].lemma_filled_least(
                    d1,
                    most,
                    (most / 2 - 2) as nat,
                    (most / 2 - 1) as nat,
                );
                assert forall|i: int| 0 <= i < n0.children@.len() implies (
                #[trigger] n0.children@[i]).filled(d1, most, (most / 2 - 1) as nat) by {
                    if i != c {
                        assert(n0.children@[i].filled(d1, most, (most / 2 - 1) as nat));
                    }
                }
            }
            return ;
        }
        let left_child_index = if child_index == 0 {
            None
        } else {
            let left_child_index = child_index - 1;
            assert(n0.children@[c - 1].filled(d1, most, (most / 2 - 1) as nat));
            assert(n0.children@[c - 1].shaped(d1));
            if node.children[left_child_index].pairs.len() > min_pairs_len {
                let mut temp = node.children[left_child_index].pairs.pop().unwrap();
                std::mem::swap(&mut temp, &mut node.pairs[left_child_index]);
                node.children[child_index].pairs.insert(0, temp);
                if let Some(left_child_right) = node.children[left_child_index].children.pop() {
                    node.children[child_index].children.insert(0, left_child_right);
                }
                proof {
                    n0.lemma_borrowed_left(**node, depth, most, c);
                }
                return ;
            }
            Some(left_child_index)
        };
        let right_child_index = child_index + 1;
        let right_child_index = if right_child_index >= children_len {
            None
        } else {
            assert(n0.children@[c + 1].filled(d1, most, (most / 2 - 1) as nat));
            assert(n0.children@[c + 1].shaped(d1));
            if node.children[right_child_index].pairs.len() > min_pairs_len {
                let mut temp = node.children[right_child_index].pairs.remove(0);
                std::mem::swap(&mut temp, &mut node.pairs[child_index]);
                node.children[child_index].pairs.push(temp);
                if node.children[right_child_index].children.len() > 0 {
                    let right_child_left = node.children[right_child_index].children.remove(0);
                    node.children[child_index].children.push(right_child_left);
                }
                proof {
                    n0.lemma_borrowed_right(**node, depth, most, c);
                }
                return ;
            }
            Some(right_child_index)
        };
        let merge_at = match (left_child_index, right_child_index) {
            (Some(left_child_index), Some(right_child_index)) => {
                if node.children[left_child_index].pairs.len()
                    < node.children[right_child_index].pairs.len() {
                    left_child_index
                } else {
                    child_index
                }
            },
            (None, Some(_)) => child_index,
            (Some(left_child_index), None) => left_child_index,
            (None, None) => {
                assert(false);
                child_index
            },
        };
        let pair_in_node = node.pairs.remove(merge_at);
        let mut merge_right = node.children.remove(merge_at + 1);
        node.children[merge_at].pairs.push(pair_in_node);
        node.children[merge_at].pairs.append(&mut merge_right.pairs);
        node.children[merge_at].children.append(&mut merge_right.children);
        proof {
            n0.lemma_merged(**node, depth, most, c, merge_at as int);
        }
    }

    /// What `fix_on_child_removed` does where the left neighbour has a pair to spare.
    proof fn lemma_borrowed_left(self, after: Self, depth: nat, most: nat, c: int)
        requires
            most >= 4,
            depth > 0,
            self.shaped(depth),
            1 <= c < self.children@.len(),
            self.children_filled_but(depth, most, c),
            self.children@[c].pairs@.len() < most / 2 - 1,
            self.children@[c - 1].pairs@.len() > most / 2 - 1,
            after.pairs@ == self.pairs@.update(c - 1, self.children@[c - 1].pairs@.last()),
            after.children@.len() == self.children@.len(),
            forall|i: int|
                0 <= i < self.children@.len() && i != c && i != c - 1 ==> after.children@[i]
                    == self.children@[i],
            after.children@[c - 1].pairs@ == self.children@[c - 1].pairs@.drop_last(),
            after.children@[c].pairs@ == self.children@[c].pairs@.insert(0, self.pairs@[c - 1]),
            depth > 1 ==> after.children@[c - 1].children@ == self.children@[c
                - 1].children@.drop_last() && after.children@[c].children@
                == self.children@[c].children@.insert(0, self.children@[c - 1].children@.last()),
            depth == 1 ==> after.children@[c - 1].children@.len() == 0
                && after.children@[c].children@.len() == 0,
        ensures
            after.shaped(depth),
            after.entries(depth) == self.entries(depth),
            after.children_filled_but(depth, most, -1),
    {
        let d1 = (depth - 1) as nat;
        let l = self.children@[c - 1];
        let l1 = after.children@[c - 1];
        let x = self.children@[c];
        let x1 = after.children@[c];
        let sep = self.pairs@[c - 1];
        assert(l.filled(d1, most, (most / 2 - 1) as nat));
        assert(x.filled(d1, most, (most / 2 - 2) as nat));
        l.lemma_filled_least(d1, most, (most / 2 - 1) as nat, (most / 2) as nat);
        l.lemma_child_less_last(*l1, d1, most);
        assert(l1.filled(d1, most, (most / 2 - 1) as nat));
        let z = l.children@.last();
        x.lemma_child_front(*x1, d1, most, sep, z);
        assert(x1.filled(d1, most, (most / 2 - 2 + 1) as nat));
        let zs = if d1 > 0 {
            z.entries((d1 - 1) as nat)
        } else {
            Seq::empty()
        };
        assert(l1.entries(d1) + seq![l.pairs@.last()] + x1.entries(d1) =~= l.entries(d1)
            + seq![sep] + x.entries(d1)) by {
            assert(l1.entries(d1) + seq![l.pairs@.last()] + (zs + seq![sep] + x.entries(d1)) =~= (
            l1.entries(d1) + seq![l.pairs@.last()] + zs) + seq![sep] + x.entries(d1));
        }
        self.lemma_two_children_changed(after, depth, c - 1);
        assert forall|i: int| 0 <= i < after.children@.len() implies (
        #[trigger] after.children@[i]).filled(d1, most, (most / 2 - 1) as nat) by {
            if i != c && i != c - 1 {
                assert(self.children@[i].filled(d1, most, (most / 2 - 1) as nat));
            }
        }
    }

    /// What `fix_on_child_removed` does where the right neighbour has a pair to spare.
    proof fn lemma_borrowed_right(self, after: Self, depth: nat, most: nat, c: int)
        requires
            most >= 4,
            depth > 0,
            self.shaped(depth),
            0 <= c < self.children@.len() - 1,
            self.children_filled_but(depth, most, c),
            self.children@[c].pairs@.len() < most / 2 - 1,
            self.children@[c + 1].pairs@.len() > most / 2 - 1,
            after.pairs@ == self.pairs@.update(c, self.children@[c + 1].pairs@[0]),
            after.children@.len() == self.children@.len(),
            forall|i: int|
                0 <= i < self.children@.len() && i != c && i != c + 1 ==> after.children@[i]
                    == self.children@[i],
            after.children@[c + 1].pairs@ == self.children@[c + 1].pairs@.skip(1),
            after.children@[c].pairs@ == self.children@[c].pairs@.push(self.pairs@[c]),
            depth > 1 ==> after.children@[c + 1].children@ == self.children@[c + 1].children@.skip(
                1,
            ) && after.children@[c].children@ == self.children@[c].children@.push(
                self.children@[c + 1].children@[0],
            ),
            depth == 1 ==> after.children@[c + 1].children@.len() == 0
                && after.children@[c].children@.len() == 0,
        ensures
            after.shaped(depth),
            after.entries(depth) == self.entries(depth),
            after.children_filled_but(depth, most, -1),
    {
        let d1 = (depth - 1) as nat;
        let r = self.children@[c + 1];
        let r1 = after.children@[c + 1];
        let x = self.children@[c];
        let x1 = after.children@[c];
        let sep = self.pairs@[c];
        assert(r.filled(d1, most, (most / 2 - 1) as nat));
        assert(x.filled(d1, most, (most / 2 - 2) as nat));
        r.lemma_filled_least(d1, most, (most / 2 - 1) as nat, (most / 2) as nat);
        r.lemma_child_less_first(*r1, d1, most);
        assert(r1.filled(d1, most, (most / 2 - 1) as nat));
        let z = r.children@[0];
        x.lemma_child_back(*x1, d1, most, sep, z);
        assert(x1.filled(d1, most, (most / 2 - 2 + 1) as nat));
        let zs = if d1 > 0 {
            z.entries((d1 - 1) as nat)
        } else {
            Seq::empty()
        };
        assert(x1.entries(d1) + seq![r.pairs@[0]] + r1.entries(d1) =~= x.entries(d1) + seq![sep]
            + r.entries(d1)) by {
            assert((x.entries(d1) + seq![sep] + zs) + seq![r.pairs@[0]] + r1.entries(d1)
                =~= x.entries(d1) + seq![sep] + (zs + seq![r.pairs@[0]] + r1.entries(d1)));
        }
        self.lemma_two_children_changed(after, depth, c);
        assert forall|i: int| 0 <= i < after.children@.len() implies (
        #[trigger] after.children@[i]).filled(d1, most, (most / 2 - 1) as nat) by {
            if i != c && i != c + 1 {
                assert(self.children@[i].filled(d1, most, (most / 2 - 1) as nat));
            }
        }
    }

    /// What `fix_on_child_removed` does where no neighbour has a pair to spare: the
    /// children at the places `at` and `at + 1`, one of which is the child at `c`, become one.
    proof fn lemma_merged(self, after: Self, depth: nat, most: nat, c: int, at: int)
        requires
            most >= 4,
            depth > 0,
            self.shaped(depth),
            0 <= at < self.pairs@.len(),
            c == at || c == at + 1,
            self.children_filled_but(depth, most, c),
            self.children@[c].pairs@.len() < most / 2 - 1,
            self.children@[at].pairs@.len() <= most / 2 - 1,
            self.children@[at + 1].pairs@.len() <= most / 2 - 1,
            after.pairs@ == self.pairs@.remove(at),
            after.children@.len() == self.children@.len() - 1,
            forall|i: int| 0 <= i < at ==> after.children@[i] == self.children@[i],
            forall|i: int|
                at < i < after.children@.len() ==> after.children@[i] == self.children@[i + 1],
            after.children@[at].pairs@ == self.children@[at].pairs@.push(self.pairs@[at])
                + self.children@[at + 1].pairs@,
            after.children@[at].children@ == self.children@[at].children@ + self.children@[at
                + 1].children@,
        ensures
            after.shaped(depth),
            after.entries(depth) == self.entries(depth),
            after.children_filled_but(depth, most, -1),
    {
        let d1 = (depth - 1) as nat;
        let l = self.children@[at];
        let r = self.children@[at + 1];
        let m = after.children@[at];
        let least_l: nat = if c == at {
            (most / 2 - 2) as nat
        } else {
            (most / 2 - 1) as nat
        };
        let least_r: nat = if c == at + 1 {
            (most / 2 - 2) as nat
        } else {
            (most / 2 - 1) as nat
        };
        assert(l.filled(d1, most, least_l));
        assert(r.filled(d1, most, least_r));
        l.lemma_child_merged(*r, *m, d1, most, self.pairs@[at]);
        assert(m.filled(d1, most, least_l + least_r + 1));
        m.lemma_filled_least(d1, most, least_l + least_r + 1, (most / 2 - 1) as nat);
        self.lemma_two_children_merged(after, depth, at);
        assert forall|i: int| 0 <= i < after.children@.len() implies (
        #[trigger] after.children@[i]).filled(d1, most, (most / 2 - 1) as nat) by {
            if i < at {
                assert(self.children@[i].filled(d1, most, (most / 2 - 1) as nat));
            } else if i > at {
                assert(self.children@[i + 1].filled(d1, most, (most / 2 - 1) as nat));
            }
        }
    }
}

impl<K: Ord, V> Node<K, V> {
    /// A node that is filled and whose children are all filled again after one of them lost
    /// a pair.
    proof fn lemma_refilled(self, depth: nat, most: nat, least: nat)
        requires
            depth > 0,
            least <= self.pairs@.len() < most,
            self.children_filled_but(depth, most, -1),
        ensures
            self.filled(depth, most, least),
    {
        assert forall|i: int| 0 <= i < self.children@.len() implies (
        #[trigger] self.children@[i]).filled(
            (depth - 1) as nat,
            most,
            (most / 2 - 1) as nat,
        ) by {}
    }

    /// A node whose child at the place `at` has changed, and holds at most one pair less
    /// than it should.
    proof fn lemma_child_changed(self, after: Self, depth: nat, most: nat, least: nat, at: int)
        requires
            most >= 4,
            depth > 0,
            self.shaped(depth),
            self.filled(depth, most, least),
            0 <= at < self.children@.len(),
            after.pairs@.len() == self.pairs@.len(),
            after.children@ == self.children@.update(at, after.children@[at]),
            after.children@[at].shaped((depth - 1) as nat),
            after.children@[at].filled((depth - 1) as nat, most, (most / 2 - 2) as nat),
        ensures
            after.shaped(depth),
            after.children_filled_but(depth, most, at),
            after.kids(depth) == self.kids(depth).update(
                at,
                after.children@[at].entries((depth - 1) as nat),
            ),
    {
        let d1 = (depth - 1) as nat;
        assert forall|i: int| 0 <= i < after.children@.len() implies (
        #[trigger] after.children@[i]).shaped(d1) && after.children@[i].filled(
            d1,
            most,
            if i == at {
                (most / 2 - 2) as nat
            } else {
                (most / 2 - 1) as nat
            },
        ) by {
            if i != at {
                assert(after.children@[i] == self.children@[i]);
            }
        }
        assert(after.kids(depth) =~= self.kids(depth).update(at, after.children@[at].entries(d1))) by {
            assert forall|i: int| 0 <= i < self.kids(depth).len() && i != at implies after.kids(
                depth,
            )[i] == self.kids(depth)[i] by {
                assert(after.children@[i] == self.children@[i]);
            }
        }
    }

    /// Takes the pair with the greatest key out of the subtree of `node`.
    fn remove_right_most_r(
        node: &mut Tree<K, V>,
        max_children_length: usize,
        Ghost(depth): Ghost<nat>,
        Ghost(least): Ghost<nat>,
    ) -> (removed: Pair<K, V>)
        requires
            max_children_length >= 4,
            least >= 1,
            old(node).shaped(depth),
            old(node).filled(depth, max_children_length as nat, least),
        ensures
            final(node).shaped(depth),
            final(node).filled(depth, max_children_length as nat, (least - 1) as nat),
            old(node).entries(depth) == final(node).entries(depth).push(removed),
        decreases depth,
    {
        let ghost n0 = **node;
        let ghost most = max_children_length as nat;
        if node.children.len() == 0 {
            let removed = node.pairs.pop().unwrap();
            proof {
                n0.lemma_leaf();
                node.lemma_leaf();
                assert(n0.pairs@ =~= node.pairs@.push(removed));
            }
            removed
        } else {
            let last = node.children.len() - 1;
            let ghost d1 = (depth - 1) as nat;
            proof {
                n0.lemma_kids(depth);
                assert(n0.children@[last as int].shaped(d1));
                assert(n0.children@[last as int].filled(d1, most, (most / 2 - 1) as nat));
            }
            let removed = Self::remove_right_most_r(
                &mut node.children[last],
                max_children_length,
                Ghost(d1),
                Ghost((max_children_length / 2 - 1) as nat),
            );
            let ghost n1 = **node;
            proof {
                assert(n1.children@ =~= n0.children@.update(last as int, n1.children@[last as int]));
                n0.lemma_child_changed(n1, depth, most, least, last as int);
                let ps = n0.pairs@;
                let ks = n0.kids(depth);
                let x1 = n1.children@[last as int].entries(d1);
                lemma_interleave_around(ps, ks, last as int);
                lemma_interleave_changed(ps, ks, last as int, x1);
                assert(behind(ps, ks, last as int) =~= Seq::<(K, V)>::empty());
                assert(n0.entries(depth) =~= n1.entries(depth).push(removed));
            }
            Self::fix_on_child_removed(node, max_children_length, last, Ghost(depth));
            proof {
                node.lemma_refilled(depth, most, (least - 1) as nat);
            }
            removed
        }
    }

    /// A node above the leaves from whose child before the pair at the place `found` the
    /// last entry has been taken, to stand in place of that pair.
    proof fn lemma_pair_replaced(
        self,
        after: Self,
        depth: nat,
        most: nat,
        least: nat,
        found: int,
        key: K,
        value: V,
        last: (K, V),
    )
        requires
            most >= 4,
            depth > 0,
            self.shaped(depth),
            self.filled(depth, most, least),
            0 <= found < self.pairs@.len(),
            self.pairs@[found] == (key, value),
            after.pairs@ == self.pairs@.update(found, last),
            after.children@ == self.children@.update(found, after.children@[found]),
            after.children@[found].shaped((depth - 1) as nat),
            after.children@[found].filled((depth - 1) as nat, most, (most / 2 - 2) as nat),
            self.children@[found].entries((depth - 1) as nat) == after.children@[found].entries(
                (depth - 1) as nat,
            ).push(last),
        ensures
            after.shaped(depth),
            after.children_filled_but(depth, most, found),
            removed(
                self.entries(depth),
                after.entries(depth),
                self.around_pair(depth, found).0,
                self.around_pair(depth, found).1,
                key,
                value,
            ),
    {
        let d1 = (depth - 1) as nat;
        let ps = self.pairs@;
        let ks = self.kids(depth);
        let qs = after.pairs@;
        let ds = after.kids(depth);
        self.lemma_child_changed(after, depth, most, least, found);
        self.lemma_kids(depth);
        let x = ks[found];
        let x1 = ds[found];
        lemma_interleave_cut(ps, ks, found);
        lemma_interleave_cut(qs, ds, found);
        assert(qs.skip(found + 1) =~= ps.skip(found + 1));
        assert(ds.skip(found + 1) =~= ks.skip(found + 1));
        let ps0 = ps.take(found);
        let ks0 = ks.take(found + 1);
        let ds0 = ds.take(found + 1);
        assert(qs.take(found) =~= ps0);
        lemma_interleave_around(ps0, ks0, found);
        lemma_interleave_around(ps0, ds0, found);
        lemma_before_same(ps0, ks0, ps0, ds0, found);
        assert(ks0[found] == x);
        assert(ds0[found] == x1);
        let front = before(ps0, ks0, found);
        assert(behind(ps0, ks0, found) =~= Seq::<(K, V)>::empty());
        assert(behind(ps0, ds0, found) =~= Seq::<(K, V)>::empty());
        let rest = interleave(ps.skip(found + 1), ks.skip(found + 1));
        assert((front + x1) + seq![last] + rest =~= (front + x) + rest);
        assert(interleave(ps0, ks0) =~= front + x);
        assert(interleave(ps0, ds0) =~= front + x1);
    }

    /// A node whose child at the place `at` has lost the pair of a key that is not among
    /// the pairs of the node, or does not hold that key.
    proof fn lemma_child_shrunk(
        self,
        after: Self,
        depth: nat,
        most: nat,
        least: nat,
        at: int,
        key: K,
        gone: Option<V>,
        a: Seq<(K, V)>,
        b: Seq<(K, V)>,
    )
        requires
            total_order::<K>(),
            most >= 4,
            depth > 0,
            self.shaped(depth),
            self.filled(depth, most, least),
            ascending(self.entries(depth)),
            0 <= at <= self.pairs@.len(),
            forall|j: int| 0 <= j < at ==> lt((#[trigger] self.pairs@[j]).0, key),
            forall|j: int| at <= j < self.pairs@.len() ==> lt(key, (#[trigger] self.pairs@[j]).0),
            after.pairs@ == self.pairs@,
            after.children@ == self.children@.update(at, after.children@[at]),
            after.children@[at].shaped((depth - 1) as nat),
            after.children@[at].filled((depth - 1) as nat, most, (most / 2 - 2) as nat),
            match gone {
                Some(value) => removed(
                    self.children@[at].entries((depth - 1) as nat),
                    after.children@[at].entries((depth - 1) as nat),
                    a,
                    b,
                    key,
                    value,
                ),
                None => after.children@[at].entries((depth - 1) as nat)
                    == self.children@[at].entries((depth - 1) as nat) && absent(
                    self.children@[at].entries((depth - 1) as nat),
                    a,
                    b,
                    key,
                ),
            },
        ensures
            after.shaped(depth),
            after.children_filled_but(depth, most, at),
            match gone {
                Some(value) => removed(
                    self.entries(depth),
                    after.entries(depth),
                    self.around_child(depth, at).0 + a,
                    b + self.around_child(depth, at).1,
                    key,
                    value,
                ),
                None => after.entries(depth) == self.entries(depth) && absent(
                    self.entries(depth),
                    self.around_child(depth, at).0 + a,
                    b + self.around_child(depth, at).1,
                    key,
                ),
            },
    {
        let d1 = (depth - 1) as nat;
        let ps = self.pairs@;
        let ks = self.kids(depth);
        let bf = before(ps, ks, at);
        let bh = behind(ps, ks, at);
        self.lemma_child_changed(after, depth, most, least, at);
        self.lemma_around_child(depth, at, key);
        self.lemma_kids(depth);
        let x1 = after.children@[at].entries(d1);
        lemma_interleave_changed(ps, ks, at, x1);
        match gone {
            Some(value) => {
                lemma_removed_within(ks[at], x1, a, b, key, value, bf, bh);
            },
            None => {
                lemma_absent_within(ks[at], a, b, key, bf, bh);
            },
        }
    }

    /// Takes the pair of `key` out of the subtree of `node` and returns its value, if `key`
    /// is there. Also returns, for the proof, the entries before and behind the key.
    fn remove_r(
        node: &mut Tree<K, V>,
        max_children_length: usize,
        key: &K,
        Ghost(depth): Ghost<nat>,
        Ghost(least): Ghost<nat>,
    ) -> (r: (Option<V>, Ghost<Seq<(K, V)>>, Ghost<Seq<(K, V)>>))
        requires
            total_order::<K>(),
            max_children_length >= 4,
            least >= 1,
            old(node).shaped(depth),
            old(node).filled(depth, max_children_length as nat, least),
            ascending(old(node).entries(depth)),
        ensures
            final(node).shaped(depth),
            final(node).filled(depth, max_children_length as nat, (least - 1) as nat),
            match r.0 {
                Some(value) => removed(
                    old(node).entries(depth),
                    final(node).entries(depth),
                    r.1@,
                    r.2@,
                    *key,
                    value,
                ),
                None => final(node).filled(depth, max_children_length as nat, least)
                    && final(node).entries(depth) == old(node).entries(depth) && absent(
                    old(node).entries(depth),
                    r.1@,
                    r.2@,
                    *key,
                ),
            },
        decreases depth,
    {
        let ghost n0 = **node;
        let ghost most = max_children_length as nat;
        let ghost d1 = (depth - 1) as nat;
        proof {
            n0.lemma_node_pairs(depth);
        }
        match Self::search(&node.pairs, key) {
            Ok(found) => {
                if node.children.len() == 0 {
                    let pair = node.pairs.remove(found);
                    proof {
                        n0.lemma_leaf();
                        node.lemma_leaf();
                        let ps = n0.pairs@;
                        assert(ps =~= ps.take(found as int) + seq![(*key, pair.1)] + ps.skip(
                            found + 1,
                        ));
                        assert(node.pairs@ =~= ps.take(found as int) + ps.skip(found + 1));
                    }
                    (
                        Some(pair.1),
                        Ghost(n0.pairs@.take(found as int)),
                        Ghost(n0.pairs@.skip(found + 1)),
                    )
                } else {
                    proof {
                        assert(n0.children@[found as int].shaped(d1));
                        assert(n0.children@[found as int].filled(d1, most, (most / 2 - 1) as nat));
                    }
                    let mut pre = Self::remove_right_most_r(
                        &mut node.children[found],
                        max_children_length,
                        Ghost(d1),
                        Ghost((max_children_length / 2 - 1) as nat),
                    );
                    let ghost last = pre;
                    std::mem::swap(&mut pre, &mut node.pairs[found]);
                    proof {
                        let n1 = **node;
                        assert(n1.children@ =~= n0.children@.update(
                            found as int,
                            n1.children@[found as int],
                        ));
                        n0.lemma_pair_replaced(
                            n1,
                            depth,
                            most,
                            least,
                            found as int,
                            *key,
                            pre.1,
                            last,
                        );
                    }
                    Self::fix_on_child_removed(node, max_children_length, found, Ghost(depth));
                    proof {
                        node.lemma_refilled(depth, most, (least - 1) as nat);
                    }
                    (
                        Some(pre.1),
                        Ghost(n0.around_pair(depth, found as int).0),
                        Ghost(n0.around_pair(depth, found as int).1),
                    )
                }
            },
            Err(to_insert) => {
                if node.children.len() == 0 {
                    proof {
                        n0.lemma_leaf();
                        let ps = n0.pairs@;
                        assert(ps =~= ps.take(to_insert as int) + ps.skip(to_insert as int));
                    }
                    (
                        None,
                        Ghost(n0.pairs@.take(to_insert as int)),
                        Ghost(n0.pairs@.skip(to_insert as int)),
                    )
                } else {
                    proof {
                        n0.lemma_around_child(depth, to_insert as int, *key);
                        n0.lemma_kids(depth);
                        assert(n0.children@[to_insert as int].shaped(d1));
                        assert(n0.children@[to_insert as int].filled(
                            d1,
                            most,
                            (most / 2 - 1) as nat,
                        ));
                    }
                    let r = Self::remove_r(
                        &mut node.children[to_insert],
                        max_children_length,
                        key,
                        Ghost(d1),
                        Ghost((max_children_length / 2 - 1) as nat),
                    );
                    proof {
                        let n1 = **node;
                        assert(n1.children@ =~= n0.children@.update(
                            to_insert as int,
                            n1.children@[to_insert as int],
                        ));
                        n0.lemma_child_shrunk(
                            n1,
                            depth,
                            most,
                            least,
                            to_insert as int,
                            *key,
                            r.0,
                            r.1@,
                            r.2@,
                        );
                    }
                    let ghost n1 = **node;
                    Self::fix_on_child_removed(
                        node,
                        max_children_length,
                        to_insert,
                        Ghost(depth),
                    );
                    proof {
                        node.lemma_refilled(depth, most, (least - 1) as nat);
                        if r.0 is None {
                            assert(n1.children@[to_insert as int].filled(
                                d1,
                                most,
                                (most / 2 - 1) as nat,
                            ));
                            node.lemma_refilled(depth, most, least);
                        }
                    }
                    (
                        r.0,
                        Ghost(n0.around_child(depth, to_insert as int).0 + r.1@),
                        Ghost(r.2@ + n0.around_child(depth, to_insert as int).1),
                    )
                }
            },
        }
    }
}

impl<K: Ord, V> BTree<K, V> {
    /// Removes `key` and returns the value that it had, if any.
    pub fn remove(&mut self, key: &K) -> (gone: Option<V>)
        requires
            total_order::<K>(),
            old(self).well_formed(),
        ensures
            final(self).well_formed(),
            final(self).order() == old(self).order(),
            final(self)@ == old(self)@.remove(*key),
            gone == lookup(old(self)@, *key),
            final(self)@.len() + count_of(old(self)@, *key) == old(self)@.len(),
    {
        let ghost e0 = self.entries();
        proof {
            self.lemma_entries();
        }
        let ghost depth = self.depth@;
        let ghost most = self.max_children_length as nat;
        match self.root.take() {
            None => {
                assert(self@ =~= old(self)@.remove(*key));
                None
            },
            Some(mut root) => {
                let ghost r0 = *root;
                let r = Node::remove_r(
                    &mut root,
                    self.max_children_length,
                    key,
                    Ghost(depth),
                    Ghost(1nat),
                );
                let ghost r1 = *root;
                let ghost taken = r.0;
                proof {
                    r1.lemma_entries_least(depth, most);
                    match taken {
                        Some(value) => {
                            lemma_removed(e0, r1.entries(depth), r.1@, r.2@, *key, value);
                        },
                        None => {
                            lemma_absent(r.1@, r.2@, *key);
                        },
                    }
                }
                if r.0.is_some() {
                    self.length -= 1;
                    if root.pairs.len() == 0 {
                        let below = root.children.pop();
                        proof {
                            if depth == 0 {
                                r1.lemma_leaf();
                            } else {
                                r1.lemma_kids(depth);
                                let child = r1.children@[0];
                                assert(child.filled(
                                    (depth - 1) as nat,
                                    most,
                                    (most / 2 - 1) as nat,
                                ));
                                assert(r1.entries(depth) == child.entries((depth - 1) as nat));
                                child.lemma_entries_least((depth - 1) as nat, most);
                                child.lemma_filled_least(
                                    (depth - 1) as nat,
                                    most,
                                    (most / 2 - 1) as nat,
                                    1,
                                );
                            }
                        }
                        self.root = below;
                        self.depth = Ghost((depth - 1) as nat);
                    } else {
                        proof {
                            r1.lemma_filled_least(depth, most, 0, 1);
                        }
                        self.root = Some(root);
                    }
                } else {

                    self.root = Some(root);
                }
                r.0
            },
        }
    }
}

impl<K: Ord, V> Node<K, V> {
    /// A subtree holds at least one entry for each of its levels.
    proof fn lemma_depth(self, depth: nat, most: nat)
        requires
            most >= 4,
            self.shaped(depth),
            self.filled(depth, most, 1),
        ensures
            self.entries(depth).len() >= depth + 1,
        decreases depth,
    {
        lemma_interleave_first(self.pairs@, self.kids(depth));
        if depth > 0 {
            self.lemma_kids(depth);
            let child = self.children@[0];
            assert(child.filled((depth - 1) as nat, most, (most / 2 - 1) as nat));
            child.lemma_filled_least((depth - 1) as nat, most, (most / 2 - 1) as nat, 1);
            child.lemma_depth((depth - 1) as nat, most);
        }
    }

    /// No leaf stands more than `height` levels below the node.
    pub closed spec fn no_taller(self, height: nat) -> bool
        decreases height,
    {
        self.children@.len() > 0 ==> height > 0 && forall|i: int|
            0 <= i < self.children@.len() ==> (#[trigger] self.children@[i]).no_taller(
                (height - 1) as nat,
            )
    }

    /// The least number of children that a node above the leaves may have at `level`: two
    /// at the root, elsewhere half of `most`.
    pub open spec fn least_children(most: nat, level: nat) -> nat {
        if level > 0 {
            most / 2
        } else {
            2
        }
    }

    /// The level at which the leaves below the node stand, where the node stands at
    /// `level` and no leaf more than `height` levels below it: none unless every node above
    /// the leaves has no more than `most` children and no less than `least_children`, and all
    /// leaves stand at one level.
    pub closed spec fn leaves_level(self, most: nat, level: nat, height: nat) -> Option<nat>
        decreases height,
    {
        if self.children@.len() == 0 {
            Some(level)
        } else if height == 0 || self.children@.len() > most || self.children@.len()
            < Self::least_children(most, level) {
            None
        } else {
            let first = self.children@[0].leaves_level(most, level + 1, (height - 1) as nat);
            if first is Some && forall|i: int|
                0 <= i < self.children@.len() ==> (#[trigger] self.children@[i]).leaves_level(
                    most,
                    level + 1,
                    (height - 1) as nat,
                ) == first {
                first
            } else {
                None
            }
        }
    }

    /// The leaves stand no deeper than the height allows.
    proof fn lemma_leaves_level(self, most: nat, level: nat, height: nat)
        ensures
            self.leaves_level(most, level, height) matches Some(found) ==> level <= found <= level
                + height,
        decreases height,
    {
        if self.children@.len() > 0 && height > 0 {
            self.children@[0].lemma_leaves_level(most, level + 1, (height - 1) as nat);
        }
    }

    /// A subtree with all its leaves `depth` levels below its root, and as full as the
    /// nodes at its level must be, has its leaves at one level and no node with too many or
    /// too few children.
    proof fn lemma_filled_level(self, depth: nat, most: nat, level: nat)
        requires
            most >= 4,
            self.shaped(depth),
            self.filled(
                depth,
                most,
                if level > 0 {
                    (most / 2 - 1) as nat
                } else {
                    1
                },
            ),
        ensures
            self.no_taller(depth),
            self.leaves_level(most, level, depth) == Some(level + depth),
        decreases depth,
    {
        if depth > 0 {
            let d1 = (depth - 1) as nat;
            assert forall|i: int| 0 <= i < self.children@.len() implies (
            #[trigger] self.children@[i]).no_taller(d1) && self.children@[i].leaves_level(
                most,
                level + 1,
                d1,
            ) == Some(level + depth) by {
                assert(self.children@[i].shaped(d1));
                assert(self.children@[i].filled(d1, most, (most / 2 - 1) as nat));
                self.children@[i].lemma_filled_level(d1, most, level + 1);
            }
            assert(self.children@[0].leaves_level(most, level + 1, d1) == Some(level + depth));
        }
    }

    /// Checks that a node above the leaves has no more than `max_children_length` children
    /// and no less than half as many, or two at the root, and that all leaves below a node
    /// stand at the same level: that level, or an error.
    fn validate(
        node: &Tree<K, V>,
        max_children_length: usize,
        node_level: usize,
        Ghost(height): Ghost<nat>,
    ) -> (level: Result<usize, ()>)
        requires
            node.no_taller(height),
            node_level + height <= usize::MAX,
        ensures
            match node.leaves_level(max_children_length as nat, node_level as nat, height) {
                Some(found) => level == Ok::<usize, ()>(found as usize) && found <= node_level
                    + height,
                None => level is Err,
            },
        decreases height,
    {
        let ghost most = max_children_length as nat;
        proof {
            node.lemma_leaves_level(most, node_level as nat, height);
        }
        if node.children.len() > 0 {
            let ghost below = (height - 1) as nat;
            if node.children.len() > max_children_length {
                return Err(());
            }
            let min_children_len = if node_level > 0 {
                max_children_length / 2
            } else {
                2
            };
            if node.children.len() < min_children_len {
                return Err(());
            }
            let next_level = node_level + 1;
            assert(node.children@[0].no_taller(below));
            let child_level = match Self::validate(
                &node.children[0],
                max_children_length,
                next_level,
                Ghost(below),
            ) {
                Ok(child_level) => child_level,
                Err(_) => {
                    return Err(());
                },
            };
            let ghost first = node.children@[0].leaves_level(most, next_level as nat, below);
            let mut i: usize = 1;
            while i < node.children.len()
                invariant
                    1 <= i <= node.children@.len(),
                    height > 0,
                    below == height - 1,
                    most == max_children_length,
                    node.no_taller(height),
                    next_level == node_level + 1,
                    node_level + height <= usize::MAX,
                    first == node.children@[0].leaves_level(most, next_level as nat, below),
                    first == Some(child_level as nat),
                    forall|j: int|
                        0 <= j < i ==> (#[trigger] node.children@[j]).leaves_level(
                            most,
                            next_level as nat,
                            below,
                        ) == first,
                decreases node.children@.len() - i,
            {
                assert(node.children@[i as int].no_taller(below));
                match Self::validate(
                    &node.children[i],
                    max_children_length,
                    next_level,
                    Ghost(below),
                ) {
                    Ok(level) => {
                        if level != child_level {
                            assert(node.children@[i as int].leaves_level(
                                most,
                                next_level as nat,
                                below,
                            ) != first);
                            return Err(());
                        }
                    },
                    Err(_) => {
                        assert(node.children@[i as int].leaves_level(
                            most,
                            next_level as nat,
                            below,
                        ) != first);
                        return Err(());
                    },
                }
                i += 1;
            }
            Ok(child_level)
        } else {
            Ok(node_level)
        }
    }
}

impl<K: Ord, V> BTree<K, V> {
    /// No leaf stands deeper below the root than the depth that the tree keeps account of,
    /// which a `usize` can hold. A well-formed tree is such a tree.
    pub closed spec fn of_known_depth(&self) -> bool {
        match self.root {
            None => true,
            Some(root) => root.no_taller(self.depth@) && self.depth@ <= usize::MAX,
        }
    }

    /// What `is_valid` checks: every node above the leaves has no more children than the
    /// order allows and no less than half as many, or two at the root, and all leaves stand
    /// at the same level. An empty tree is valid.
    pub closed spec fn valid(&self) -> bool {
        match self.root {
            None => true,
            Some(root) => root.leaves_level(self.max_children_length as nat, 0, self.depth@)
                is Some,
        }
    }

    /// A well-formed tree is valid.
    pub proof fn lemma_valid(&self)
        requires
            self.well_formed(),
        ensures
            self.of_known_depth(),
            self.valid(),
    {
        if let Some(root) = self.root {
            root.lemma_depth(self.depth@, self.max_children_length as nat);
            root.lemma_filled_level(self.depth@, self.max_children_length as nat, 0);
        }
    }

    /// Checks the numbers of children and the levels of the leaves over the whole tree.
    pub fn is_valid(&self) -> (valid: bool)
        requires
            self.of_known_depth(),
        ensures
            valid == self.valid(),
    {
        match self.root.as_ref() {
            None => true,
            Some(root) => Node::validate(
                root,
                self.max_children_length,
                0,
                Ghost(self.depth@),
            ).is_ok(),
        }
    }

    /// A walk over the pairs of the tree in ascending order of their keys.
    pub fn iter(&self) -> (walk: Iter<'_, K, V>)
        requires
            self.well_formed(),
        ensures
            walk.well_formed(),
            walk@ == self.entries(),
    {
        Iter { b_tree: self, remain_len: self.length, stack: Vec::new() }
    }
}

/// A walk over the pairs of a tree in ascending order of their keys. It holds the nodes
/// from the root down to the one that the next pair stands in, each with the place of its
/// own next pair.
pub struct Iter<'t, K: Ord, V> {
    b_tree: &'t BTree<K, V>,
    remain_len: usize,
    stack: Vec<(&'t Tree<K, V>, usize)>,
}

impl<'t, K: Ord, V> View for Iter<'t, K, V> {
    type V = Seq<(K, V)>;

    /// The pairs still to come, in the order in which they come.
    closed spec fn view(&self) -> Seq<(K, V)> {
        if self.stack@.len() == 0 {
            if self.remain_len == 0 {
                Seq::empty()
            } else {
                self.b_tree.entries()
            }
        } else {
            Self::pending(self.stack@, self.top_depth())
        }
    }
}

impl<'t, K: Ord, V> Iter<'t, K, V> {
    /// The pairs still to come from the nodes of `stack`, the last of which stands
    /// `top_depth` levels above the leaves and each other one a level higher than the
    /// next: from each node, its pairs from its own place on, with what hangs behind them.
    pub closed spec fn pending(stack: Seq<(&Tree<K, V>, usize)>, top_depth: nat) -> Seq<(K, V)>
        decreases stack.len(),
    {
        if stack.len() == 0 {
            Seq::empty()
        } else {
            let (node, at) = stack.last();
            behind(node.pairs@, node.kids(top_depth), at as int) + Self::pending(
                stack.drop_last(),
                top_depth + 1,
            )
        }
    }

    /// Each node of `stack` has the shape and the fill of a node of its level, and its place
    /// is one of its pairs or the end of them.
    pub closed spec fn frames(stack: Seq<(&Tree<K, V>, usize)>, top_depth: nat, most: nat) -> bool
        decreases stack.len(),
    {
        if stack.len() == 0 {
            true
        } else {
            let (node, at) = stack.last();
            &&& node.shaped(top_depth)
            &&& node.filled(top_depth, most, 1)
            &&& at <= node.pairs@.len()
            &&& Self::frames(stack.drop_last(), top_depth + 1, most)
        }
    }

    /// The number of levels between the last node of the stack and the leaves.
    pub closed spec fn top_depth(&self) -> nat {
        (self.b_tree.depth@ + 1 - self.stack@.len()) as nat
    }

    /// The walk belongs to a well-formed tree, counts the pairs that are left, and stands
    /// at a pair unless it is over or has not begun.
    pub closed spec fn well_formed(&self) -> bool {
        &&& self.b_tree.well_formed()
        &&& self.remain_len == self@.len()
        &&& self.stack@.len() <= self.b_tree.depth@ + 1
        &&& Self::frames(self.stack@, self.top_depth(), self.b_tree.max_children_length as nat)
        &&& (self.stack@.len() > 0 ==> self.stack@.last().1 < self.stack@.last().0.pairs@.len())
        &&& (self.stack@.len() == 0 && self.remain_len > 0 ==> self.remain_len
            == self.b_tree.length)
    }

    /// Puts `node` on the stack, and below it its first child, and so on down to a leaf;
    /// each stands at its first pair.
    fn push_node(&mut self, node: &'t Tree<K, V>, Ghost(depth): Ghost<nat>)
        requires
            old(self).b_tree.max_children_length >= 4,
            node.shaped(depth),
            node.filled(depth, old(self).b_tree.max_children_length as nat, 1),
            Self::frames(
                old(self).stack@,
                depth + 1,
                old(self).b_tree.max_children_length as nat,
            ),
        ensures
            final(self).b_tree == old(self).b_tree,
            final(self).remain_len == old(self).remain_len,
            final(self).stack@.len() == old(self).stack@.len() + depth + 1,
            Self::frames(final(self).stack@, 0, old(self).b_tree.max_children_length as nat),
            final(self).stack@.last().1 < final(self).stack@.last().0.pairs@.len(),
            Self::pending(final(self).stack@, 0) == node.entries(depth) + Self::pending(
                old(self).stack@,
                depth + 1,
            ),
    {
        let ghost most = self.b_tree.max_children_length as nat;
        let ghost start = self.stack@;
        self.stack.push((node, 0));
        proof {
            assert(self.stack@.drop_last() =~= start);
            node.lemma_kids_or_leaf(depth);
            lemma_interleave_around(node.pairs@, node.kids(depth), 0);
        }
        let mut left: &'t Tree<K, V> = node;
        let ghost mut level = depth;
        while left.children.len() > 0
            invariant
                most >= 4,
                most == self.b_tree.max_children_length,
                self.b_tree == old(self).b_tree,
                self.remain_len == old(self).remain_len,
                level <= depth,
                left.shaped(level),
                left.filled(level, most, 1),
                self.stack@.len() == start.len() + (depth - level) + 1,
                self.stack@.last() == (left, 0usize),
                Self::frames(self.stack@, level, most),
                left.kids(level)[0] + Self::pending(self.stack@, level) == node.entries(depth)
                    + Self::pending(start, depth + 1),
            decreases level,
        {
            let ghost above = left;
            let ghost before_push = self.stack@;
            let child: &'t Tree<K, V> = &left.children[0];
            proof {
                above.lemma_kids(level);
                assert(child.filled((level - 1) as nat, most, (most / 2 - 1) as nat));
                child.lemma_filled_least((level - 1) as nat, most, (most / 2 - 1) as nat, 1);
                child.lemma_kids_or_leaf((level - 1) as nat);
                lemma_interleave_around(child.pairs@, child.kids((level - 1) as nat), 0);
            }
            left = child;
            self.stack.push((left, 0));
            proof {
                assert(self.stack@.drop_last() =~= before_push);
                level = (level - 1) as nat;
                assert(left.kids(level)[0] + Self::pending(self.stack@, level) =~= above.kids(
                    level + 1,
                )[0] + Self::pending(before_push, level + 1));
            }
        }
        proof {
            assert(level == 0);
            left.lemma_leaf();
            assert(left.kids(0)[0] =~= Seq::<(K, V)>::empty());
            assert(left.kids(level)[0] + Self::pending(self.stack@, level) =~= Self::pending(
                self.stack@,
                0,
            ));
        }
    }

    /// Takes the last node off the stack, and then every node that has no pair left.
    fn pop_node(&mut self)
        requires
            old(self).stack@.len() > 0,
            old(self).stack@.len() <= old(self).b_tree.depth@ + 1,
            old(self).stack@.last().1 == old(self).stack@.last().0.pairs@.len(),
            Self::frames(
                old(self).stack@,
                old(self).top_depth(),
                old(self).b_tree.max_children_length as nat,
            ),
        ensures
            final(self).b_tree == old(self).b_tree,
            final(self).remain_len == old(self).remain_len,
            final(self).stack@.len() < old(self).stack@.len(),
            Self::frames(
                final(self).stack@,
                final(self).top_depth(),
                old(self).b_tree.max_children_length as nat,
            ),
            final(self).stack@.len() > 0 ==> final(self).stack@.last().1
                < final(self).stack@.last().0.pairs@.len(),
            Self::pending(final(self).stack@, final(self).top_depth()) == Self::pending(
                old(self).stack@,
                old(self).top_depth(),
            ),
    {
        let ghost most = self.b_tree.max_children_length as nat;
        let ghost whole = Self::pending(self.stack@, self.top_depth());
        let ghost first = self.stack@;
        self.stack.pop();
        proof {
            assert(self.stack@ =~= first.drop_last());
            assert(behind(
                first.last().0.pairs@,
                first.last().0.kids(old(self).top_depth()),
                first.last().1 as int,
            ) =~= Seq::<(K, V)>::empty());
            assert(whole =~= Self::pending(self.stack@, self.top_depth()));
        }
        while self.stack.len() > 0
            invariant
                self.b_tree == old(self).b_tree,
                self.remain_len == old(self).remain_len,
                most == self.b_tree.max_children_length,
                self.stack@.len() < old(self).stack@.len() <= self.b_tree.depth@ + 1,
                Self::frames(self.stack@, self.top_depth(), most),
                Self::pending(self.stack@, self.top_depth()) == whole,
            ensures
                self.stack@.len() > 0 ==> self.stack@.last().1 < self.stack@.last().0.pairs@.len(),
            decreases self.stack@.len(),
        {
            let last = self.stack.len() - 1;
            let (top_node, pair_index_in_top_node) = self.stack[last];
            if pair_index_in_top_node < top_node.pairs.len() {
                break ;
            } else {
                let ghost before_pop = self.stack@;
                let ghost d = self.top_depth();
                self.stack.pop();
                proof {
                    assert(self.stack@ =~= before_pop.drop_last());
                    assert(behind(top_node.pairs@, top_node.kids(d), pair_index_in_top_node as int)
                        =~= Seq::<(K, V)>::empty());
                    assert(whole =~= Self::pending(self.stack@, self.top_depth()));
                }
            }
        }
    }

    /// Hands out the pair at which the walk stands, and moves on: down to the first pair
    /// below the child behind that pair, or else to the next pair of the node, or else up
    /// to the first node that has a pair left.
    fn step(&mut self) -> (item: &'t Pair<K, V>)
        requires
            old(self).b_tree.max_children_length >= 4,
            0 < old(self).stack@.len() <= old(self).b_tree.depth@ + 1,
            Self::frames(
                old(self).stack@,
                old(self).top_depth(),
                old(self).b_tree.max_children_length as nat,
            ),
            old(self).stack@.last().1 < old(self).stack@.last().0.pairs@.len(),
        ensures
            final(self).b_tree == old(self).b_tree,
            final(self).remain_len == old(self).remain_len,
            final(self).stack@.len() <= old(self).b_tree.depth@ + 1,
            Self::frames(
                final(self).stack@,
                final(self).top_depth(),
                old(self).b_tree.max_children_length as nat,
            ),
            final(self).stack@.len() > 0 ==> final(self).stack@.last().1
                < final(self).stack@.last().0.pairs@.len(),
            Self::pending(old(self).stack@, old(self).top_depth()).len() > 0,
            *item == Self::pending(old(self).stack@, old(self).top_depth())[0],
            Self::pending(final(self).stack@, final(self).top_depth()) == Self::pending(
                old(self).stack@,
                old(self).top_depth(),
            ).drop_first(),
    {
        let ghost most = self.b_tree.max_children_length as nat;
        let ghost stack0 = self.stack@;
        let ghost d = self.top_depth();
        let ghost all = Self::pending(stack0, d);
        let last = self.stack.len() - 1;
        let (top_node, at) = self.stack[last];
        let res = &top_node.pairs[at];
        let next = at + 1;
        self.stack[last].1 = next;
        let ghost stack1 = self.stack@;
        let ghost ps = top_node.pairs@;
        let ghost ks = top_node.kids(d);
        let ghost rest = Self::pending(stack0.drop_last(), d + 1);
        proof {
            assert(stack1.drop_last() =~= stack0.drop_last());
            top_node.lemma_kids_or_leaf(d);
            lemma_behind_step(ps, ks, at as int);
            assert(all == behind(ps, ks, at as int) + rest);
            assert(Self::pending(stack1, d) == behind(ps, ks, next as int) + rest);
            assert(all =~= seq![ps[at as int]] + (ks[next as int] + Self::pending(stack1, d)));
        }
        if next < top_node.children.len() {
            let child: &'t Tree<K, V> = &top_node.children[next];
            proof {
                top_node.lemma_kids(d);
                assert(child.filled((d - 1) as nat, most, (most / 2 - 1) as nat));
                child.lemma_filled_least((d - 1) as nat, most, (most / 2 - 1) as nat, 1);
            }
            self.push_node(child, Ghost((d - 1) as nat));
        } else {
            proof {
                top_node.lemma_leaf();
                assert(ks[next as int] =~= Seq::<(K, V)>::empty());
                assert(ks[next as int] + Self::pending(stack1, d) =~= Self::pending(stack1, d));
            }
            if next >= top_node.pairs.len() {
                self.pop_node();
            }
        }
        proof {
            assert(Self::pending(self.stack@, self.top_depth()) =~= all.drop_first());
        }
        res
    }

    /// The next pair in ascending order of the keys, if any is left.
    pub fn next(&mut self) -> (item: Option<&'t Pair<K, V>>)
        requires
            old(self).well_formed(),
        ensures
            final(self).well_formed(),
            old(self)@.len() == 0 ==> item is None && final(self)@ == old(self)@,
            old(self)@.len() > 0 ==> item == Some(&old(self)@[0]) && final(self)@ == old(
                self,
            )@.drop_first(),
    {
        if self.remain_len == 0 {
            return None;
        }
        let ghost all = self@;
        let tree: &'t BTree<K, V> = self.b_tree;
        if self.stack.len() == 0 {
            let root: &'t Tree<K, V> = tree.root.as_ref().unwrap();
            self.push_node(root, Ghost(tree.depth@));
            proof {
                assert(Self::pending(old(self).stack@, tree.depth@ + 1) =~= Seq::<(K, V)>::empty());
                assert(Self::pending(self.stack@, self.top_depth()) =~= all);
            }
        }
        let res = self.step();
        self.remain_len -= 1;
        proof {
            if self.stack@.len() == 0 {
                assert(Self::pending(self.stack@, self.top_depth()) =~= Seq::<(K, V)>::empty());
            }
        }
        Some(res)
    }

    /// The number of pairs that are left, as the least and the greatest that it can be.
    pub fn size_hint(&self) -> (hint: (usize, Option<usize>))
        requires
            self.well_formed(),
        ensures
            hint.0 == self@.len(),
            hint.1 == Some(hint.0),
    {
        (self.remain_len, Some(self.remain_len))
    }
}

impl<K: Ord, V> Node<K, V> {
    /// A node has one sequence of entries more than pairs between them: nothing at a leaf,
    /// and above the leaves those of its children.
    proof fn lemma_kids_or_leaf(self, depth: nat)
        requires
            self.shaped(depth),
        ensures
            self.kids(depth).len() == self.pairs@.len() + 1,
            self.entries(depth) == interleave(self.pairs@, self.kids(depth)),
    {
    }
}

} // verus!
