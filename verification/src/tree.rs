use crate::node::{fresh_leaf, removed_from, same_shape, Node, Pane};
use egui::Rect;
use vstd::multiset::Multiset;
use vstd::prelude::*;

verus! {

/// `s` lengthened to `n` nodes with empty ones; unchanged if it is long
/// enough already.
pub open spec fn padded<F, R>(s: Seq<Node<F, R>>, n: nat) -> Seq<Node<F, R>> {
    if n <= s.len() {
        s
    } else {
        s + Seq::new((n - s.len()) as nat, |i: int| Node::<F, R>::Empty)
    }
}

/// Index `index` can hold a node that hangs in the tree: it is the root, or
/// its parent is a split.
pub open spec fn attachable<F, R>(s: Seq<Node<F, R>>, index: int) -> bool {
    index == 0 || (0 < index && (index - 1) / 2 < s.len() && s[(index - 1) / 2].is_split())
}

/// Every node other than the root hangs below a split.
pub open spec fn connected<F, R>(s: Seq<Node<F, R>>) -> bool {
    forall|j: int| 0 < j < s.len() && !(#[trigger] s[j] is Empty) ==> s[(j - 1) / 2].is_split()
}

/// Both children of every split lie within the vector.
pub open spec fn complete<F, R>(s: Seq<Node<F, R>>) -> bool {
    forall|j: int| 0 <= j < s.len() && (#[trigger] s[j]).is_split() ==> 2 * j + 2 < s.len()
}

/// A tree that can be rendered: connected and complete.
pub open spec fn well_formed<F, R>(s: Seq<Node<F, R>>) -> bool {
    connected(s) && complete(s)
}

/// The tabs of one node, counted with multiplicity.
pub open spec fn node_tabs<F, R>(n: Node<F, R>) -> Multiset<Pane<F>> {
    n.tabs_view().to_multiset()
}

/// Every tab in the tree, counted with multiplicity.
pub open spec fn all_tabs<F, R>(s: Seq<Node<F, R>>) -> Multiset<Pane<F>>
    decreases s.len(),
{
    if s.len() == 0 {
        Multiset::empty()
    } else {
        all_tabs(s.drop_last()).add(node_tabs(s.last()))
    }
}

/// Replacing one node exchanges its tabs for those of the new node.
proof fn lemma_all_tabs_update<F, R>(s: Seq<Node<F, R>>, i: int, n: Node<F, R>)
    requires
        0 <= i < s.len(),
    ensures
        all_tabs(s.update(i, n)).add(node_tabs(s[i])) =~= all_tabs(s).add(node_tabs(n)),
    decreases s.len(),
{
    broadcast use vstd::multiset::group_multiset_axioms;

    let u = s.update(i, n);
    assert(u.len() == s.len());
    if i == s.len() - 1 {
        assert(u.drop_last() =~= s.drop_last());
        assert(u.last() == n);
        assert(all_tabs(u) == all_tabs(s.drop_last()).add(node_tabs(n)));
        assert(all_tabs(s) == all_tabs(s.drop_last()).add(node_tabs(s[i])));
    } else {
        lemma_all_tabs_update(s.drop_last(), i, n);
        assert(u.drop_last() =~= s.drop_last().update(i, n));
        assert(u.last() == s.last());
        assert(all_tabs(u) == all_tabs(s.drop_last().update(i, n)).add(node_tabs(s.last())));
        assert(all_tabs(s) == all_tabs(s.drop_last()).add(node_tabs(s.last())));
        assert forall|x: Pane<F>|
            #[trigger] all_tabs(u).add(node_tabs(s[i])).count(x) == all_tabs(s).add(
                node_tabs(n),
            ).count(x) by {
            assert(all_tabs(s.drop_last().update(i, n)).add(node_tabs(s[i])).count(x) == all_tabs(
                s.drop_last(),
            ).add(node_tabs(n)).count(x));
        }
    }
}

/// Giving one node one more tab gives the tree that one more tab.
proof fn lemma_all_tabs_grows<F, R>(s: Seq<Node<F, R>>, f: Seq<Node<F, R>>, i: int, t: Pane<F>)
    requires
        0 <= i < s.len(),
        f == s.update(i, f[i]),
        f[i].tabs_view() == s[i].tabs_view().push(t),
    ensures
        all_tabs(f) =~= all_tabs(s).insert(t),
{
    broadcast use vstd::multiset::group_multiset_axioms;
    broadcast use vstd::seq_lib::group_to_multiset_ensures;

    lemma_all_tabs_update(s, i, f[i]);
    assert(node_tabs(f[i]) =~= node_tabs(s[i]).insert(t));
    assert forall|x: Pane<F>| #[trigger] all_tabs(f).count(x) == all_tabs(s).insert(t).count(x) by {
        assert(all_tabs(f).add(node_tabs(s[i])).count(x) == all_tabs(s).add(node_tabs(f[i])).count(
            x,
        ));
    }
}

/// Empty nodes hold no tabs.
proof fn lemma_all_tabs_padded<F, R>(s: Seq<Node<F, R>>, n: nat)
    ensures
        all_tabs(padded(s, n)) =~= all_tabs(s),
    decreases n,
{
    broadcast use vstd::multiset::group_multiset_axioms;
    broadcast use vstd::seq_lib::group_to_multiset_ensures;

    if n > s.len() {
        lemma_all_tabs_padded(s, (n - 1) as nat);
        assert(padded(s, n).drop_last() =~= padded(s, (n - 1) as nat));
        assert(node_tabs(padded(s, n).last()) =~= Multiset::empty());
    }
}

/// A change that keeps every node's kind keeps the tree well formed.
proof fn lemma_shape_kept<F, R>(s: Seq<Node<F, R>>, f: Seq<Node<F, R>>)
    requires
        well_formed(s),
        f.len() == s.len(),
        forall|j: int| 0 <= j < s.len() ==> same_shape(#[trigger] f[j], s[j]),
    ensures
        well_formed(f),
{
    assert forall|j: int| 0 < j < f.len() && !(#[trigger] f[j] is Empty) implies f[(j - 1)
        / 2].is_split() by {
        assert(same_shape(f[j], s[j]));
        assert(same_shape(f[(j - 1) / 2], s[(j - 1) / 2]));
    }
    assert forall|j: int| 0 <= j < f.len() && (#[trigger] f[j]).is_split() implies 2 * j + 2
        < f.len() by {
        assert(same_shape(f[j], s[j]));
    }
}

/// Turning a leaf into a split over two leaves keeps the tree well formed.
proof fn lemma_shape_split<F, R>(s: Seq<Node<F, R>>, f: Seq<Node<F, R>>, to: int)
    requires
        well_formed(s),
        0 <= to < s.len(),
        s[to] is Leaf,
        f.len() == padded(s, (2 * to + 3) as nat).len(),
        f[to].is_split(),
        f[2 * to + 1] is Leaf,
        f[2 * to + 2] is Leaf,
        forall|j: int|
            0 <= j < f.len() && j != to && j != 2 * to + 1 && j != 2 * to + 2 ==> same_shape(
                #[trigger] f[j],
                padded(s, (2 * to + 3) as nat)[j],
            ),
    ensures
        well_formed(f),
{
    let p = padded(s, (2 * to + 3) as nat);
    assert forall|j: int| 0 < j < f.len() && !(#[trigger] f[j] is Empty) implies f[(j - 1)
        / 2].is_split() by {
        let q = (j - 1) / 2;
        if j != to && j != 2 * to + 1 && j != 2 * to + 2 {
            assert(same_shape(f[j], p[j]));
            assert(j < s.len());
            assert(p[j] == s[j]);
            assert(s[q].is_split());
            assert(q != to);
            if q == 2 * to + 1 || q == 2 * to + 2 {
                assert(!(s[q] is Empty));
                assert(s[(q - 1) / 2].is_split());
                assert((q - 1) / 2 == to);
            }
            assert(same_shape(f[q], p[q]));
        } else if j == to {
            assert(s[q].is_split());
            assert(same_shape(f[q], p[q]));
        }
    }
    assert forall|j: int| 0 <= j < f.len() && (#[trigger] f[j]).is_split() implies 2 * j + 2
        < f.len() by {
        if j != to {
            assert(same_shape(f[j], p[j]));
            assert(j < s.len());
            assert(p[j] == s[j]);
        }
    }
}

/// Replacing a node by one of the same kind with the same tabs keeps every
/// tab and the tree's shape.
proof fn lemma_update_in_place<F, R>(s: Seq<Node<F, R>>, i: int, n: Node<F, R>)
    requires
        0 <= i < s.len(),
        same_shape(n, s[i]),
        n.tabs_view() == s[i].tabs_view(),
    ensures
        well_formed(s) ==> well_formed(s.update(i, n)),
        all_tabs(s.update(i, n)) =~= all_tabs(s),
{
    broadcast use vstd::multiset::group_multiset_axioms;

    let f = s.update(i, n);
    if well_formed(s) {
        assert forall|j: int| 0 <= j < s.len() implies same_shape(#[trigger] f[j], s[j]) by {}
        lemma_shape_kept(s, f);
    }
    lemma_all_tabs_update(s, i, n);
    assert forall|x: Pane<F>| #[trigger] all_tabs(f).count(x) == all_tabs(s).count(x) by {
        assert(all_tabs(f).add(node_tabs(s[i])).count(x) == all_tabs(s).add(node_tabs(n)).count(
            x,
        ));
    }
}

/// Moving a tab into a tab bar keeps every tab and the tree's shape.
proof fn lemma_dock_into_bar<F, R>(
    s: Seq<Node<F, R>>,
    f: Seq<Node<F, R>>,
    from: int,
    itab: int,
    to: int,
)
    requires
        0 <= from < s.len(),
        0 <= to < s.len(),
        s[from] is Leaf,
        0 <= itab < s[from].tabs_view().len(),
        s[to] is Leaf,
        f.len() == s.len(),
        from != to ==> removed_from(f[from], s[from], itab),
        f[to] is Leaf,
        f[to].tabs_view() == (if from == to {
            s[from].tabs_view().remove(itab)
        } else {
            s[to].tabs_view()
        }).push(s[from].tabs_view()[itab]),
        forall|j: int| 0 <= j < f.len() && j != from && j != to ==> #[trigger] f[j] == s[j],
    ensures
        well_formed(s) ==> well_formed(f),
        all_tabs(f) =~= all_tabs(s),
{
    broadcast use vstd::multiset::group_multiset_axioms;
    broadcast use vstd::seq_lib::group_to_multiset_ensures;

    let t = s[from].tabs_view()[itab];
    if well_formed(s) {
        assert forall|j: int| 0 <= j < s.len() implies same_shape(#[trigger] f[j], s[j]) by {
            if j != from && j != to {
                assert(f[j] == s[j]);
            }
        }
        lemma_shape_kept(s, f);
    }
    if from == to {
        assert(f =~= s.update(to, f[to]));
        lemma_all_tabs_update(s, to, f[to]);
        let kept = s[from].tabs_view().remove(itab);
        assert(node_tabs(f[to]) =~= kept.to_multiset().insert(t));
        assert(kept.to_multiset() =~= node_tabs(s[to]).remove(t));
        assert(node_tabs(s[to]).count(t) > 0);
        assert forall|x: Pane<F>| #[trigger] all_tabs(f).count(x) == all_tabs(s).count(x) by {
            assert(all_tabs(f).add(node_tabs(s[to])).count(x) == all_tabs(s).add(
                node_tabs(f[to]),
            ).count(x));
        }
    } else {
        let m = s.update(from, f[from]);
        assert(f =~= m.update(to, f[to]));
        lemma_all_tabs_update(s, from, f[from]);
        lemma_all_tabs_update(m, to, f[to]);
        assert(m[to] == s[to]);
        assert(node_tabs(f[from]) =~= node_tabs(s[from]).remove(t));
        assert(node_tabs(s[from]).count(t) > 0);
        assert(node_tabs(f[to]) =~= node_tabs(s[to]).insert(t));
        assert forall|x: Pane<F>| #[trigger] all_tabs(f).count(x) == all_tabs(s).count(x) by {
            assert(all_tabs(f).add(node_tabs(m[to])).count(x) == all_tabs(m).add(
                node_tabs(f[to]),
            ).count(x));
            assert(all_tabs(m).add(node_tabs(s[from])).count(x) == all_tabs(s).add(
                node_tabs(f[from]),
            ).count(x));
        }
    }
}

/// The child slots of `to` hold no tab, and the tab to be moved does not come
/// from one of them: a split docked at `to` then overwrites no tab.
pub open spec fn child_slots_free<F, R>(s: Seq<Node<F, R>>, from: int, to: int) -> bool {
    let c1 = 2 * to + 1;
    let c2 = 2 * to + 2;
    &&& from != c1
    &&& from != c2
    &&& c1 < s.len() ==> s[c1].tabs_view().len() == 0
    &&& c2 < s.len() ==> s[c2].tabs_view().len() == 0
}

/// In a well formed tree the child slots of a leaf are empty, so docking a
/// tab beside a leaf overwrites no tab.
proof fn lemma_leaf_child_slots_free<F, R>(s: Seq<Node<F, R>>, from: int, to: int)
    requires
        well_formed(s),
        0 <= from < s.len(),
        0 <= to < s.len(),
        s[from] is Leaf,
        s[to] is Leaf,
    ensures
        child_slots_free(s, from, to),
        2 * to + 1 < s.len() ==> s[2 * to + 1] is Empty,
        2 * to + 2 < s.len() ==> s[2 * to + 2] is Empty,
{
    let c1 = 2 * to + 1;
    let c2 = 2 * to + 2;
    if c1 < s.len() && !(s[c1] is Empty) {
        assert((c1 - 1) / 2 == to);
    }
    if c2 < s.len() && !(s[c2] is Empty) {
        assert((c2 - 1) / 2 == to);
    }
}

/// A node whose tab sequence is empty holds no tabs.
proof fn lemma_no_tabs<F, R>(n: Node<F, R>)
    requires
        n.tabs_view().len() == 0,
    ensures
        node_tabs(n) =~= Multiset::empty(),
{
    broadcast use vstd::multiset::group_multiset_axioms;
    broadcast use vstd::seq_lib::group_to_multiset_ensures;

    assert(n.tabs_view() =~= Seq::<Pane<F>>::empty());
}

/// Splitting a leaf to place a moved tab beside it keeps every tab when the
/// leaf's child slots hold none, and keeps a well formed tree well formed.
proof fn lemma_dock_beside<F, R>(
    s: Seq<Node<F, R>>,
    s1: Seq<Node<F, R>>,
    f: Seq<Node<F, R>>,
    from: int,
    itab: int,
    to: int,
    new_first: bool,
)
    requires
        child_slots_free(s, from, to),
        0 <= from < s.len(),
        0 <= to < s.len(),
        s[from] is Leaf,
        0 <= itab < s[from].tabs_view().len(),
        s[to] is Leaf,
        s1 == s.update(from, s1[from]),
        removed_from(s1[from], s[from], itab),
        f == padded(s1, (2 * to + 3) as nat).update(to, f[to]).update(2 * to + 1, f[2 * to + 1]).update(
            2 * to + 2,
            f[2 * to + 2],
        ),
        f[to].is_split(),
        f[if new_first { 2 * to + 2 } else { 2 * to + 1 }] == s1[to],
        fresh_leaf(
            f[if new_first { 2 * to + 1 } else { 2 * to + 2 }],
            s[from].tabs_view()[itab],
        ),
    ensures
        well_formed(s) ==> well_formed(f),
        all_tabs(f) =~= all_tabs(s),
{
    broadcast use vstd::multiset::group_multiset_axioms;
    broadcast use vstd::seq_lib::group_to_multiset_ensures;

    let t = s[from].tabs_view()[itab];
    let c1 = 2 * to + 1;
    let c2 = 2 * to + 2;
    let p = padded(s, (c2 + 1) as nat);
    let p1 = padded(s1, (c2 + 1) as nat);
    // shape
    if well_formed(s) {
        lemma_leaf_child_slots_free(s, from, to);
        assert forall|j: int|
            0 <= j < f.len() && j != to && j != c1 && j != c2 implies same_shape(
            #[trigger] f[j],
            p[j],
        ) by {
            assert(f[j] == p1[j]);
            if j < s.len() {
                assert(p1[j] == s1[j]);
                assert(p[j] == s[j]);
            } else {
                assert(p1[j] == p[j]);
            }
        }
        lemma_shape_split(s, f, to);
    }
    // tabs
    assert(p1[c1].tabs_view().len() == 0) by {
        if c1 < s.len() {
            assert(s1[c1] == s[c1]);
        }
    }
    assert(p1[c2].tabs_view().len() == 0) by {
        if c2 < s.len() {
            assert(s1[c2] == s[c2]);
        }
    }
    lemma_no_tabs(p1[c1]);
    lemma_no_tabs(p1[c2]);
    let f1 = p1.update(to, f[to]);
    let f2 = f1.update(c1, f[c1]);
    lemma_all_tabs_update(s, from, s1[from]);
    lemma_all_tabs_padded(s1, (c2 + 1) as nat);
    lemma_all_tabs_update(p1, to, f[to]);
    lemma_all_tabs_update(f1, c1, f[c1]);
    lemma_all_tabs_update(f2, c2, f[c2]);
    assert(p1[to] == s1[to]);
    assert(node_tabs(f[to]) =~= Multiset::empty());
    assert(f1[c1] == p1[c1]);
    assert(f2[c2] == p1[c2]);
    assert(seq![t] =~= Seq::<Pane<F>>::empty().push(t));
    let new_slot = if new_first { c1 } else { c2 };
    assert(node_tabs(f[new_slot]) =~= Multiset::empty().insert(t));
    assert(node_tabs(s1[from]) =~= node_tabs(s[from]).remove(t));
    assert(node_tabs(s[from]).count(t) > 0);
    assert forall|x: Pane<F>| #[trigger] all_tabs(f).count(x) == all_tabs(s).count(x) by {
        assert(all_tabs(s1).add(node_tabs(s[from])).count(x) == all_tabs(s).add(
            node_tabs(s1[from]),
        ).count(x));
        assert(all_tabs(f1).add(node_tabs(p1[to])).count(x) == all_tabs(p1).add(
            node_tabs(f[to]),
        ).count(x));
        assert(all_tabs(f2).add(node_tabs(f1[c1])).count(x) == all_tabs(f1).add(
            node_tabs(f[c1]),
        ).count(x));
        assert(all_tabs(f).add(node_tabs(f2[c2])).count(x) == all_tabs(f2).add(
            node_tabs(f[c2]),
        ).count(x));
        assert(f2.update(c2, f[c2]) == f);
    }
}

/// Where a tab dropped on a leaf goes: into the leaf's tab bar, or into a new
/// leaf on one side of it.
#[derive(Clone, Copy, PartialEq, Eq, Structural, Debug)]
pub enum Split {
    Tab,
    Left,
    Right,
    Above,
    Below,
}

impl Split {
    /// The leaf turns into a split that places its children side by side.
    pub open spec fn is_horizontal(self) -> bool {
        self is Left || self is Right
    }

    /// The new leaf takes the first child slot (left or top).
    pub open spec fn new_goes_first(self) -> bool {
        self is Left || self is Above
    }

    /// Where a tab lands given where the pointer is over the hovered leaf:
    /// over its tab bar it joins the bar; elsewhere the leaf's area is cut by
    /// its two diagonals into four triangles, and the tab goes to the side of
    /// the triangle that holds the pointer. `right_of_main` says that the
    /// pointer lies right of the diagonal from the top left corner to the
    /// bottom right one, `right_of_anti` that it lies right of the diagonal
    /// from the bottom left corner to the top right one.
    pub fn locate(over_tab_bar: bool, right_of_main: bool, right_of_anti: bool) -> (s: Split)
        ensures
            over_tab_bar ==> s == Split::Tab,
            !over_tab_bar && !right_of_main && !right_of_anti ==> s == Split::Left,
            !over_tab_bar && right_of_main && right_of_anti ==> s == Split::Right,
            !over_tab_bar && right_of_main && !right_of_anti ==> s == Split::Above,
            !over_tab_bar && !right_of_main && right_of_anti ==> s == Split::Below,
    {
        if over_tab_bar {
            Split::Tab
        } else {
            match (right_of_main, right_of_anti) {
                (false, false) => Split::Left,
                (true, true) => Split::Right,
                (true, false) => Split::Above,
                (false, true) => Split::Below,
            }
        }
    }
}

/// The binary tree of nodes; the children of node `n` are at `2n + 1` and
/// `2n + 2`, and the root is at `0`.
#[derive(Debug)]
pub struct Tree<F, R> {
    tree: Vec<Node<F, R>>,
}

impl<F, R> View for Tree<F, R> {
    type V = Seq<Node<F, R>>;

    closed spec fn view(&self) -> Seq<Node<F, R>> {
        self.tree@
    }
}

impl<F, R> Default for Tree<F, R> {
    fn default() -> (t: Self)
        ensures
            t@ == Seq::<Node<F, R>>::empty(),
    {
        Self::new()
    }
}

impl<F, R> Tree<F, R> {
    /// An empty tree.
    pub fn new() -> (t: Self)
        ensures
            t@ == Seq::<Node<F, R>>::empty(),
            well_formed(t@),
    {
        Tree { tree: Vec::new() }
    }

    /// The number of slots in the vector, empty ones included.
    pub fn len(&self) -> (n: usize)
        ensures
            n == self@.len(),
    {
        self.tree.len()
    }

    /// The node at `index`.
    pub fn node(&self, index: usize) -> (n: &Node<F, R>)
        requires
            index < self@.len(),
        ensures
            *n == self@[index as int],
    {
        &self.tree[index]
    }

    /// Puts `value` at `index`, first lengthening the vector with empty nodes
    /// where it is too short.
    fn resize_and_set(&mut self, index: usize, value: Node<F, R>)
        requires
            index < usize::MAX,
        ensures
            final(self)@ == padded(old(self)@, (index + 1) as nat).update(index as int, value),
    {
        let ghost before = self.tree@;
        while self.tree.len() <= index
            invariant
                index < usize::MAX,
                before.len() <= self.tree@.len(),
                self.tree@.len() == before.len() || self.tree@.len() <= index + 1,
                self.tree@ == padded(before, self.tree@.len()),
            decreases index + 1 - self.tree@.len(),
        {
            self.tree.push(Node::Empty);
            assert(self.tree@ =~= padded(before, self.tree@.len()));
        }
        assert(self.tree@ =~= padded(before, (index + 1) as nat));
        self.tree[index] = value;
    }

    /// Turns node `index` into a split that places its first child left of
    /// its second, and returns the indices of the two children, for further
    /// calls of `hsplit`, `vsplit` or `tab`. The root is at index 0.
    pub fn hsplit(&mut self, index: usize, ratio: R) -> (children: (usize, usize))
        requires
            index <= (usize::MAX - 2) / 2,
        ensures
            children.0 == 2 * index + 1,
            children.1 == 2 * index + 2,
            final(self)@ == padded(old(self)@, (index + 1) as nat).update(
                index as int,
                final(self)@[index as int],
            ),
            final(self)@[index as int] is HSplit,
            final(self)@[index as int].ratio_of() == ratio,
            connected(old(self)@) && attachable(old(self)@, index as int) ==> connected(
                final(self)@,
            ),
            attachable(final(self)@, children.0 as int),
            attachable(final(self)@, children.1 as int),
    {
        self.resize_and_set(index, Node::hsplit(ratio));
        (index * 2 + 1, index * 2 + 2)
    }

    /// Turns node `index` into a split that places its first child above its
    /// second, and returns the indices of the two children, for further calls
    /// of `hsplit`, `vsplit` or `tab`. The root is at index 0.
    pub fn vsplit(&mut self, index: usize, ratio: R) -> (children: (usize, usize))
        requires
            index <= (usize::MAX - 2) / 2,
        ensures
            children.0 == 2 * index + 1,
            children.1 == 2 * index + 2,
            final(self)@ == padded(old(self)@, (index + 1) as nat).update(
                index as int,
                final(self)@[index as int],
            ),
            final(self)@[index as int] is VSplit,
            final(self)@[index as int].ratio_of() == ratio,
            connected(old(self)@) && attachable(old(self)@, index as int) ==> connected(
                final(self)@,
            ),
            attachable(final(self)@, children.0 as int),
            attachable(final(self)@, children.1 as int),
    {
        self.resize_and_set(index, Node::vsplit(ratio));
        (index * 2 + 1, index * 2 + 2)
    }

    /// Adds a tab to the leaf at `index`, or, where there is no leaf yet,
    /// puts a new leaf there that holds just this tab. The root is at index 0.
    pub fn tab(&mut self, index: usize, title: String, ui: F)
        requires
            index < usize::MAX,
        ensures
            ({
                let pane = Pane { title, ui };
                let n = final(self)@[index as int];
                if index < old(self)@.len() && old(self)@[index as int] is Leaf {
                    &&& final(self)@ == old(self)@.update(index as int, n)
                    &&& n is Leaf
                    &&& n.tabs_view() == old(self)@[index as int].tabs_view().push(pane)
                    &&& n->active == old(self)@[index as int]->active
                    &&& n->Leaf_rect == old(self)@[index as int]->Leaf_rect
                } else {
                    &&& final(self)@ == padded(old(self)@, (index + 1) as nat).update(
                        index as int,
                        n,
                    )
                    &&& n is Leaf
                    &&& n.tabs_view() == seq![pane]
                    &&& n->active == 0
                }
            }),
            connected(old(self)@) && attachable(old(self)@, index as int) && !(index < old(
                self,
            )@.len() && old(self)@[index as int].is_split()) ==> connected(final(self)@),
            all_tabs(final(self)@) == all_tabs(old(self)@).insert((Pane { title, ui })),
    {
        let ghost s = self.tree@;
        let pane = Pane { title, ui };
        let ghost added = pane;
        if index < self.tree.len() && matches!(self.tree[index], Node::Leaf { .. }) {
            self.tree[index].push_tab(pane);
            proof {
                lemma_all_tabs_grows(s, self.tree@, index as int, added);
            }
        } else {
            self.resize_and_set(index, Node::leaf(pane));
            proof {
                let p = padded(s, (index + 1) as nat);
                lemma_all_tabs_padded(s, (index + 1) as nat);
                assert(p[index as int].tabs_view().len() == 0);
                lemma_all_tabs_grows(p, self.tree@, index as int, added);
            }
        }
    }

    /// Stores the rectangle that the renderer assigned to node `index`.
    pub fn set_rect(&mut self, index: usize, rect: Rect)
        requires
            index < old(self)@.len(),
        ensures
            final(self)@ == old(self)@.update(index as int, old(self)@[index as int].with_rect(rect)),
            well_formed(old(self)@) ==> well_formed(final(self)@),
            all_tabs(final(self)@) == all_tabs(old(self)@),
    {
        proof {
            lemma_update_in_place(self.tree@, index as int, self.tree@[index as int].with_rect(rect));
        }
        self.tree[index].set_rect(rect);
    }

    /// Replaces the ratio of the split at `index`; other nodes stay as they are.
    pub fn set_ratio(&mut self, index: usize, ratio: R)
        requires
            index < old(self)@.len(),
        ensures
            final(self)@ == old(self)@.update(
                index as int,
                old(self)@[index as int].with_ratio(ratio),
            ),
            well_formed(old(self)@) ==> well_formed(final(self)@),
            all_tabs(final(self)@) == all_tabs(old(self)@),
            old(self)@[index as int].is_split() ==> {
                &&& final(self)@[index as int].is_split()
                &&& (final(self)@[index as int] is HSplit <==> old(self)@[index as int] is HSplit)
                &&& final(self)@[index as int].ratio_of() == ratio
            },
            !old(self)@[index as int].is_split() ==> final(self)@ == old(self)@,
    {
        proof {
            lemma_update_in_place(self.tree@, index as int, self.tree@[index as int].with_ratio(ratio));
        }
        self.tree[index].set_ratio(ratio);
    }

    /// Selects tab `itab` of the leaf at `index`; other nodes stay as they are.
    pub fn select(&mut self, index: usize, itab: usize)
        requires
            index < old(self)@.len(),
        ensures
            final(self)@ == old(self)@.update(
                index as int,
                old(self)@[index as int].with_active(itab),
            ),
            well_formed(old(self)@) ==> well_formed(final(self)@),
            all_tabs(final(self)@) == all_tabs(old(self)@),
            old(self)@[index as int] is Leaf ==> {
                &&& final(self)@[index as int] is Leaf
                &&& final(self)@[index as int]->active == itab
                &&& final(self)@[index as int].tabs_view() == old(self)@[index as int].tabs_view()
            },
            !(old(self)@[index as int] is Leaf) ==> final(self)@ == old(self)@,
    {
        proof {
            lemma_update_in_place(self.tree@, index as int, self.tree@[index as int].with_active(itab));
        }
        self.tree[index].select(itab);
    }

    /// Replaces the leaf at `to` by `split_node`, moves the leaf to one child
    /// slot of `to`, and puts a new leaf holding `tab` in the other: the first
    /// slot if `new_first`, else the second.
    fn split_leaf(&mut self, to: usize, split_node: Node<F, R>, tab: Pane<F>, new_first: bool)
        requires
            to < old(self)@.len(),
            to <= (usize::MAX - 2) / 2,
        ensures
            ({
                let c1 = 2 * to + 1;
                let c2 = 2 * to + 2;
                let new_slot = if new_first { c1 } else { c2 };
                let old_slot = if new_first { c2 } else { c1 };
                let f = final(self)@;
                &&& f == padded(old(self)@, (c2 + 1) as nat).update(to as int, split_node).update(
                    c1,
                    f[c1],
                ).update(c2, f[c2])
                &&& f[old_slot] == old(self)@[to as int]
                &&& fresh_leaf(f[new_slot], tab)
            }),
    {
        let ghost s = self.tree@;
        let mut moved = split_node;
        std::mem::swap(&mut self.tree[to], &mut moved);
        let fresh = Node::leaf(tab);
        if new_first {
            self.resize_and_set(to * 2 + 1, fresh);
            self.resize_and_set(to * 2 + 2, moved);
        } else {
            self.resize_and_set(to * 2 + 1, moved);
            self.resize_and_set(to * 2 + 2, fresh);
        }
        proof {
            let c2 = 2 * to + 2;
            let f = self.tree@;
            assert(f =~= padded(s, (c2 + 1) as nat).update(to as int, split_node).update(
                c2 - 1,
                f[c2 - 1],
            ).update(c2, f[c2]));
        }
    }

    /// Docks tab `itab` of the leaf at `from` on the leaf at `to`: the tab
    /// leaves its leaf and either joins the tab bar of `to`, selected, or, for
    /// a split, `to` becomes a split with ratio `even` whose children are the
    /// old leaf and a new leaf holding the tab, on the side that `split`
    /// names. Leaves that lose their last tab stay in place.
    pub fn dock(&mut self, from: usize, itab: usize, to: usize, split: Split, even: R)
        requires
            from < old(self)@.len(),
            to < old(self)@.len(),
            old(self)@[from as int] is Leaf,
            itab < old(self)@[from as int].tabs_view().len(),
            old(self)@[to as int] is Leaf,
            !(split is Tab) ==> to <= (usize::MAX - 2) / 2,
        ensures
            ({
                let s = old(self)@;
                let f = final(self)@;
                let t = s[from as int].tabs_view()[itab as int];
                split is Tab ==> {
                    let kept = if from == to {
                        s[from as int].tabs_view().remove(itab as int)
                    } else {
                        s[to as int].tabs_view()
                    };
                    &&& f.len() == s.len()
                    &&& from != to ==> removed_from(f[from as int], s[from as int], itab as int)
                    &&& f[to as int] is Leaf
                    &&& f[to as int].tabs_view() == kept.push(t)
                    &&& f[to as int]->active == kept.len()
                    &&& f[to as int]->Leaf_rect == s[to as int]->Leaf_rect
                    &&& forall|j: int|
                        0 <= j < f.len() && j != from && j != to ==> #[trigger] f[j] == s[j]
                }
            }),
            ({
                let s = old(self)@;
                let f = final(self)@;
                let t = s[from as int].tabs_view()[itab as int];
                let c1 = 2 * to + 1;
                let c2 = 2 * to + 2;
                let new_slot = if split.new_goes_first() { c1 } else { c2 };
                let old_slot = if split.new_goes_first() { c2 } else { c1 };
                let p = padded(s, (c2 + 1) as nat);
                !(split is Tab) ==> {
                    &&& f.len() == p.len()
                    &&& if split.is_horizontal() { f[to as int] is HSplit } else { f[to as int] is VSplit }
                    &&& f[to as int].ratio_of() == even
                    &&& fresh_leaf(f[new_slot], t)
                    &&& from == to ==> removed_from(f[old_slot], s[to as int], itab as int)
                    &&& from != to ==> f[old_slot] == s[to as int]
                    &&& from != to && from != c1 && from != c2 ==> removed_from(
                        f[from as int],
                        s[from as int],
                        itab as int,
                    )
                    &&& forall|j: int|
                        0 <= j < f.len() && j != from && j != to && j != c1 && j != c2
                            ==> #[trigger] f[j] == p[j]
                }
            }),
            well_formed(old(self)@) ==> well_formed(final(self)@),
            well_formed(old(self)@) || split is Tab || child_slots_free(
                old(self)@,
                from as int,
                to as int,
            ) ==> all_tabs(final(self)@) == all_tabs(old(self)@),
    {
        let ghost s = self.tree@;
        let tab = self.tree[from].remove_tab(itab);
        let ghost s1 = self.tree@;
        assert(s1 == s.update(from as int, s1[from as int]));
        match split {
            Split::Tab => {
                match &mut self.tree[to] {
                    Node::Leaf { tabs, active, .. } => {
                        *active = tabs.len();
                        tabs.push(tab);
                    },
                    _ => {},
                }
                proof {
                    lemma_dock_into_bar(s, self.tree@, from as int, itab as int, to as int);
                }
            },
            Split::Left => {
                self.split_leaf(to, Node::hsplit(even), tab, true);
                proof {
                    if well_formed(s) {
                        lemma_leaf_child_slots_free(s, from as int, to as int);
                    }
                    if child_slots_free(s, from as int, to as int) {
                        lemma_dock_beside(s, s1, self.tree@, from as int, itab as int, to as int, true);
                    }
                }
            },
            Split::Right => {
                self.split_leaf(to, Node::hsplit(even), tab, false);
                proof {
                    if well_formed(s) {
                        lemma_leaf_child_slots_free(s, from as int, to as int);
                    }
                    if child_slots_free(s, from as int, to as int) {
                        lemma_dock_beside(s, s1, self.tree@, from as int, itab as int, to as int, false);
                    }
                }
            },
            Split::Above => {
                self.split_leaf(to, Node::vsplit(even), tab, true);
                proof {
                    if well_formed(s) {
                        lemma_leaf_child_slots_free(s, from as int, to as int);
                    }
                    if child_slots_free(s, from as int, to as int) {
                        lemma_dock_beside(s, s1, self.tree@, from as int, itab as int, to as int, true);
                    }
                }
            },
            Split::Below => {
                self.split_leaf(to, Node::vsplit(even), tab, false);
                proof {
                    if well_formed(s) {
                        lemma_leaf_child_slots_free(s, from as int, to as int);
                    }
                    if child_slots_free(s, from as int, to as int) {
                        lemma_dock_beside(s, s1, self.tree@, from as int, itab as int, to as int, false);
                    }
                }
            },
        }
    }
}

} // verus!
