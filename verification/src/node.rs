use egui::Rect;
use vstd::prelude::*;

verus! {

/// The layout rectangle of a node, carried through the tree but never read by
/// its logic.
#[verifier::external_type_specification]
#[verifier::external_body]
pub struct ExRect(Rect);

/// `emath::Rect::EVERYTHING`, the rectangle that a node holds until the
/// renderer assigns it its place. Nothing is stated of the value: the tree
/// only stores it.
#[verifier::external_body]
fn rect_everything() -> Rect {
    Rect::EVERYTHING
}

/// One tab: its title and the function that draws its content.
#[derive(Debug)]
pub struct Pane<F> {
    pub title: String,
    pub ui: F,
}

/// A node of the layout tree. `R` is the type of a split's ratio.
#[derive(Debug)]
pub enum Node<F, R> {
    Empty,
    Leaf { tabs: Vec<Pane<F>>, active: usize, rect: Rect },
    HSplit { ratio: R, rect: Rect },
    VSplit { ratio: R, rect: Rect },
}

impl<F, R> Node<F, R> {
    /// The tabs of a leaf; empty for any other node.
    pub open spec fn tabs_view(&self) -> Seq<Pane<F>> {
        match self {
            Node::Leaf { tabs, .. } => tabs@,
            _ => Seq::empty(),
        }
    }

    /// Whether the node divides its area between two children.
    pub open spec fn is_split(&self) -> bool {
        self is HSplit || self is VSplit
    }

    /// The ratio of a split.
    pub open spec fn ratio_of(&self) -> R
        recommends
            self.is_split(),
    {
        match self {
            Node::HSplit { ratio, .. } => *ratio,
            Node::VSplit { ratio, .. } => *ratio,
            _ => arbitrary(),
        }
    }

    /// The node with its rectangle replaced; an empty node has none.
    pub open spec fn with_rect(self, r: Rect) -> Self {
        match self {
            Node::Empty => Node::Empty,
            Node::Leaf { tabs, active, .. } => Node::Leaf { tabs, active, rect: r },
            Node::HSplit { ratio, .. } => Node::HSplit { ratio, rect: r },
            Node::VSplit { ratio, .. } => Node::VSplit { ratio, rect: r },
        }
    }

    /// The node with its ratio replaced; only a split has one.
    pub open spec fn with_ratio(self, q: R) -> Self {
        match self {
            Node::HSplit { rect, .. } => Node::HSplit { ratio: q, rect },
            Node::VSplit { rect, .. } => Node::VSplit { ratio: q, rect },
            _ => self,
        }
    }

    /// The node with another tab selected; only a leaf has a selection.
    pub open spec fn with_active(self, a: usize) -> Self {
        match self {
            Node::Leaf { tabs, rect, .. } => Node::Leaf { tabs, active: a, rect },
            _ => self,
        }
    }

    /// Creates a leaf holding one tab, which is selected.
    pub fn leaf(first_tab: Pane<F>) -> (n: Self)
        ensures
            n is Leaf,
            n.tabs_view() == seq![first_tab],
            n->active == 0,
    {
        Node::Leaf { tabs: vec![first_tab], active: 0, rect: rect_everything() }
    }

    /// Creates a split that places its first child left of its second.
    pub fn hsplit(ratio: R) -> (n: Self)
        ensures
            n is HSplit,
            n.ratio_of() == ratio,
    {
        Node::HSplit { ratio, rect: rect_everything() }
    }

    /// Creates a split that places its first child above its second.
    pub fn vsplit(ratio: R) -> (n: Self)
        ensures
            n is VSplit,
            n.ratio_of() == ratio,
    {
        Node::VSplit { ratio, rect: rect_everything() }
    }

    /// Stores the rectangle that the renderer assigned to this node.
    pub fn set_rect(&mut self, new_rect: Rect)
        ensures
            *final(self) == old(self).with_rect(new_rect),
    {
        match self {
            Node::Empty => {},
            Node::Leaf { rect, .. } => {
                *rect = new_rect;
            },
            Node::HSplit { rect, .. } => {
                *rect = new_rect;
            },
            Node::VSplit { rect, .. } => {
                *rect = new_rect;
            },
        }
    }

    /// Replaces the ratio of a split; other nodes are left as they are.
    pub fn set_ratio(&mut self, new_ratio: R)
        ensures
            *final(self) == old(self).with_ratio(new_ratio),
            *old(self) is HSplit ==> {
                &&& *final(self) is HSplit
                &&& final(self)->HSplit_ratio == new_ratio
                &&& final(self)->HSplit_rect == old(self)->HSplit_rect
            },
            *old(self) is VSplit ==> {
                &&& *final(self) is VSplit
                &&& final(self)->VSplit_ratio == new_ratio
                &&& final(self)->VSplit_rect == old(self)->VSplit_rect
            },
            !old(self).is_split() ==> *final(self) == *old(self),
    {
        match self {
            Node::HSplit { ratio, .. } => {
                *ratio = new_ratio;
            },
            Node::VSplit { ratio, .. } => {
                *ratio = new_ratio;
            },
            _ => {},
        }
    }

    /// Selects tab `itab` of a leaf; other nodes are left as they are.
    pub fn select(&mut self, itab: usize)
        ensures
            *final(self) == old(self).with_active(itab),
            *old(self) is Leaf ==> {
                &&& *final(self) is Leaf
                &&& final(self)->active == itab
                &&& final(self).tabs_view() == old(self).tabs_view()
                &&& final(self)->Leaf_rect == old(self)->Leaf_rect
            },
            !(*old(self) is Leaf) ==> *final(self) == *old(self),
    {
        match self {
            Node::Leaf { active, .. } => {
                *active = itab;
            },
            _ => {},
        }
    }

    /// Takes tab `itab` out of a leaf and returns it. The selection stays on
    /// the same tab when another one leaves; when the selected tab leaves,
    /// the tab that takes its place (or else the new last tab) is selected.
    pub fn remove_tab(&mut self, itab: usize) -> (tab: Pane<F>)
        requires
            *old(self) is Leaf,
            itab < old(self).tabs_view().len(),
        ensures
            tab == old(self).tabs_view()[itab as int],
            removed_from(*final(self), *old(self), itab as int),
            old(self)->active < itab ==> final(self)->active == old(self)->active,
            itab < old(self)->active < old(self).tabs_view().len() ==> final(self)->active
                == old(self)->active - 1,
            old(self)->active == itab && itab < final(self).tabs_view().len()
                ==> final(self)->active == itab,
            old(self)->active == itab && itab == final(self).tabs_view().len() && itab > 0
                ==> final(self)->active == itab - 1,
            old(self)->active < old(self).tabs_view().len() && final(self).tabs_view().len() > 0
                ==> final(self)->active < final(self).tabs_view().len(),
    {
        match self {
            Node::Leaf { tabs, active, .. } => {
                let tab = tabs.remove(itab);
                if *active > itab {
                    *active = *active - 1;
                }
                if *active >= tabs.len() && tabs.len() > 0 {
                    *active = tabs.len() - 1;
                }
                tab
            },
            _ => { unreached() },
        }
    }

    /// Appends a tab to a leaf; the selection stays as it is. Other nodes are
    /// left as they are.
    pub fn push_tab(&mut self, tab: Pane<F>)
        ensures
            *old(self) is Leaf ==> {
                &&& *final(self) is Leaf
                &&& final(self).tabs_view() == old(self).tabs_view().push(tab)
                &&& final(self)->active == old(self)->active
                &&& final(self)->Leaf_rect == old(self)->Leaf_rect
            },
            !(*old(self) is Leaf) ==> *final(self) == *old(self),
    {
        match self {
            Node::Leaf { tabs, .. } => {
                tabs.push(tab);
            },
            _ => {},
        }
    }
}

/// `after` is the leaf `before` with tab `itab` taken out.
pub open spec fn removed_from<F, R>(after: Node<F, R>, before: Node<F, R>, itab: int) -> bool {
    &&& after is Leaf
    &&& after.tabs_view() == before.tabs_view().remove(itab)
    &&& after->active == active_after_removal(before->active, itab as usize, after.tabs_view().len())
    &&& after->Leaf_rect == before->Leaf_rect
    &&& before->active < before.tabs_view().len() && before->active != itab
        ==> after.tabs_view()[after->active as int] == before.tabs_view()[before->active as int]
}

/// Law: a split whose ratio is replaced stays a split of the same kind, over
/// the same rectangle, with the new ratio; any other node is unchanged.
pub proof fn law_with_ratio<F, R>(n: Node<F, R>, q: R)
    ensures
        n is HSplit ==> n.with_ratio(q) is HSplit && n.with_ratio(q)->HSplit_ratio == q
            && n.with_ratio(q)->HSplit_rect == n->HSplit_rect,
        n is VSplit ==> n.with_ratio(q) is VSplit && n.with_ratio(q)->VSplit_ratio == q
            && n.with_ratio(q)->VSplit_rect == n->VSplit_rect,
        n.is_split() ==> n.with_ratio(q).is_split() && n.with_ratio(q).ratio_of() == q,
        !n.is_split() ==> n.with_ratio(q) == n,
{
}

/// Law: selecting tab `a` of a leaf makes `a` the selected tab, whatever was
/// selected before, and keeps the tabs and the rectangle; any other node is
/// unchanged.
pub proof fn law_with_active<F, R>(n: Node<F, R>, a: usize)
    ensures
        n is Leaf ==> n.with_active(a) is Leaf && n.with_active(a)->active == a
            && n.with_active(a).tabs_view() == n.tabs_view() && n.with_active(a)->Leaf_rect
            == n->Leaf_rect,
        !(n is Leaf) ==> n.with_active(a) == n,
{
}

/// Law: when a tab other than the selected one leaves a leaf, the selection
/// still shows the same pane; when the selected one leaves, the selection
/// stays within the remaining tabs.
pub proof fn law_removal_keeps_selection<F>(tabs: Seq<Pane<F>>, active: usize, itab: usize)
    requires
        itab < tabs.len(),
        active < tabs.len(),
    ensures
        active != itab ==> tabs.remove(itab as int)[active_after_removal(
            active,
            itab,
            (tabs.len() - 1) as nat,
        ) as int] == tabs[active as int],
        tabs.len() > 1 ==> active_after_removal(active, itab, (tabs.len() - 1) as nat) < tabs.len()
            - 1,
{
}

/// `n` is a freshly made leaf that holds just `tab`, selected.
pub open spec fn fresh_leaf<F, R>(n: Node<F, R>, tab: Pane<F>) -> bool {
    &&& n is Leaf
    &&& n.tabs_view() == seq![tab]
    &&& n->active == 0
}

/// The two nodes are of the same kind as far as the tree's shape goes.
pub open spec fn same_shape<F, R>(a: Node<F, R>, b: Node<F, R>) -> bool {
    &&& (a is Empty <==> b is Empty)
    &&& (a.is_split() <==> b.is_split())
}

/// The selected index of a leaf after one of its tabs, `removed`, left it and
/// `len` tabs remain.
pub open spec fn active_after_removal(active: usize, removed: usize, len: nat) -> usize {
    let shifted: int = if active > removed { active - 1 } else { active as int };
    if shifted >= len && len > 0 { (len - 1) as usize } else { shifted as usize }
}

impl<F, R> Default for Node<F, R> {
    fn default() -> (n: Self)
        ensures
            n is Empty,
    {
        Node::Empty
    }
}

} // verus!
