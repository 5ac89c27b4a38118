//! UI nodes: an optional ID, a style, and child nodes; and the layout
//! choices that hold no geometry.
use vstd::prelude::*;

verus! {

/// How a node's content that does not fit is treated.
#[derive(Default, Debug, Clone, Copy, Hash)]
pub enum Overflow {
    #[default]
    Clip,
    Allow,
}

/// Where children go inside a node along one axis.
#[derive(Default, Debug, Clone, Copy, Hash)]
pub enum Align {
    #[default]
    Start,
    End,
    Center,
}

/// How a node lays out its children: in a column, in a row (each with an
/// alignment on both axes), or in an auto square-ish grid.
#[derive(Debug, Clone, Copy, Hash)]
pub enum Display {
    FlexColumn { vertical: Align, horizontal: Align },
    FlexRow { vertical: Align, horizontal: Align },
    Grid,
}

impl Default for Display {
    /// A column with both alignments at the start.
    fn default() -> (r: Self)
        ensures
            r == (Display::FlexColumn { vertical: Align::Start, horizontal: Align::Start }),
    {
        Display::FlexColumn { vertical: Align::Start, horizontal: Align::Start }
    }
}

/// How the pointer interacts with a node.
#[derive(Default, Debug, Clone, Copy, PartialEq, Eq, PartialOrd, Ord)]
pub enum Interaction {
    #[default]
    Idle,
    Hovered,
    Pressed,
}

/// Where a node was drawn and how the pointer interacted with it;
/// `position` and `size` hold `f32` bit patterns.
#[derive(Default, Debug, Clone, Copy, PartialEq)]
pub struct LastState {
    pub position: (u32, u32),
    pub size: (u32, u32),
    pub interaction: Interaction,
}

/// A node of the UI tree: an optional ID, a style, its last interaction
/// state, and its children in order.
#[derive(Debug)]
pub struct UINode<S> {
    id: Option<String>,
    style: S,
    last_state: Option<LastState>,
    children: Vec<UINode<S>>,
}

/// `node` has the ID `id`.
pub open spec fn has_id<S>(node: UINode<S>, id: Seq<char>) -> bool {
    node.node_id() matches Some(s) && s@ == id
}

/// Child `k` is the first of `nodes` with the ID `id`.
pub open spec fn is_first_with_id<S>(nodes: Seq<UINode<S>>, id: Seq<char>, k: int) -> bool {
    &&& 0 <= k < nodes.len()
    &&& has_id(nodes[k], id)
    &&& forall|j: int| 0 <= j < k ==> !has_id(#[trigger] nodes[j], id)
}

/// The items of `s` whose entry in `keep` is true, in order.
pub open spec fn kept<A>(s: Seq<A>, keep: Seq<bool>) -> Seq<A>
    decreases s.len(),
{
    if s.len() == 0 {
        s
    } else {
        let rest = kept(s.drop_last(), keep.drop_last());
        if keep.last() {
            rest.push(s.last())
        } else {
            rest
        }
    }
}

proof fn lemma_kept_step<A>(s: Seq<A>, keep: Seq<bool>, j: int)
    requires
        0 <= j < s.len(),
        keep.len() == j + 1,
    ensures
        kept(s.subrange(0, j + 1), keep) == (if keep[j] {
            kept(s.subrange(0, j), keep.subrange(0, j)).push(s[j])
        } else {
            kept(s.subrange(0, j), keep.subrange(0, j))
        }),
{
    assert(s.subrange(0, j + 1).drop_last() =~= s.subrange(0, j));
    assert(keep.drop_last() =~= keep.subrange(0, j));
}

impl<S> UINode<S> {
    /// The node's ID.
    pub closed spec fn node_id(&self) -> Option<String> {
        self.id
    }

    /// The node's style.
    pub closed spec fn node_style(&self) -> S {
        self.style
    }

    /// The node's last interaction state.
    pub closed spec fn node_last_state(&self) -> Option<LastState> {
        self.last_state
    }

    /// The node's children, in order.
    pub closed spec fn child_nodes(&self) -> Seq<UINode<S>> {
        self.children@
    }

    /// Returns the ID of this node.
    pub fn id(&self) -> (r: Option<&String>)
        ensures
            r is Some == self.node_id() is Some,
            r matches Some(s) ==> self.node_id() == Some(*s),
    {
        match &self.id {
            Some(s) => Some(s),
            None => None,
        }
    }

    /// Sets the ID of this node.  Returns true if this node had an ID previously.
    pub fn set_id(&mut self, id: String) -> (r: bool)
        ensures
            r == old(self).node_id() is Some,
            final(self).node_id() == Some(id),
            final(self).node_style() == old(self).node_style(),
            final(self).child_nodes() == old(self).child_nodes(),
            final(self).node_last_state() == old(self).node_last_state(),
    {
        let had_id = self.id.is_some();
        self.id = Some(id);
        had_id
    }

    /// Returns the current interaction state of this node.
    pub fn last_state(&self) -> (r: Option<&LastState>)
        ensures
            r is Some == self.node_last_state() is Some,
            r matches Some(s) ==> self.node_last_state() == Some(*s),
    {
        match &self.last_state {
            Some(s) => Some(s),
            None => None,
        }
    }

    /// Returns a reference to the style of this node.
    pub fn style(&self) -> (r: &S)
        ensures
            *r == self.node_style(),
    {
        &self.style
    }

    /// Returns a mutable reference to the style of this node.
    pub fn style_mut(&mut self) -> (r: &mut S)
        ensures
            *r == old(self).node_style(),
            final(self).node_style() == *final(r),
            final(self).node_id() == old(self).node_id(),
            final(self).child_nodes() == old(self).child_nodes(),
            final(self).node_last_state() == old(self).node_last_state(),
    {
        &mut self.style
    }

    /// Sets the style of this node.
    pub fn set_style(&mut self, style: S)
        ensures
            final(self).node_style() == style,
            final(self).node_id() == old(self).node_id(),
            final(self).child_nodes() == old(self).child_nodes(),
            final(self).node_last_state() == old(self).node_last_state(),
    {
        self.style = style;
    }

    /// Adds a child node to this node.
    pub fn add(&mut self, node: UINode<S>)
        ensures
            final(self).child_nodes() == old(self).child_nodes().push(node),
            final(self).node_id() == old(self).node_id(),
            final(self).node_style() == old(self).node_style(),
            final(self).node_last_state() == old(self).node_last_state(),
    {
        self.children.push(node);
    }

    /// Adds all of the given nodes as children to this node, in order.
    pub fn add_all(&mut self, nodes: Vec<UINode<S>>)
        ensures
            final(self).child_nodes() == old(self).child_nodes() + nodes@,
            final(self).node_id() == old(self).node_id(),
            final(self).node_style() == old(self).node_style(),
            final(self).node_last_state() == old(self).node_last_state(),
    {
        let mut nodes = nodes;
        self.children.append(&mut nodes);
    }

    /// Attempts to remove a node of the given ID from this node's children:
    /// the first child with that ID is taken out, the others keep their
    /// order.  Returns the removed node if one was found.
    pub fn remove(&mut self, id: &str) -> (r: Option<UINode<S>>)
        ensures
            r is Some <==> exists|k: int| 0 <= k < old(self).child_nodes().len() && has_id(
                #[trigger] old(self).child_nodes()[k],
                id@,
            ),
            r matches Some(node) ==> exists|k: int|
                {
                    &&& is_first_with_id(old(self).child_nodes(), id@, k)
                    &&& node == old(self).child_nodes()[k]
                    &&& final(self).child_nodes() == old(self).child_nodes().remove(k)
                },
            r is None ==> final(self).child_nodes() == old(self).child_nodes(),
            final(self).node_id() == old(self).node_id(),
            final(self).node_style() == old(self).node_style(),
            final(self).node_last_state() == old(self).node_last_state(),
    {
        let target = String::from_str(id);
        let mut i: usize = 0;
        while i < self.children.len()
            invariant
                i <= self.children@.len(),
                target@ == id@,
                self.children@ == old(self).children@,
                self.id == old(self).id,
                self.style == old(self).style,
                self.last_state == old(self).last_state,
                forall|j: int| 0 <= j < i ==> !has_id(#[trigger] self.children@[j], id@),
            decreases self.children@.len() - i,
        {
            let matches = match &self.children[i].id {
                Some(child_id) => *child_id == target,
                None => false,
            };
            assert(matches == has_id(self.children@[i as int], id@));
            if matches {
                let node = self.children.remove(i);
                proof {
                    assert(has_id(old(self).child_nodes()[i as int], id@));
                    assert(is_first_with_id(old(self).child_nodes(), id@, i as int));
                    assert(node == old(self).child_nodes()[i as int]);
                    assert(self.child_nodes() == old(self).child_nodes().remove(i as int));
                }
                return Some(node);
            }
            i = i + 1;
        }
        None
    }

    /// Retains only the children that `callback` returns true for, in order.
    pub fn retain<F: Fn(&UINode<S>) -> bool>(&mut self, callback: F)
        requires
            forall|c: UINode<S>| #[trigger] callback.requires((&c,)),
        ensures
            exists|keep: Seq<bool>|
                {
                    &&& keep.len() == old(self).child_nodes().len()
                    &&& forall|k: int|
                        0 <= k < keep.len() ==> callback.ensures((&old(self).child_nodes()[k],), #[trigger] keep[k])
                    &&& final(self).child_nodes() == kept(old(self).child_nodes(), keep)
                },
            final(self).node_id() == old(self).node_id(),
            final(self).node_style() == old(self).node_style(),
            final(self).node_last_state() == old(self).node_last_state(),
    {
        let ghost orig = self.children@;
        let ghost mut keep: Seq<bool> = Seq::empty();
        let mut i: usize = 0;
        while i < self.children.len()
            invariant
                0 <= i <= keep.len() <= orig.len(),
                i <= self.children@.len(),
                self.children@.len() - i == orig.len() - keep.len(),
                forall|c: UINode<S>| #[trigger] callback.requires((&c,)),
                forall|k: int| 0 <= k < keep.len() ==> callback.ensures((&orig[k],), #[trigger] keep[k]),
                self.children@.subrange(0, i as int) == kept(orig.subrange(0, keep.len() as int), keep),
                self.children@.subrange(i as int, self.children@.len() as int) == orig.subrange(
                    keep.len() as int,
                    orig.len() as int,
                ),
                self.id == old(self).id,
                self.style == old(self).style,
                self.last_state == old(self).last_state,
            decreases self.children@.len() - i,
        {
            let ghost before = self.children@;
            let ghost i0 = i as int;
            let ghost j = keep.len() as int;
            proof {
                assert(self.children@.subrange(i as int, self.children@.len() as int)[0] == orig.subrange(j, orig.len() as int)[0]);
            }
            let retained = callback(&self.children[i]);
            proof {
                let nk = keep.push(retained);
                lemma_kept_step(orig, nk, j);
                assert(nk.subrange(0, j) =~= keep);
                keep = nk;
            }
            if retained {
                i = i + 1;
            } else {
                self.children.remove(i);
            }
            proof {
                assert(before.subrange(i0 + 1, before.len() as int) =~= orig.subrange(j + 1, orig.len() as int)) by {
                    assert forall|x: int| 0 <= x < before.len() - (i0 + 1) implies #[trigger] before.subrange(
                        i0 + 1,
                        before.len() as int,
                    )[x] == orig.subrange(j + 1, orig.len() as int)[x] by {
                        assert(before.subrange(i0, before.len() as int)[x + 1] == orig.subrange(j, orig.len() as int)[x + 1]);
                    }
                }
                assert(self.children@.subrange(i as int, self.children@.len() as int) =~= before.subrange(i0 + 1, before.len() as int));
                assert(self.children@.subrange(0, i as int) =~= kept(orig.subrange(0, keep.len() as int), keep));
            }
        }
        proof {
            assert(orig.subrange(0, orig.len() as int) =~= orig);
            assert(self.children@.subrange(0, i as int) =~= self.children@);
        }
    }

    /// Drains all children from this node, returning them in order.
    pub fn drain(&mut self) -> (r: Vec<UINode<S>>)
        ensures
            r@ == old(self).child_nodes(),
            final(self).child_nodes() == Seq::<UINode<S>>::empty(),
            final(self).node_id() == old(self).node_id(),
            final(self).node_style() == old(self).node_style(),
            final(self).node_last_state() == old(self).node_last_state(),
    {
        let mut drained: Vec<UINode<S>> = Vec::new();
        std::mem::swap(&mut drained, &mut self.children);
        drained
    }

    /// Get all children.
    pub fn children(&self) -> (r: &[UINode<S>])
        ensures
            r@ == self.child_nodes(),
    {
        self.children.as_slice()
    }
}

impl<S: Clone> UINode<S> {
    /// `copy` is a clone of this node: the same ID and last state, a clone of
    /// the style, and a clone of each child, in order.
    pub closed spec fn cloned_into(self, copy: UINode<S>) -> bool
        decreases self,
    {
        &&& copy.id == self.id
        &&& copy.last_state == self.last_state
        &&& cloned(self.style, copy.style)
        &&& all_cloned_into(self.children@, copy.children@)
    }
}

/// `copies` holds a clone of each node of `nodes`, in order.
pub closed spec fn all_cloned_into<S: Clone>(nodes: Seq<UINode<S>>, copies: Seq<UINode<S>>) -> bool
    decreases nodes,
{
    if nodes.len() == 0 {
        copies.len() == 0
    } else {
        &&& copies.len() == nodes.len()
        &&& nodes.last().cloned_into(copies.last())
        &&& all_cloned_into(nodes.drop_last(), copies.drop_last())
    }
}

proof fn lemma_all_cloned_index<S: Clone>(nodes: Seq<UINode<S>>, copies: Seq<UINode<S>>, i: int)
    requires
        all_cloned_into(nodes, copies),
        0 <= i < nodes.len(),
    ensures
        copies.len() == nodes.len(),
        nodes[i].cloned_into(copies[i]),
    decreases nodes.len(),
{
    if i < nodes.len() - 1 {
        lemma_all_cloned_index(nodes.drop_last(), copies.drop_last(), i);
    }
}

/// A clone of a node has the node's ID, last state and number of children,
/// its style is a clone of the node's style, and each of its children is a
/// clone of the node's child at that place.
pub proof fn lemma_clone_parts<S: Clone>(node: UINode<S>, copy: UINode<S>, i: int)
    requires
        node.cloned_into(copy),
        0 <= i < node.child_nodes().len(),
    ensures
        copy.node_id() == node.node_id(),
        copy.node_last_state() == node.node_last_state(),
        cloned(node.node_style(), copy.node_style()),
        copy.child_nodes().len() == node.child_nodes().len(),
        node.child_nodes()[i].cloned_into(copy.child_nodes()[i]),
{
    lemma_all_cloned_index(node.children@, copy.children@, i);
}

impl<S: Clone> Clone for UINode<S> {
    /// A copy of the node and of all nodes below it.
    fn clone(&self) -> (r: Self)
        ensures
            self.cloned_into(r),
            r.node_id() == self.node_id(),
            r.node_last_state() == self.node_last_state(),
            r.child_nodes().len() == self.child_nodes().len(),
        decreases self,
    {
        let mut children: Vec<UINode<S>> = Vec::new();
        let mut i: usize = 0;
        while i < self.children.len()
            invariant
                i <= self.children@.len(),
                children@.len() == i,
                all_cloned_into(self.children@.subrange(0, i as int), children@),
            decreases self.children@.len() - i,
        {
            proof {
                assert(decreases_to!(self => self.children@[i as int]));
            }
            let child = self.children[i].clone();
            let ghost before = children@;
            children.push(child);
            proof {
                let nodes = self.children@.subrange(0, i + 1);
                assert(nodes.drop_last() =~= self.children@.subrange(0, i as int));
                assert(children@.drop_last() =~= before);
                assert(nodes.last() == self.children@[i as int]);
                assert(all_cloned_into(nodes, children@));
            }
            i = i + 1;
        }
        let id = match &self.id {
            Some(s) => Some(s.clone()),
            None => None,
        };
        let style = self.style.clone();
        let r = UINode { id, style, last_state: self.last_state, children };
        proof {
            assert(self.children@.subrange(0, self.children@.len() as int) =~= self.children@);
            assert(r.id == self.id);
        }
        r
    }
}

impl<S: Default> Default for UINode<S> {
    /// A node without an ID, with the default style and no children.
    fn default() -> (r: Self)
        ensures
            r.node_id() is None,
            r.node_last_state() is None,
            r.child_nodes() == Seq::<UINode<S>>::empty(),
    {
        UINode { id: None, style: S::default(), last_state: None, children: Vec::new() }
    }
}

impl<S: Default> UINode<S> {
    /// Creates a new `UINode` with the given ID, the default style and no
    /// children.  A node without an ID comes from `default`.
    pub fn new(id: String) -> (r: Self)
        ensures
            r.node_id() == Some(id),
            r.node_last_state() is None,
            r.child_nodes() == Seq::<UINode<S>>::empty(),
    {
        UINode { id: Some(id), style: S::default(), last_state: None, children: Vec::new() }
    }
}

} // verus!
