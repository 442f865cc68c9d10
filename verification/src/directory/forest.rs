//! Forests of numbered nodes: the mathematical model of the folder links.
//!
//! Nodes are named by handles that count from one. A forest records for every
//! handle the node's parent and its children in order.
use vstd::prelude::*;
use vstd::set_lib::{lemma_int_range, lemma_len_subset, set_int_range};

verus! {

/// The links between nodes: who is whose parent, and who are whose children.
/// Handle `h` names slot `h - 1` of both sequences. A slot without a node holds
/// `None` in `children`.
pub ghost struct Forest {
    pub parents: Seq<Option<int>>,
    pub children: Seq<Option<Seq<int>>>,
}

impl Forest {
    /// The forest without nodes.
    pub open spec fn empty() -> Forest {
        Forest { parents: Seq::empty(), children: Seq::empty() }
    }

    /// The number of slots.
    pub open spec fn size(self) -> nat {
        self.children.len()
    }

    /// The handle that a new last slot would get.
    pub open spec fn next(self) -> int {
        self.children.len() as int + 1
    }

    /// Whether `handle` names a node.
    pub open spec fn is_live(self, handle: int) -> bool {
        1 <= handle <= self.children.len() && self.children[handle - 1] is Some
    }

    /// The parent of a node, if it has one.
    pub open spec fn parent(self, handle: int) -> Option<int> {
        self.parents[handle - 1]
    }

    /// The children of a node, first to last.
    pub open spec fn kids(self, handle: int) -> Seq<int> {
        self.children[handle - 1]->0
    }

    /// The forest with one more node, without parent or children, under
    /// `handle`: in a new last slot or in an empty one.
    pub open spec fn with_node(self, handle: int) -> Forest {
        if handle == self.children.len() + 1 {
            Forest {
                parents: self.parents.push(None),
                children: self.children.push(Some(Seq::empty())),
            }
        } else {
            Forest {
                parents: self.parents.update(handle - 1, None),
                children: self.children.update(handle - 1, Some(Seq::empty())),
            }
        }
    }

    /// The forest in which `child`, which had no parent, has become the last
    /// child of `parent`.
    pub open spec fn with_child(self, parent: int, child: int) -> Forest {
        Forest {
            parents: self.parents.update(child - 1, Some(parent)),
            children: self.children.update(parent - 1, Some(self.kids(parent).push(child))),
        }
    }

    /// The node, its parent, its parent's parent and so on, for at most `fuel`
    /// nodes.
    pub open spec fn chain(self, handle: int, fuel: nat) -> Seq<int>
        decreases fuel,
    {
        if fuel == 0 || !self.is_live(handle) {
            Seq::empty()
        } else {
            match self.parent(handle) {
                None => seq![handle],
                Some(above) => seq![handle] + self.chain(above, (fuel - 1) as nat),
            }
        }
    }

    /// The node and all its ancestors, nearest first. No chain of parents is
    /// longer than the forest has slots.
    pub open spec fn ancestors(self, handle: int) -> Seq<int> {
        self.chain(handle, self.size())
    }

    /// The node and what lies below it down to depth `fuel`, each node before
    /// its children and the children from first to last.
    pub open spec fn walk(self, handle: int, fuel: nat) -> Seq<int>
        decreases fuel, 0nat,
    {
        if fuel == 0 || !self.is_live(handle) {
            Seq::empty()
        } else {
            seq![handle] + self.walk_all(self.kids(handle), (fuel - 1) as nat)
        }
    }

    /// The walks from each of `handles`, one after the other.
    pub open spec fn walk_all(self, handles: Seq<int>, fuel: nat) -> Seq<int>
        decreases fuel, handles.len() + 1,
    {
        if handles.len() == 0 {
            Seq::empty()
        } else {
            self.walk_all(handles.drop_last(), fuel) + self.walk(handles.last(), fuel)
        }
    }

    /// The node and all its descendants in pre-order. No path down is longer
    /// than the forest has slots.
    pub open spec fn descendants(self, handle: int) -> Seq<int> {
        self.walk(handle, self.size())
    }

    /// Every slot holds a node.
    pub open spec fn full(self) -> bool {
        &&& self.parents.len() == self.children.len()
        &&& forall|h: int| 1 <= h <= self.children.len() ==> self.is_live(h)
    }

    /// Parents and children agree: a node's children are nodes that name it
    /// as their parent, a node's parent is a node that lists it among its
    /// children, and no node is listed twice.
    pub open spec fn linked(self) -> bool {
        &&& forall|h: int, i: int|
            #![trigger self.kids(h)[i]]
            self.is_live(h) && 0 <= i < self.kids(h).len() ==> self.is_live(self.kids(h)[i])
                && self.parent(self.kids(h)[i]) == Some(h)
        &&& forall|h: int|
            #![trigger self.parent(h)]
            self.is_live(h) && self.parent(h) is Some ==> self.is_live(self.parent(h)->0)
                && self.kids(self.parent(h)->0).contains(h)
        &&& forall|h: int| #![trigger self.kids(h)] self.is_live(h) ==> self.kids(h).no_duplicates()
    }

    /// Whether `rank` gives every node a smaller number than its parent.
    pub open spec fn ranked_by(self, rank: Seq<nat>) -> bool {
        &&& rank.len() == self.size()
        &&& forall|h: int|
            #![trigger self.parent(h)]
            self.is_live(h) && self.parent(h) is Some ==> rank[h - 1] < rank[self.parent(h)->0
                - 1]
    }

    /// No node lies above itself: the nodes can be numbered so that every
    /// node has a smaller number than its parent.
    pub open spec fn acyclic(self) -> bool {
        exists|rank: Seq<nat>| self.ranked_by(rank)
    }

    /// A numbering of the nodes that rises from child to parent.
    pub open spec fn ranking(self) -> Seq<nat> {
        choose|rank: Seq<nat>| self.ranked_by(rank)
    }

    /// Well-formed: full, linked and without circles.
    pub open spec fn wf(self) -> bool {
        self.full() && self.linked() && self.acyclic()
    }

    /// Whether `above` is `handle` or one of its ancestors.
    pub open spec fn is_above(self, above: int, handle: int) -> bool {
        self.ancestors(handle).contains(above)
    }
}

/// The empty forest is well-formed.
pub proof fn lemma_empty_wf()
    ensures
        Forest::empty().wf(),
{
    assert(Forest::empty().ranked_by(Seq::<nat>::empty()));
}

/// A new node in a new last slot keeps a forest well-formed and leaves the
/// other nodes' links as they were.
pub proof fn lemma_with_node_wf(forest: Forest)
    requires
        forest.wf(),
    ensures
        forest.with_node(forest.next()).wf(),
        forest.with_node(forest.next()).size() == forest.size() + 1,
        forest.with_node(forest.next()).parent(forest.next()) is None,
        forest.with_node(forest.next()).kids(forest.next()) == Seq::<int>::empty(),
        forall|h: int|
            1 <= h <= forest.size() ==> forest.with_node(forest.next()).parent(h) == forest.parent(
                h,
            ) && forest.with_node(forest.next()).kids(h) == forest.kids(h),
{
    let after = forest.with_node(forest.next());
    let fresh = forest.next();
    assert forall|h: int| 1 <= h <= forest.size() implies after.parent(h) == forest.parent(h)
        && after.kids(h) == forest.kids(h) && after.is_live(h) by {
        assert(forest.is_live(h));
    }
    assert forall|h: int, i: int|
        #![trigger after.kids(h)[i]]
        after.is_live(h) && 0 <= i < after.kids(h).len() implies after.is_live(after.kids(h)[i])
        && after.parent(after.kids(h)[i]) == Some(h) by {
        assert(h != fresh);
        assert(forest.is_live(h));
        let k = forest.kids(h)[i];
        assert(forest.is_live(k) && forest.parent(k) == Some(h));
    }
    assert forall|h: int|
        #![trigger after.parent(h)]
        after.is_live(h) && after.parent(h) is Some implies after.is_live(after.parent(h)->0)
        && after.kids(after.parent(h)->0).contains(h) by {
        assert(h != fresh);
        assert(forest.is_live(h));
        let p = forest.parent(h)->0;
        assert(forest.is_live(p) && forest.kids(p).contains(h));
    }
    assert forall|h: int| #![trigger after.kids(h)] after.is_live(h) implies after.kids(
        h,
    ).no_duplicates() by {
        if h != fresh {
            assert(forest.is_live(h));
            assert(forest.kids(h).no_duplicates());
        }
    }
    let rank = forest.ranking().push(0);
    assert(after.ranked_by(rank)) by {
        assert forall|h: int|
            #![trigger after.parent(h)]
            after.is_live(h) && after.parent(h) is Some implies rank[h - 1] < rank[after.parent(
            h,
        )->0 - 1] by {
            assert(h != fresh);
            assert(forest.is_live(h));
            assert(forest.parent(h) == after.parent(h));
            assert(forest.is_live(forest.parent(h)->0));
        }
    }
}

/// A chain is no longer than its fuel.
pub proof fn lemma_chain_len(forest: Forest, handle: int, fuel: nat)
    ensures
        forest.chain(handle, fuel).len() <= fuel,
    decreases fuel,
{
    if fuel == 0 || !forest.is_live(handle) {
    } else {
        match forest.parent(handle) {
            None => {},
            Some(above) => {
                lemma_chain_len(forest, above, (fuel - 1) as nat);
            },
        }
    }
}

/// A chain with less fuel is the beginning of the chain with more.
pub proof fn lemma_chain_take(forest: Forest, handle: int, less: nat, more: nat)
    requires
        less <= more,
    ensures
        forest.chain(handle, less) == if less <= forest.chain(handle, more).len() {
            forest.chain(handle, more).take(less as int)
        } else {
            forest.chain(handle, more)
        },
    decreases less,
{
    if less == 0 {
        assert(forest.chain(handle, more).take(0) =~= Seq::<int>::empty());
    } else if !forest.is_live(handle) {
        assert(forest.chain(handle, more).take(0) =~= Seq::<int>::empty());
    } else {
        match forest.parent(handle) {
            None => {
                assert(forest.chain(handle, more) == seq![handle]);
                assert(seq![handle].take(1) =~= seq![handle]);
            },
            Some(above) => {
                lemma_chain_take(forest, above, (less - 1) as nat, (more - 1) as nat);
                let rest = forest.chain(above, (more - 1) as nat);
                let whole = forest.chain(handle, more);
                assert(whole == seq![handle] + rest);
                if less <= whole.len() {
                    assert(whole.take(less as int) =~= seq![handle] + rest.take(less - 1));
                }
            },
        }
    }
}

/// Along a chain the numbers of a ranking rise.
pub proof fn lemma_chain_rising(forest: Forest, rank: Seq<nat>, handle: int, fuel: nat)
    requires
        forest.full(),
        forest.linked(),
        forest.ranked_by(rank),
    ensures
        forall|i: int, j: int|
            0 <= i < j < forest.chain(handle, fuel).len() ==> rank[forest.chain(handle, fuel)[i]
                - 1] < rank[forest.chain(handle, fuel)[j] - 1],
    decreases fuel,
{
    if fuel == 0 || !forest.is_live(handle) {
    } else {
        match forest.parent(handle) {
            None => {},
            Some(above) => {
                lemma_chain_rising(forest, rank, above, (fuel - 1) as nat);
                let rest = forest.chain(above, (fuel - 1) as nat);
                let whole = forest.chain(handle, fuel);
                assert(whole == seq![handle] + rest);
                assert forall|i: int, j: int| 0 <= i < j < whole.len() implies rank[whole[i] - 1]
                    < rank[whole[j] - 1] by {
                    assert(whole[j] == rest[j - 1]);
                    if i == 0 {
                        assert(rest[0] == above);
                        if j > 1 {
                            assert(rank[rest[0] - 1] < rank[rest[j - 1] - 1]);
                        }
                    } else {
                        assert(whole[i] == rest[i - 1]);
                    }
                }
            },
        }
    }
}

/// In a forest without circles no chain is longer than the forest has slots.
pub proof fn lemma_chain_bounded(forest: Forest, handle: int, fuel: nat)
    requires
        forest.wf(),
    ensures
        forest.chain(handle, fuel).len() <= forest.size(),
        forest.chain(handle, fuel).no_duplicates(),
{
    let chain = forest.chain(handle, fuel);
    let rank = forest.ranking();
    lemma_chain_rising(forest, rank, handle, fuel);
    lemma_chain_live(forest, handle, fuel);
    assert(chain.no_duplicates()) by {
        assert forall|i: int, j: int| 0 <= i < chain.len() && 0 <= j < chain.len() && i
            != j implies chain[i] != chain[j] by {
            if i < j {
                assert(rank[chain[i] - 1] < rank[chain[j] - 1]);
            } else {
                assert(rank[chain[j] - 1] < rank[chain[i] - 1]);
            }
        }
    }
    chain.unique_seq_to_set();
    lemma_int_range(1, forest.next());
    assert(chain.to_set().subset_of(set_int_range(1, forest.next()))) by {
        assert forall|x: int| chain.to_set().contains(x) implies set_int_range(
            1,
            forest.next(),
        ).contains(x) by {
            let i = choose|i: int| 0 <= i < chain.len() && chain[i] == x;
            assert(forest.is_live(chain[i]));
        }
    }
    lemma_len_subset(chain.to_set(), set_int_range(1, forest.next()));
}

/// In a forest without circles, more fuel than there are slots changes no
/// chain.
pub proof fn lemma_chain_saturated(forest: Forest, handle: int, fuel: nat)
    requires
        forest.wf(),
        fuel >= forest.size(),
    ensures
        forest.chain(handle, fuel) == forest.ancestors(handle),
{
    lemma_chain_bounded(forest, handle, fuel);
    lemma_chain_take(forest, handle, forest.size(), fuel);
    let long = forest.chain(handle, fuel);
    assert(long.take(long.len() as int) =~= long);
}

/// The ancestors of a node are the node and the ancestors of its parent.
pub proof fn lemma_ancestors_unfold(forest: Forest, handle: int)
    requires
        forest.wf(),
        forest.is_live(handle),
    ensures
        forest.ancestors(handle) == match forest.parent(handle) {
            None => seq![handle],
            Some(above) => seq![handle] + forest.ancestors(above),
        },
        forest.ancestors(handle).len() >= 1,
        forest.ancestors(handle)[0] == handle,
{
    match forest.parent(handle) {
        None => {},
        Some(above) => {
            let size = forest.size();
            lemma_chain_saturated(forest, handle, size + 1);
            lemma_chain_len(forest, above, size);
            lemma_chain_bounded(forest, handle, size + 1);
            // The chain of the parent ends one before there are as many as slots.
            assert(forest.chain(handle, size + 1) == seq![handle] + forest.chain(above, size));
            lemma_chain_take(forest, above, (size - 1) as nat, size);
            let short = forest.chain(above, (size - 1) as nat);
            let long = forest.chain(above, size);
            assert(long.len() <= size - 1);
            assert(long.take(long.len() as int) =~= long);
        },
    }
}

/// Giving a parentless node a parent keeps a forest well-formed.
pub proof fn lemma_with_child_wf(forest: Forest, parent: int, child: int)
    requires
        forest.wf(),
        forest.is_live(parent),
        forest.is_live(child),
        forest.parent(child) is None,
        parent != child,
        !forest.is_above(child, parent),
    ensures
        forest.with_child(parent, child).wf(),
        forest.with_child(parent, child).size() == forest.size(),
{
    let after = forest.with_child(parent, child);
    let old_rank = forest.ranking();
    let lift = old_rank[child - 1] + 1;
    let rank = Seq::new(
        forest.size(),
        |i: int|
            if forest.is_above(child, i + 1) {
                old_rank[i]
            } else {
                old_rank[i] + lift
            },
    );
    assert(after.ranked_by(rank)) by {
        assert forall|h: int|
            #![trigger after.parent(h)]
            after.is_live(h) && after.parent(h) is Some implies rank[h - 1] < rank[after.parent(
            h,
        )->0 - 1] by {
            assert(forest.is_live(h));
            lemma_ancestors_unfold(forest, h);
            if h == child {
                assert(forest.ancestors(child)[0] == child);
            } else {
                let up = forest.parent(h)->0;
                assert(forest.is_live(up));
                let rest = forest.ancestors(up);
                let whole = forest.ancestors(h);
                assert(whole == seq![h] + rest);
                if rest.contains(child) {
                    let k = choose|k: int| 0 <= k < rest.len() && rest[k] == child;
                    assert(whole[k + 1] == child);
                }
                if whole.contains(child) {
                    let k = choose|k: int| 0 <= k < whole.len() && whole[k] == child;
                    assert(k >= 1);
                    assert(rest[k - 1] == child);
                }
            }
        }
    }
    assert forall|h: int| 1 <= h <= forest.size() implies after.is_live(h) by {
        assert(forest.is_live(h));
    }
    assert forall|h: int, i: int|
        #![trigger after.kids(h)[i]]
        after.is_live(h) && 0 <= i < after.kids(h).len() implies after.is_live(after.kids(h)[i])
        && after.parent(after.kids(h)[i]) == Some(h) by {
        assert(forest.is_live(h));
        if h == parent && i == forest.kids(parent).len() {
            assert(after.kids(h)[i] == child);
        } else {
            let k = forest.kids(h)[i];
            assert(after.kids(h)[i] == k);
            assert(forest.is_live(k) && forest.parent(k) == Some(h));
            assert(k != child);
        }
    }
    assert forall|h: int|
        #![trigger after.parent(h)]
        after.is_live(h) && after.parent(h) is Some implies after.is_live(after.parent(h)->0)
        && after.kids(after.parent(h)->0).contains(h) by {
        assert(forest.is_live(h));
        if h == child {
            assert(after.kids(parent).last() == child);
        } else {
            let p = forest.parent(h)->0;
            assert(forest.is_live(p) && forest.kids(p).contains(h));
            let i = choose|i: int| 0 <= i < forest.kids(p).len() && forest.kids(p)[i] == h;
            assert(after.kids(p)[i] == h);
        }
    }
    assert forall|h: int| #![trigger after.kids(h)] after.is_live(h) implies after.kids(
        h,
    ).no_duplicates() by {
        assert(forest.is_live(h));
        assert(forest.kids(h).no_duplicates());
        if h == parent {
            assert forall|i: int| 0 <= i < forest.kids(parent).len() implies forest.kids(
                parent,
            )[i] != child by {
                assert(forest.parent(forest.kids(parent)[i]) == Some(parent));
            }
        }
    }
}

/// Every node of a walk is a node of the forest.
pub proof fn lemma_walk_live(forest: Forest, handle: int, fuel: nat)
    ensures
        forall|i: int|
            0 <= i < forest.walk(handle, fuel).len() ==> forest.is_live(
                #[trigger] forest.walk(handle, fuel)[i],
            ),
    decreases fuel, 0nat,
{
    if fuel == 0 || !forest.is_live(handle) {
    } else {
        lemma_walk_all_live(forest, forest.kids(handle), (fuel - 1) as nat);
        let below = forest.walk_all(forest.kids(handle), (fuel - 1) as nat);
        let whole = forest.walk(handle, fuel);
        assert forall|i: int| 0 <= i < whole.len() implies forest.is_live(#[trigger] whole[i]) by {
            if i > 0 {
                assert(whole[i] == below[i - 1]);
            }
        }
    }
}

/// Every node of a row of walks is a node of the forest.
pub proof fn lemma_walk_all_live(forest: Forest, handles: Seq<int>, fuel: nat)
    ensures
        forall|i: int|
            0 <= i < forest.walk_all(handles, fuel).len() ==> forest.is_live(
                #[trigger] forest.walk_all(handles, fuel)[i],
            ),
    decreases fuel, handles.len() + 1,
{
    if handles.len() > 0 {
        lemma_walk_all_live(forest, handles.drop_last(), fuel);
        lemma_walk_live(forest, handles.last(), fuel);
        let front = forest.walk_all(handles.drop_last(), fuel);
        let back = forest.walk(handles.last(), fuel);
        let whole = forest.walk_all(handles, fuel);
        assert forall|i: int| 0 <= i < whole.len() implies forest.is_live(#[trigger] whole[i]) by {
            if i < front.len() {
                assert(whole[i] == front[i]);
            } else {
                assert(whole[i] == back[i - front.len()]);
            }
        }
    }
}

/// Every node of a chain is a node of the forest.
pub proof fn lemma_chain_live(forest: Forest, handle: int, fuel: nat)
    ensures
        forall|i: int|
            0 <= i < forest.chain(handle, fuel).len() ==> forest.is_live(
                #[trigger] forest.chain(handle, fuel)[i],
            ),
    decreases fuel,
{
    if fuel == 0 || !forest.is_live(handle) {
    } else {
        match forest.parent(handle) {
            None => {},
            Some(above) => {
                lemma_chain_live(forest, above, (fuel - 1) as nat);
                let rest = forest.chain(above, (fuel - 1) as nat);
                let whole = forest.chain(handle, fuel);
                assert forall|i: int| 0 <= i < whole.len() implies forest.is_live(
                    #[trigger] whole[i],
                ) by {
                    if i > 0 {
                        assert(whole[i] == rest[i - 1]);
                    }
                }
            },
        }
    }
}

/// A chain starts at its node, and every later node of it has a child.
pub proof fn lemma_chain_shape(forest: Forest, handle: int, fuel: nat)
    requires
        forest.wf(),
    ensures
        forest.chain(handle, fuel).len() > 0 ==> forest.chain(handle, fuel)[0] == handle,
        forall|i: int|
            1 <= i < forest.chain(handle, fuel).len() ==> forest.kids(
                #[trigger] forest.chain(handle, fuel)[i],
            ).len() > 0,
    decreases fuel,
{
    if fuel == 0 || !forest.is_live(handle) {
    } else {
        match forest.parent(handle) {
            None => {},
            Some(above) => {
                lemma_chain_shape(forest, above, (fuel - 1) as nat);
                let rest = forest.chain(above, (fuel - 1) as nat);
                let whole = forest.chain(handle, fuel);
                assert(forest.kids(above).contains(handle));
                assert forall|i: int| 1 <= i < whole.len() implies forest.kids(
                    #[trigger] whole[i],
                ).len() > 0 by {
                    assert(whole[i] == rest[i - 1]);
                    if i == 1 {
                        assert(rest[0] == above);
                    }
                }
            },
        }
    }
}

} // verus!
