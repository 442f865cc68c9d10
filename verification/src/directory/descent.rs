//! What lies below a node: the walks of a well-formed forest reach every
//! descendant, and each once.
use crate::directory::forest::{
    lemma_ancestors_unfold, lemma_chain_bounded, lemma_chain_rising, lemma_walk_all_live,
    lemma_walk_live, Forest,
};
use vstd::prelude::*;
use vstd::seq_lib::lemma_no_dup_in_concat;

verus! {

/// From any of its nodes on, a chain of ancestors is the chain of that node.
pub proof fn lemma_ancestors_suffix(forest: Forest, handle: int, at: int)
    requires
        forest.wf(),
        forest.is_live(handle),
        0 <= at < forest.ancestors(handle).len(),
    ensures
        forest.is_live(forest.ancestors(handle)[at]),
        forest.ancestors(handle).skip(at) == forest.ancestors(forest.ancestors(handle)[at]),
    decreases at,
{
    lemma_ancestors_unfold(forest, handle);
    let chain = forest.ancestors(handle);
    if at == 0 {
        assert(chain.skip(0) == chain);
    } else {
        let above = forest.parent(handle)->0;
        assert(forest.is_live(above));
        let rest = forest.ancestors(above);
        assert(chain == seq![handle] + rest);
        assert(chain[at] == rest[at - 1]);
        lemma_ancestors_suffix(forest, above, at - 1);
        assert(chain.skip(at) =~= rest.skip(at - 1));
    }
}

/// What lies above a node's parent lies above the node, and the parent of
/// what lies above a node lies above it too.
pub proof fn lemma_above_parent(forest: Forest, above: int, handle: int)
    requires
        forest.wf(),
        forest.is_live(handle),
        forest.is_above(above, handle),
        forest.is_live(above) ==> forest.parent(above) is Some,
    ensures
        forest.is_live(above),
        forest.is_above(forest.parent(above)->0, handle),
{
    let chain = forest.ancestors(handle);
    let at = choose|at: int| 0 <= at < chain.len() && chain[at] == above;
    lemma_ancestors_suffix(forest, handle, at);
    lemma_ancestors_unfold(forest, above);
    let up = forest.parent(above)->0;
    assert(forest.is_live(up));
    lemma_ancestors_unfold(forest, up);
    assert(chain.skip(at)[1] == up);
    assert(chain[at + 1] == up);
}

/// Whether each of `handles` is a node whose chain of ancestors is so long
/// that `fuel` reaches all that lies below it.
pub open spec fn reaches_all(forest: Forest, handles: Seq<int>, fuel: nat) -> bool {
    forall|i: int|
        0 <= i < handles.len() ==> forest.is_live(#[trigger] handles[i]) && fuel
            + forest.ancestors(handles[i]).len() >= forest.size() + 1
}

/// The children of a node have one ancestor more than the node.
pub proof fn lemma_kids_deeper(forest: Forest, handle: int, fuel: nat)
    requires
        forest.wf(),
        forest.is_live(handle),
        fuel + forest.ancestors(handle).len() >= forest.size() + 1,
    ensures
        fuel >= 1,
        reaches_all(forest, forest.kids(handle), (fuel - 1) as nat),
{
    lemma_chain_bounded(forest, handle, forest.size());
    let kids = forest.kids(handle);
    assert forall|i: int| 0 <= i < kids.len() implies forest.is_live(#[trigger] kids[i]) && (fuel
        - 1) as nat + forest.ancestors(kids[i]).len() >= forest.size() + 1 by {
        assert(forest.is_live(kids[i]) && forest.parent(kids[i]) == Some(handle));
        lemma_ancestors_unfold(forest, kids[i]);
    }
}

/// More fuel than the depth of what lies below a node changes no walk.
pub proof fn lemma_walk_saturated(forest: Forest, handle: int, less: nat, more: nat)
    requires
        forest.wf(),
        forest.is_live(handle),
        less <= more,
        less + forest.ancestors(handle).len() >= forest.size() + 1,
    ensures
        forest.walk(handle, less) == forest.walk(handle, more),
    decreases less, 0nat,
{
    lemma_kids_deeper(forest, handle, less);
    lemma_walk_all_saturated(
        forest,
        forest.kids(handle),
        (less - 1) as nat,
        (more - 1) as nat,
    );
}

/// More fuel than the depth of what lies below the nodes changes no row of
/// walks.
pub proof fn lemma_walk_all_saturated(forest: Forest, handles: Seq<int>, less: nat, more: nat)
    requires
        forest.wf(),
        less <= more,
        reaches_all(forest, handles, less),
    ensures
        forest.walk_all(handles, less) == forest.walk_all(handles, more),
    decreases less, handles.len() + 1,
{
    if handles.len() > 0 {
        let front = handles.drop_last();
        assert(reaches_all(forest, front, less)) by {
            assert forall|i: int| 0 <= i < front.len() implies forest.is_live(
                #[trigger] front[i],
            ) && less + forest.ancestors(front[i]).len() >= forest.size() + 1 by {
                assert(front[i] == handles[i]);
            }
        }
        lemma_walk_all_saturated(forest, front, less, more);
        assert(forest.is_live(handles[handles.len() - 1]));
        lemma_walk_saturated(forest, handles.last(), less, more);
    }
}

/// What lies below a node is the node and what lies below its children,
/// child after child.
pub proof fn lemma_descendants_unfold(forest: Forest, handle: int)
    requires
        forest.wf(),
        forest.is_live(handle),
    ensures
        forest.descendants(handle) == seq![handle] + forest.walk_all(
            forest.kids(handle),
            forest.size(),
        ),
        forest.descendants(handle)[0] == handle,
        forall|more: nat|
            more >= forest.size() ==> #[trigger] forest.walk(handle, more) == forest.descendants(
                handle,
            ),
{
    lemma_ancestors_unfold(forest, handle);
    lemma_kids_deeper(forest, handle, forest.size());
    lemma_walk_all_saturated(
        forest,
        forest.kids(handle),
        (forest.size() - 1) as nat,
        forest.size(),
    );
    assert forall|more: nat| more >= forest.size() implies #[trigger] forest.walk(handle, more)
        == forest.descendants(handle) by {
        lemma_walk_saturated(forest, handle, forest.size(), more);
    }
}

/// What a row of walks holds is what one of the walks holds.
pub proof fn lemma_walk_all_members(forest: Forest, handles: Seq<int>, fuel: nat, x: int)
    ensures
        forest.walk_all(handles, fuel).contains(x) <==> exists|i: int|
            0 <= i < handles.len() && forest.walk(#[trigger] handles[i], fuel).contains(x),
    decreases handles.len(),
{
    if handles.len() > 0 {
        let front = handles.drop_last();
        lemma_walk_all_members(forest, front, fuel, x);
        let a = forest.walk_all(front, fuel);
        let b = forest.walk(handles.last(), fuel);
        let whole = forest.walk_all(handles, fuel);
        assert(whole == a + b);
        if whole.contains(x) {
            let k = choose|k: int| 0 <= k < whole.len() && whole[k] == x;
            if k < a.len() {
                assert(a[k] == x);
                assert(a.contains(x));
                let i = choose|i: int|
                    0 <= i < front.len() && forest.walk(#[trigger] front[i], fuel).contains(x);
                assert(handles[i] == front[i]);
            } else {
                assert(b[k - a.len()] == x);
                assert(forest.walk(handles[handles.len() - 1], fuel).contains(x));
            }
        }
        if exists|i: int|
            0 <= i < handles.len() && forest.walk(#[trigger] handles[i], fuel).contains(x) {
            let i = choose|i: int|
                0 <= i < handles.len() && forest.walk(#[trigger] handles[i], fuel).contains(x);
            if i < front.len() {
                assert(front[i] == handles[i]);
                assert(a.contains(x));
                let k = choose|k: int| 0 <= k < a.len() && a[k] == x;
                assert(whole[k] == x);
            } else {
                let k = choose|k: int| 0 <= k < b.len() && b[k] == x;
                assert(whole[a.len() + k] == x);
            }
        }
    }
}

/// What a walk from a node holds lies below the node.
pub proof fn lemma_walk_below(forest: Forest, handle: int, fuel: nat, x: int)
    requires
        forest.wf(),
        forest.walk(handle, fuel).contains(x),
    ensures
        forest.is_live(x),
        forest.is_above(handle, x),
    decreases fuel,
{
    lemma_walk_live(forest, handle, fuel);
    let walk = forest.walk(handle, fuel);
    let k = choose|k: int| 0 <= k < walk.len() && walk[k] == x;
    assert(forest.is_live(walk[k]));
    if k == 0 {
        lemma_ancestors_unfold(forest, handle);
    } else {
        let kids = forest.kids(handle);
        let below = forest.walk_all(kids, (fuel - 1) as nat);
        assert(below[k - 1] == x);
        assert(below.contains(x));
        lemma_walk_all_members(forest, kids, (fuel - 1) as nat, x);
        let i = choose|i: int|
            0 <= i < kids.len() && forest.walk(#[trigger] kids[i], (fuel - 1) as nat).contains(x);
        lemma_walk_below(forest, kids[i], (fuel - 1) as nat, x);
        assert(forest.parent(kids[i]) == Some(handle));
        lemma_above_parent(forest, kids[i], x);
    }
}

/// With one unit of fuel more, a walk holds the children of all it held.
proof fn lemma_walk_kids(forest: Forest, handle: int, fuel: nat, x: int, child: int)
    requires
        forest.wf(),
        forest.walk(handle, fuel).contains(x),
        forest.is_live(child),
        forest.parent(child) == Some(x),
    ensures
        forest.walk(handle, fuel + 1).contains(child),
    decreases fuel,
{
    let walk = forest.walk(handle, fuel);
    let longer = forest.walk(handle, fuel + 1);
    let k = choose|k: int| 0 <= k < walk.len() && walk[k] == x;
    let kids = forest.kids(handle);
    let deep = forest.walk_all(kids, fuel);
    assert(longer == seq![handle] + deep);
    if k == 0 {
        assert(kids.contains(child));
        let i = choose|i: int| 0 <= i < kids.len() && kids[i] == child;
        assert(forest.walk(kids[i], fuel)[0] == child);
        lemma_walk_all_members(forest, kids, fuel, child);
        let m = choose|m: int| 0 <= m < deep.len() && deep[m] == child;
        assert(longer[m + 1] == child);
    } else {
        let below = forest.walk_all(kids, (fuel - 1) as nat);
        assert(below[k - 1] == x);
        assert(below.contains(x));
        lemma_walk_all_members(forest, kids, (fuel - 1) as nat, x);
        let i = choose|i: int|
            0 <= i < kids.len() && forest.walk(#[trigger] kids[i], (fuel - 1) as nat).contains(x);
        lemma_walk_kids(forest, kids[i], (fuel - 1) as nat, x, child);
        lemma_walk_all_members(forest, kids, fuel, child);
        let m = choose|m: int| 0 <= m < deep.len() && deep[m] == child;
        assert(longer[m + 1] == child);
    }
}

/// What lies below a node is reached from it: if `handle` is `x` or lies
/// above it, then `x` is among the descendants of `handle`.
pub proof fn lemma_below_walked(forest: Forest, handle: int, x: int)
    requires
        forest.wf(),
        forest.is_live(x),
        forest.is_above(handle, x),
    ensures
        forest.is_live(handle),
        forest.descendants(handle).contains(x),
{
    let chain = forest.ancestors(x);
    let top = choose|top: int| 0 <= top < chain.len() && chain[top] == handle;
    lemma_ancestors_suffix(forest, x, top);
    lemma_descendants_unfold(forest, handle);
    lemma_reached_down(forest, handle, x, top, 0);
    lemma_ancestors_unfold(forest, x);
}

/// Going down the chain of ancestors of `x` from `handle`, every node is
/// among the descendants of `handle`.
proof fn lemma_reached_down(forest: Forest, handle: int, x: int, top: int, at: int)
    requires
        forest.wf(),
        forest.is_live(x),
        forest.is_live(handle),
        0 <= at <= top < forest.ancestors(x).len(),
        forest.ancestors(x)[top] == handle,
    ensures
        forest.descendants(handle).contains(forest.ancestors(x)[at]),
    decreases top - at,
{
    let chain = forest.ancestors(x);
    lemma_descendants_unfold(forest, handle);
    if at == top {
    } else {
        lemma_reached_down(forest, handle, x, top, at + 1);
        lemma_ancestors_suffix(forest, x, at);
        let here = chain[at];
        lemma_ancestors_unfold(forest, here);
        assert(chain.skip(at)[1] == chain[at + 1]);
        assert(forest.parent(here) == Some(chain[at + 1]));
        lemma_walk_kids(forest, handle, forest.size(), chain[at + 1], here);
        assert(forest.walk(handle, (forest.size() + 1) as nat) == forest.descendants(handle));
    }
}

/// Whether all of `handles` are children of `above`, each once.
pub open spec fn siblings(forest: Forest, handles: Seq<int>, above: int) -> bool {
    &&& handles.no_duplicates()
    &&& forall|i: int|
        0 <= i < handles.len() ==> forest.is_live(#[trigger] handles[i]) && forest.parent(
            handles[i],
        ) == Some(above)
}

/// No walk holds a node twice.
pub proof fn lemma_walk_no_duplicates(forest: Forest, handle: int, fuel: nat)
    requires
        forest.wf(),
    ensures
        forest.walk(handle, fuel).no_duplicates(),
    decreases fuel, 0nat,
{
    if fuel == 0 || !forest.is_live(handle) {
    } else {
        let kids = forest.kids(handle);
        let below = forest.walk_all(kids, (fuel - 1) as nat);
        assert(siblings(forest, kids, handle)) by {
            assert forall|i: int| 0 <= i < kids.len() implies forest.is_live(#[trigger] kids[i])
                && forest.parent(kids[i]) == Some(handle) by {
                assert(forest.is_live(forest.kids(handle)[i]));
            }
        }
        lemma_walk_all_no_duplicates(forest, kids, handle, (fuel - 1) as nat);
        assert(!below.contains(handle)) by {
            if below.contains(handle) {
                lemma_walk_all_members(forest, kids, (fuel - 1) as nat, handle);
                let i = choose|i: int|
                    0 <= i < kids.len() && forest.walk(
                        #[trigger] kids[i],
                        (fuel - 1) as nat,
                    ).contains(handle);
                lemma_walk_below(forest, kids[i], (fuel - 1) as nat, handle);
                // The child lies above its parent: the ranks say otherwise.
                let chain = forest.ancestors(handle);
                let at = choose|at: int| 0 <= at < chain.len() && chain[at] == kids[i];
                lemma_ancestors_unfold(forest, handle);
                lemma_chain_rising(forest, forest.ranking(), handle, forest.size());
                assert(forest.parent(kids[i]) == Some(handle));
                if at > 0 {
                    assert(forest.ranking()[chain[0] - 1] < forest.ranking()[chain[at] - 1]);
                }
            }
        }
        let first = seq![handle];
        assert(first.no_duplicates());
        assert forall|i: int, j: int| 0 <= i < first.len() && 0 <= j < below.len() implies first[i]
            != below[j] by {
            assert(below.contains(below[j]));
        }
        lemma_no_dup_in_concat(first, below);
    }
}

/// No row of walks from different children of one node holds a node twice.
pub proof fn lemma_walk_all_no_duplicates(
    forest: Forest,
    handles: Seq<int>,
    above: int,
    fuel: nat,
)
    requires
        forest.wf(),
        siblings(forest, handles, above),
    ensures
        forest.walk_all(handles, fuel).no_duplicates(),
    decreases fuel, handles.len() + 1,
{
    if handles.len() > 0 {
        let front = handles.drop_last();
        let last = handles.last();
        assert(siblings(forest, front, above)) by {
            assert forall|i: int| 0 <= i < front.len() implies forest.is_live(#[trigger] front[i])
                && forest.parent(front[i]) == Some(above) by {
                assert(front[i] == handles[i]);
            }
        }
        lemma_walk_all_no_duplicates(forest, front, above, fuel);
        lemma_walk_no_duplicates(forest, last, fuel);
        let a = forest.walk_all(front, fuel);
        let b = forest.walk(last, fuel);
        assert forall|i: int, j: int| 0 <= i < a.len() && 0 <= j < b.len() implies a[i]
            != b[j] by {
            if a[i] == b[j] {
                let x = a[i];
                assert(a.contains(x));
                assert(b.contains(x));
                lemma_walk_all_members(forest, front, fuel, x);
                let k = choose|k: int|
                    0 <= k < front.len() && forest.walk(#[trigger] front[k], fuel).contains(x);
                assert(front[k] == handles[k]);
                lemma_walk_below(forest, front[k], fuel, x);
                lemma_walk_below(forest, last, fuel, x);
                lemma_two_above(forest, x, front[k], last, above);
                assert(handles[k] == handles[handles.len() - 1]);
            }
        }
        lemma_no_dup_in_concat(a, b);
    }
}

/// Two children of one node that both lie above a node are one child.
proof fn lemma_two_above(forest: Forest, x: int, first: int, second: int, above: int)
    requires
        forest.wf(),
        forest.is_live(x),
        forest.is_above(first, x),
        forest.is_above(second, x),
        forest.is_live(first) ==> forest.parent(first) == Some(above),
        forest.is_live(second) ==> forest.parent(second) == Some(above),
    ensures
        first == second,
{
    let chain = forest.ancestors(x);
    let i = choose|i: int| 0 <= i < chain.len() && chain[i] == first;
    let j = choose|j: int| 0 <= j < chain.len() && chain[j] == second;
    lemma_ancestors_suffix(forest, x, i);
    lemma_ancestors_suffix(forest, x, j);
    lemma_ancestors_unfold(forest, first);
    lemma_ancestors_unfold(forest, second);
    assert(forest.is_live(above));
    lemma_ancestors_unfold(forest, above);
    assert(chain.skip(i)[1] == above);
    assert(chain.skip(j)[1] == above);
    assert(chain[i + 1] == above);
    assert(chain[j + 1] == above);
    lemma_chain_bounded(forest, x, forest.size());
}

/// The descendants of a node are the nodes that it lies above or is, each
/// once.
pub proof fn lemma_descendants(forest: Forest, handle: int)
    requires
        forest.wf(),
        forest.is_live(handle),
    ensures
        forest.descendants(handle).no_duplicates(),
        forall|x: int|
            #![trigger forest.descendants(handle).contains(x)]
            forest.descendants(handle).contains(x) <==> forest.is_live(x) && forest.is_above(
                handle,
                x,
            ),
{
    lemma_walk_no_duplicates(forest, handle, forest.size());
    assert forall|x: int|
        #![trigger forest.descendants(handle).contains(x)]
        forest.descendants(handle).contains(x) <==> forest.is_live(x) && forest.is_above(
            handle,
            x,
        ) by {
        if forest.descendants(handle).contains(x) {
            lemma_walk_below(forest, handle, forest.size(), x);
        }
        if forest.is_live(x) && forest.is_above(handle, x) {
            lemma_below_walked(forest, handle, x);
        }
    }
}

} // verus!
