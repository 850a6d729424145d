//! What a traversal of a delta tree comes to, whoever takes its steps.
//!
//! A traversal takes a base off the stack, hands it out, and goes through its
//! children: those without children of their own are handed out, the others go
//! on the stack. Any number of threads may do so at once, each with a base of
//! its own. A [`Walk`] is the state between two such steps; the laws hold of
//! every state that steps can lead to.
use vstd::prelude::*;

verus! {

/// The children of each item.
pub type Children = Seq<Seq<u32>>;

/// The state of a traversal.
#[verifier::ext_equal]
pub struct Walk {
    /// The items handed out so far.
    pub emitted: Seq<u32>,
    /// The items on the stack.
    pub nodes: Seq<u32>,
    /// The depth of every item handed out or on the stack.
    pub levels: Map<u32, nat>,
    /// How many children were gone through, for every item taken off the stack.
    pub handled: Map<u32, nat>,
}

/// Every item is the child of at most one item, and that at one place only.
pub open spec fn is_forest(children: Children) -> bool {
    forall|p: int, c: int, q: int, d: int|
        #![trigger children[p][c], children[q][d]]
        0 <= p < children.len() && 0 <= c < children[p].len() && 0 <= q < children.len() && 0 <= d
            < children[q].len() && children[p][c] == children[q][d] ==> p == q && c == d
}

/// Children are items.
pub open spec fn links_in_range(children: Children) -> bool {
    forall|p: int, c: int|
        #![trigger children[p][c]]
        0 <= p < children.len() && 0 <= c < children[p].len() ==> children[p][c] < children.len()
}

/// Nothing has `root` as its child.
pub open spec fn is_root_of(children: Children, root: u32) -> bool {
    &&& root < children.len()
    &&& forall|p: int, c: int|
        #![trigger children[p][c]]
        0 <= p < children.len() && 0 <= c < children[p].len() ==> children[p][c] != root
}

/// `x` lies `depth` steps below `root`.
pub open spec fn is_below(children: Children, root: u32, x: u32, depth: nat) -> bool
    decreases depth,
{
    if depth == 0 {
        x == root
    } else {
        exists|p: u32, c: int|
            #![trigger children[p as int][c]]
            p < children.len() && 0 <= c < children[p as int].len() && children[p as int][c] == x
                && is_below(children, root, p, (depth - 1) as nat)
    }
}

impl Walk {
    /// The beginning of a traversal: `root` on the stack.
    pub open spec fn begun(root: u32) -> Walk {
        Walk {
            emitted: Seq::empty(),
            nodes: seq![root],
            levels: map![root => 0nat],
            handled: Map::empty(),
        }
    }

    /// There is something on the stack.
    pub open spec fn can_pop(self) -> bool {
        self.nodes.len() > 0
    }

    /// Take the last item off the stack and hand it out.
    pub open spec fn pop(self) -> Walk {
        let base = self.nodes.last();
        Walk {
            emitted: self.emitted.push(base),
            nodes: self.nodes.drop_last(),
            handled: self.handled.insert(base, 0),
            ..self
        }
    }

    /// `base` was taken off the stack and has a child that was not gone through.
    pub open spec fn can_step(self, children: Children, base: u32) -> bool {
        &&& self.handled.dom().contains(base)
        &&& base < children.len()
        &&& self.handled[base] < children[base as int].len()
    }

    /// The next child of `base`.
    pub open spec fn next_child(self, children: Children, base: u32) -> u32 {
        children[base as int][self.handled[base] as int]
    }

    /// Go through the next child of `base`: hand it out if it has no children,
    /// else put it on the stack.
    pub open spec fn step(self, children: Children, base: u32) -> Walk {
        let child = self.next_child(children, base);
        let levels = self.levels.insert(child, self.levels[base] + 1);
        let handled = self.handled.insert(base, self.handled[base] + 1);
        if children[child as int].len() == 0 {
            Walk { emitted: self.emitted.push(child), levels, handled, ..self }
        } else {
            Walk { nodes: self.nodes.push(child), levels, handled, ..self }
        }
    }

    /// The stack is empty and every base is done with.
    pub open spec fn is_over(self, children: Children) -> bool {
        &&& self.nodes.len() == 0
        &&& forall|b: u32| #[trigger]
            self.handled.dom().contains(b) ==> self.handled[b] == children[b as int].len()
    }

    /// `x` was handed out or is on the stack.
    pub open spec fn knows(self, x: u32) -> bool {
        self.levels.dom().contains(x)
    }

    /// What holds of every state that steps can lead to.
    pub open spec fn inv(self, children: Children, root: u32) -> bool {
        &&& (self.emitted + self.nodes).no_duplicates()
        &&& forall|x: u32| #[trigger]
            self.knows(x) <==> (self.emitted.contains(x) || self.nodes.contains(x))
        &&& forall|x: u32| #[trigger] self.knows(x) ==> x < children.len()
        &&& forall|x: u32| #[trigger]
            self.handled.dom().contains(x) ==> self.emitted.contains(x) && self.handled[x]
                <= children[x as int].len()
        &&& forall|x: u32| #[trigger]
            self.emitted.contains(x) && children[x as int].len() > 0
                ==> self.handled.dom().contains(x)
        &&& self.knows(root)
        &&& self.levels[root] == 0
        &&& forall|x: u32| #[trigger]
            self.knows(x) && x != root ==> exists|p: u32, c: int|
                #![trigger children[p as int][c]]
                self.came_through(children, x, p, c)
        &&& forall|p: u32, c: int|
            #![trigger children[p as int][c]]
            self.handled.dom().contains(p) && 0 <= c < self.handled[p] ==> self.knows(
                children[p as int][c],
            )
    }

    /// `x` is known because it was child `c` of `p`.
    pub open spec fn came_through(self, children: Children, x: u32, p: u32, c: int) -> bool {
        &&& self.handled.dom().contains(p)
        &&& 0 <= c < self.handled[p]
        &&& children[p as int][c] == x
        &&& self.levels[x] == self.levels[p] + 1
    }
}

/// The invariant holds at the beginning.
pub proof fn lemma_begun(children: Children, root: u32)
    requires
        is_root_of(children, root),
    ensures
        Walk::begun(root).inv(children, root),
{
    let w = Walk::begun(root);
    assert(w.nodes[0] == root);
    assert(w.nodes.contains(root));
    assert(w.emitted + w.nodes =~= seq![root]);
}

/// Taking an item off the stack keeps the invariant.
pub proof fn lemma_pop(w: Walk, children: Children, root: u32)
    requires
        w.inv(children, root),
        w.can_pop(),
    ensures
        w.pop().inv(children, root),
        w.knows(w.nodes.last()),
        !w.handled.dom().contains(w.nodes.last()),
{
    let n = w.pop();
    let base = w.nodes.last();
    assert(w.nodes.contains(base));
    assert(w.knows(base));
    // It was on the stack, so it was not handed out.
    let all = w.emitted + w.nodes;
    assert(all[all.len() - 1] == base);
    assert(!w.emitted.contains(base)) by {
        if w.emitted.contains(base) {
            let i = w.emitted.index_of(base);
            assert(all[i] == base && i != all.len() - 1);
        }
    }
    assert(n.emitted + n.nodes =~= (w.emitted.push(base)) + w.nodes.drop_last());
    let now = n.emitted + n.nodes;
    assert(now.no_duplicates()) by {
        assert forall|i: int, j: int| 0 <= i < j < now.len() implies now[i] != now[j] by {
            let m = w.emitted.len() as int;
            let i0 = if i < m {
                i
            } else if i == m {
                all.len() - 1
            } else {
                i - 1
            };
            let j0 = if j < m {
                j
            } else if j == m {
                all.len() - 1
            } else {
                j - 1
            };
            assert(all[i0] == now[i] && all[j0] == now[j] && i0 != j0);
        }
    }
    assert forall|x: u32| #[trigger] n.knows(x) <==> (n.emitted.contains(x) || n.nodes.contains(x)) by {
        assert(n.knows(x) == w.knows(x));
        if w.emitted.contains(x) {
            let i = w.emitted.index_of(x);
            assert(n.emitted[i] == x);
        }
        if w.nodes.contains(x) {
            let i = w.nodes.index_of(x);
            if i == w.nodes.len() - 1 {
                assert(n.emitted[w.emitted.len() as int] == x);
            } else {
                assert(n.nodes[i] == x);
            }
        }
        if n.emitted.contains(x) {
            let i = n.emitted.index_of(x);
            if i < w.emitted.len() {
                assert(w.emitted[i] == x);
            } else {
                assert(x == base);
            }
        }
        if n.nodes.contains(x) {
            let i = n.nodes.index_of(x);
            assert(w.nodes[i] == x);
        }
    }
    assert forall|x: u32| #[trigger] n.handled.dom().contains(x) implies n.emitted.contains(x)
        && n.handled[x] <= children[x as int].len() by {
        if x == base {
            assert(n.emitted[w.emitted.len() as int] == x);
        } else {
            assert(w.handled.dom().contains(x));
            assert(n.emitted[w.emitted.index_of(x)] == x);
        }
    }
    assert forall|x: u32| #[trigger]
        n.emitted.contains(x) && children[x as int].len() > 0 implies n.handled.dom().contains(x) by {
        let i = n.emitted.index_of(x);
        if i < w.emitted.len() {
            assert(w.emitted[i] == x);
            assert(w.emitted.contains(x));
        }
    }
    assert forall|x: u32| #[trigger] n.knows(x) && x != root implies exists|p: u32, c: int|
        #![trigger children[p as int][c]]
        n.came_through(children, x, p, c) by {
        assert(w.knows(x));
        let (p, c) = choose|p: u32, c: int|
            #![trigger children[p as int][c]]
            w.came_through(children, x, p, c);
        assert(p != base);
        assert(n.came_through(children, x, p, c));
        assert(children[p as int][c] == x);
    }
    assert forall|p: u32, c: int|
        #![trigger children[p as int][c]]
        n.handled.dom().contains(p) && 0 <= c < n.handled[p] implies n.knows(
        children[p as int][c],
    ) by {
        assert(p != base);
        assert(w.knows(children[p as int][c]));
    }
}

/// A child that was not gone through yet is new.
pub proof fn lemma_child_is_new(w: Walk, children: Children, root: u32, base: u32)
    requires
        w.inv(children, root),
        is_forest(children),
        is_root_of(children, root),
        w.can_step(children, base),
    ensures
        !w.knows(w.next_child(children, base)),
{
    let x = w.next_child(children, base);
    let at = w.handled[base] as int;
    assert(children[base as int][at] == x);
    if w.knows(x) {
        assert(x != root);
        let (p, c) = choose|p: u32, c: int|
            #![trigger children[p as int][c]]
            w.came_through(children, x, p, c);
        assert(w.handled.dom().contains(p));
        assert(w.emitted.contains(p));
        assert(w.knows(p));
        assert(children[p as int][c] == children[base as int][at]);
    }
}

/// Going through a child keeps the invariant.
pub proof fn lemma_step(w: Walk, children: Children, root: u32, base: u32)
    requires
        w.inv(children, root),
        is_forest(children),
        links_in_range(children),
        is_root_of(children, root),
        w.can_step(children, base),
    ensures
        w.step(children, base).inv(children, root),
{
    let n = w.step(children, base);
    let x = w.next_child(children, base);
    let at = w.handled[base] as int;
    lemma_child_is_new(w, children, root, base);
    assert(children[base as int][at] == x);
    assert(x < children.len());
    assert(!w.emitted.contains(x) && !w.nodes.contains(x));
    assert(w.emitted.contains(base));
    assert(w.knows(base));
    assert(base != x);
    let leaf = children[x as int].len() == 0;
    let all = w.emitted + w.nodes;
    let now = n.emitted + n.nodes;
    let m = w.emitted.len() as int;
    assert(now.no_duplicates()) by {
        assert forall|i: int, j: int| 0 <= i < j < now.len() implies now[i] != now[j] by {
            let at_x = if leaf {
                m
            } else {
                all.len() as int
            };
            let i0 = if leaf && i > m {
                i - 1
            } else {
                i
            };
            let j0 = if leaf && j > m {
                j - 1
            } else {
                j
            };
            assert(now[at_x] == x);
            assert forall|k: int| 0 <= k < all.len() implies #[trigger] all[k] != x by {
                if k < m {
                    assert(w.emitted[k] == all[k]);
                    assert(w.emitted.contains(all[k]));
                } else {
                    assert(w.nodes[k - m] == all[k]);
                    assert(w.nodes.contains(all[k]));
                }
            }
            if i != at_x {
                assert(all[i0] == now[i]);
            }
            if j != at_x {
                assert(all[j0] == now[j]);
            }
        }
    }
    assert forall|y: u32| #[trigger] n.knows(y) <==> (n.emitted.contains(y) || n.nodes.contains(y)) by {
        assert(n.knows(y) <==> (w.knows(y) || y == x));
        if w.emitted.contains(y) {
            assert(n.emitted[w.emitted.index_of(y)] == y);
        }
        if w.nodes.contains(y) {
            assert(n.nodes[w.nodes.index_of(y)] == y);
        }
        if leaf {
            assert(n.emitted[m] == x);
        } else {
            assert(n.nodes[w.nodes.len() as int] == x);
        }
        if n.emitted.contains(y) {
            let i = n.emitted.index_of(y);
            if i < m {
                assert(w.emitted[i] == y);
            }
        }
        if n.nodes.contains(y) {
            let i = n.nodes.index_of(y);
            if i < w.nodes.len() {
                assert(w.nodes[i] == y);
            }
        }
    }
    assert forall|y: u32| #[trigger] n.handled.dom().contains(y) implies n.emitted.contains(y)
        && n.handled[y] <= children[y as int].len() by {
        assert(w.handled.dom().contains(y));
        assert(n.emitted[w.emitted.index_of(y)] == y);
    }
    assert forall|y: u32| #[trigger]
        n.emitted.contains(y) && children[y as int].len() > 0 implies n.handled.dom().contains(y) by {
        let i = n.emitted.index_of(y);
        if i < m {
            assert(w.emitted[i] == y);
            assert(w.emitted.contains(y));
        } else {
            assert(y == x);
        }
    }
    assert(x != root) by {
        assert(w.knows(root));
    }
    assert forall|y: u32| #[trigger] n.knows(y) && y != root implies exists|p: u32, c: int|
        #![trigger children[p as int][c]]
        n.came_through(children, y, p, c) by {
        if y == x {
            assert(n.came_through(children, x, base, at));
            assert(children[base as int][at] == x);
        } else {
            assert(w.knows(y));
            let (p, c) = choose|p: u32, c: int|
                #![trigger children[p as int][c]]
                w.came_through(children, y, p, c);
            assert(w.emitted.contains(p));
            assert(w.knows(p));
            assert(p != x);
            assert(n.came_through(children, y, p, c));
            assert(children[p as int][c] == y);
        }
    }
    assert forall|p: u32, c: int|
        #![trigger children[p as int][c]]
        n.handled.dom().contains(p) && 0 <= c < n.handled[p] implies n.knows(
        children[p as int][c],
    ) by {
        assert(w.handled.dom().contains(p));
        if p == base && c == at {
            assert(n.knows(x));
        } else {
            assert(w.knows(children[p as int][c]));
        }
    }
}

/// When a traversal is over, every item below its root was handed out, exactly
/// once, and with its depth as its level.
pub proof fn law_every_item_is_handed_out_once(
    w: Walk,
    children: Children,
    root: u32,
    x: u32,
    depth: nat,
)
    requires
        w.inv(children, root),
        is_forest(children),
        is_root_of(children, root),
        w.is_over(children),
        is_below(children, root, x, depth),
    ensures
        w.emitted.contains(x),
        w.emitted.no_duplicates(),
        w.levels[x] == depth,
    decreases depth,
{
    assert(w.emitted + w.nodes =~= w.emitted);
    if depth == 0 {
        assert(w.knows(root));
    } else {
        let (p, c) = choose|p: u32, c: int|
            #![trigger children[p as int][c]]
            p < children.len() && 0 <= c < children[p as int].len() && children[p as int][c] == x
                && is_below(children, root, p, (depth - 1) as nat);
        law_every_item_is_handed_out_once(w, children, root, p, (depth - 1) as nat);
        assert(w.emitted.contains(p));
        assert(w.handled.dom().contains(p));
        assert(w.handled[p] == children[p as int].len());
        assert(w.knows(children[p as int][c]));
        assert(x != root);
        let (q, d) = choose|q: u32, d: int|
            #![trigger children[q as int][d]]
            w.came_through(children, x, q, d);
        assert(w.emitted.contains(q));
        assert(w.knows(q));
        assert(children[q as int][d] == children[p as int][c]);
    }
}

/// Nothing but items below the root is handed out, each with its depth as its level.
pub proof fn law_only_items_below_are_handed_out(w: Walk, children: Children, root: u32, x: u32)
    requires
        w.inv(children, root),
        w.knows(x),
    ensures
        is_below(children, root, x, w.levels[x]),
    decreases w.levels[x],
{
    if x == root {
    } else {
        let (p, c) = choose|p: u32, c: int|
            #![trigger children[p as int][c]]
            w.came_through(children, x, p, c);
        assert(w.emitted.contains(p));
        assert(w.knows(p));
        law_only_items_below_are_handed_out(w, children, root, p);
        assert(children[p as int][c] == x);
        assert(is_below(children, root, p, (w.levels[x] - 1) as nat));
    }
}

/// Two roots share no item.
pub proof fn law_roots_share_nothing(
    children: Children,
    a: u32,
    b: u32,
    x: u32,
    depth_a: nat,
    depth_b: nat,
)
    requires
        is_forest(children),
        is_root_of(children, a),
        is_root_of(children, b),
        is_below(children, a, x, depth_a),
        is_below(children, b, x, depth_b),
    ensures
        a == b,
        depth_a == depth_b,
    decreases depth_a,
{
    if depth_a == 0 {
        if depth_b > 0 {
            let (p, c) = choose|p: u32, c: int|
                #![trigger children[p as int][c]]
                p < children.len() && 0 <= c < children[p as int].len() && children[p as int][c]
                    == x && is_below(children, b, p, (depth_b - 1) as nat);
            assert(children[p as int][c] != a);
        }
    } else {
        let (p, c) = choose|p: u32, c: int|
            #![trigger children[p as int][c]]
            p < children.len() && 0 <= c < children[p as int].len() && children[p as int][c] == x
                && is_below(children, a, p, (depth_a - 1) as nat);
        if depth_b == 0 {
            assert(children[p as int][c] != b);
        } else {
            let (q, d) = choose|q: u32, d: int|
                #![trigger children[q as int][d]]
                q < children.len() && 0 <= d < children[q as int].len() && children[q as int][d]
                    == x && is_below(children, b, q, (depth_b - 1) as nat);
            assert(children[p as int][c] == children[q as int][d]);
            law_roots_share_nothing(
                children,
                a,
                b,
                p,
                (depth_a - 1) as nat,
                (depth_b - 1) as nat,
            );
        }
    }
}

/// The children of a base are gone through in their order, and each lies one step
/// below its base. One that has children of its own is the next base to be taken,
/// before all that waited already, and one that has none is handed out at once.
pub proof fn law_children_are_gone_through_in_order(w: Walk, children: Children, base: u32)
    requires
        w.can_step(children, base),
    ensures
        ({
            let child = children[base as int][w.handled[base] as int];
            let next = w.step(children, base);
            &&& next.levels[child] == w.levels[base] + 1
            &&& base != child ==> next.handled[base] == w.handled[base] + 1
            &&& children[child as int].len() == 0 ==> next.nodes == w.nodes && next.emitted
                == w.emitted.push(child)
            &&& children[child as int].len() > 0 ==> {
                &&& next.emitted == w.emitted
                &&& next.can_pop()
                &&& next.pop().emitted == w.emitted.push(child)
                &&& next.pop().nodes == w.nodes
                &&& next.pop().handled[child] == 0
            }
        }),
{
    let next = w.step(children, base);
    assert(next.nodes.len() > 0 ==> next.nodes.drop_last().push(next.nodes.last()) =~= next.nodes);
    let child = children[base as int][w.handled[base] as int];
    assert(w.nodes.push(child).drop_last() =~= w.nodes);
}

} // verus!
