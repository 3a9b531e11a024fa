//! Why the visiting order of a forest is sound: it holds every node exactly
//! once, and every base before its deltas.

use vstd::prelude::*;
use vstd::seq_lib::lemma_no_dup_in_concat;
use vstd::set_lib::{lemma_int_range, set_int_range};
use crate::forest::ForestView;

verus! {

/// A number is in a concatenation if and only if it is in one of the parts.
pub proof fn lemma_concat_contains(a: Seq<int>, b: Seq<int>, x: int)
    ensures
        (a + b).contains(x) <==> a.contains(x) || b.contains(x),
{
    if (a + b).contains(x) {
        let i = choose|i: int| 0 <= i < (a + b).len() && (a + b)[i] == x;
        if i < a.len() {
            assert(a[i] == x);
        } else {
            assert(b[i - a.len()] == x);
        }
    }
    if a.contains(x) {
        let i = choose|i: int| 0 <= i < a.len() && a[i] == x;
        assert((a + b)[i] == x);
    }
    if b.contains(x) {
        let i = choose|i: int| 0 <= i < b.len() && b[i] == x;
        assert((a + b)[a.len() + i] == x);
    }
}

impl ForestView {
    /// Whether `a` is `x` itself or one of the bases on the way from `x` to
    /// the root of its tree.
    pub open spec fn descends(self, x: int, a: int) -> bool
        decreases x,
    {
        if x == a {
            true
        } else if 0 <= x < self.nodes.len() {
            match self.nodes[x].base {
                Some(base) => base < x && self.descends(base as int, a),
                None => false,
            }
        } else {
            false
        }
    }

    /// Whether `x` is in the tree of the child of `a` at position `k`.
    pub open spec fn below_child(self, a: int, k: int, x: int) -> bool {
        0 <= k < self.nodes[a].children.len() && self.subtree(
            self.nodes[a].children[k] as int,
        ).contains(x)
    }

    /// Whether `x` is in the tree of the root at position `k`.
    pub open spec fn below_root(self, k: int, x: int) -> bool {
        0 <= k < self.roots.len() && self.subtree(self.roots[k] as int).contains(x)
    }

    /// A node never comes before a node it descends from.
    pub proof fn lemma_descendant_is_later(self, x: int, a: int)
        requires
            self.descends(x, a),
        ensures
            a <= x,
        decreases x,
    {
        if x != a {
            self.lemma_descendant_is_later(self.nodes[x].base->0 as int, a);
        }
    }

    /// Descent is transitive.
    pub proof fn lemma_descends_further(self, x: int, c: int, a: int)
        requires
            self.descends(x, c),
            self.descends(c, a),
        ensures
            self.descends(x, a),
        decreases x,
    {
        if x != c && x != a {
            self.lemma_descends_further(self.nodes[x].base->0 as int, c, a);
        }
    }

    /// Two nodes that a third descends from lie on one line: the later
    /// descends from the earlier.
    pub proof fn lemma_ancestors_in_line(self, x: int, c1: int, c2: int)
        requires
            self.descends(x, c1),
            self.descends(x, c2),
            c1 <= c2,
        ensures
            self.descends(c2, c1),
        decreases x,
    {
        if x != c2 {
            self.lemma_descendant_is_later(x, c2);
            self.lemma_ancestors_in_line(self.nodes[x].base->0 as int, c1, c2);
        }
    }

    /// Every node in the tree below `a` descends from `a`.
    pub proof fn lemma_subtree_members(self, a: int)
        requires
            self.well_formed(),
            0 <= a < self.nodes.len(),
        ensures
            self.subtree(a).len() > 0,
            self.subtree(a)[0] == a,
            forall|x: int| #[trigger]
                self.subtree(a).contains(x) ==> self.descends(x, a) && a <= x < self.nodes.len(),
        decreases self.nodes.len() - a, self.nodes[a].children.len() + 1,
    {
        self.lemma_subtrees_members(a, 0);
        assert forall|x: int| #[trigger] self.subtree(a).contains(x) implies self.descends(x, a)
            && a <= x < self.nodes.len() by {
            lemma_concat_contains(seq![a], self.subtrees(a, 0), x);
            if seq![a].contains(x) {
                let i = choose|i: int| 0 <= i < seq![a].len() && seq![a][i] == x;
                assert(x == a);
            }
        }
    }

    /// Every node in the trees of the children of `a` from position `from`
    /// on is in the tree of one of those children, and descends from `a`.
    pub proof fn lemma_subtrees_members(self, a: int, from: int)
        requires
            self.well_formed(),
            0 <= a < self.nodes.len(),
            0 <= from,
        ensures
            forall|x: int| #[trigger]
                self.subtrees(a, from).contains(x) ==> self.descends(x, a) && a < x
                    < self.nodes.len() && exists|k: int|
                    from <= k && #[trigger] self.below_child(a, k, x),
        decreases self.nodes.len() - a, self.nodes[a].children.len() - from,
    {
        let children = self.nodes[a].children;
        assert(self.node_ok(a));
        if from < children.len() {
            let child = children[from] as int;
            assert(a < child < self.nodes.len());
            self.lemma_subtree_members(child);
            self.lemma_subtrees_members(a, from + 1);
            assert forall|x: int| #[trigger] self.subtrees(a, from).contains(x) implies self.descends(
                x,
                a,
            ) && a < x < self.nodes.len() && exists|k: int|
                from <= k && #[trigger] self.below_child(a, k, x) by {
                lemma_concat_contains(self.subtree(child), self.subtrees(a, from + 1), x);
                if self.subtree(child).contains(x) {
                    assert(self.below_child(a, from, x));
                    assert(self.descends(a, a));
                    assert(self.descends(child, a));
                    self.lemma_descends_further(x, child, a);
                } else {
                    let k = choose|k: int| from + 1 <= k && #[trigger] self.below_child(a, k, x);
                    assert(self.below_child(a, k, x));
                }
            }
        }
    }

    /// The tree of a child is part of the trees of the children from any
    /// position up to it.
    pub proof fn lemma_subtrees_include(self, a: int, from: int, k: int, x: int)
        requires
            self.well_formed(),
            0 <= a < self.nodes.len(),
            0 <= from <= k,
            self.below_child(a, k, x),
        ensures
            self.subtrees(a, from).contains(x),
        decreases k - from,
    {
        let children = self.nodes[a].children;
        assert(self.node_ok(a));
        let child = children[from] as int;
        assert(a < child < self.nodes.len());
        lemma_concat_contains(self.subtree(child), self.subtrees(a, from + 1), x);
        if from < k {
            self.lemma_subtrees_include(a, from + 1, k, x);
        }
    }

    /// No node comes twice in the tree below `a`.
    pub proof fn lemma_subtree_distinct(self, a: int)
        requires
            self.well_formed(),
            0 <= a < self.nodes.len(),
        ensures
            self.subtree(a).no_duplicates(),
        decreases self.nodes.len() - a, self.nodes[a].children.len() + 1,
    {
        self.lemma_subtrees_distinct(a, 0);
        self.lemma_subtrees_members(a, 0);
        let rest = self.subtrees(a, 0);
        assert forall|i: int, j: int| 0 <= i < seq![a].len() && 0 <= j < rest.len() implies seq![
            a,
        ][i] != rest[j] by {
            assert(rest.contains(rest[j]));
        }
        lemma_no_dup_in_concat(seq![a], rest);
    }

    /// No node comes twice in the trees of the children of `a`.
    pub proof fn lemma_subtrees_distinct(self, a: int, from: int)
        requires
            self.well_formed(),
            0 <= a < self.nodes.len(),
            0 <= from,
        ensures
            self.subtrees(a, from).no_duplicates(),
        decreases self.nodes.len() - a, self.nodes[a].children.len() - from,
    {
        let children = self.nodes[a].children;
        assert(self.node_ok(a));
        if from < children.len() {
            let child = children[from] as int;
            assert(a < child < self.nodes.len());
            let first = self.subtree(child);
            let rest = self.subtrees(a, from + 1);
            self.lemma_subtree_distinct(child);
            self.lemma_subtrees_distinct(a, from + 1);
            self.lemma_subtree_members(child);
            self.lemma_subtrees_members(a, from + 1);
            assert forall|i: int, j: int| 0 <= i < first.len() && 0 <= j < rest.len() implies first[i]
                != rest[j] by {
                let x = rest[j];
                assert(rest.contains(x));
                if first[i] == x {
                    assert(first.contains(x));
                    let k = choose|k: int| from + 1 <= k && #[trigger] self.below_child(a, k, x);
                    let other = children[k] as int;
                    assert(child < other);
                    assert(a < other < self.nodes.len());
                    self.lemma_subtree_members(other);
                    self.lemma_ancestors_in_line(x, child, other);
                    assert(self.nodes[other].base == Some(a as usize));
                    self.lemma_descendant_is_later(a, child);
                }
            }
            lemma_no_dup_in_concat(first, rest);
        }
    }

    /// A delta is in every tree that its base is in.
    pub proof fn lemma_delta_follows_base(self, a: int, base: int, x: int)
        requires
            self.well_formed(),
            0 <= a < self.nodes.len(),
            0 <= x < self.nodes.len(),
            self.nodes[x].base == Some(base as usize),
            0 <= base,
            self.subtree(a).contains(base),
        ensures
            self.subtree(a).contains(x),
        decreases self.nodes.len() - a,
    {
        lemma_concat_contains(seq![a], self.subtrees(a, 0), base);
        lemma_concat_contains(seq![a], self.subtrees(a, 0), x);
        if base == a {
            assert(self.node_ok(a));
            let children = self.nodes[a].children;
            assert(children.contains(x as usize));
            let k = choose|k: int| 0 <= k < children.len() && children[k] == x as usize;
            self.lemma_subtree_members(x);
            assert(self.subtree(x).contains(self.subtree(x)[0]));
            assert(self.below_child(a, k, x));
            self.lemma_subtrees_include(a, 0, k, x);
        } else {
            if seq![a].contains(base) {
                let i = choose|i: int| 0 <= i < seq![a].len() && seq![a][i] == base;
            }
            self.lemma_subtrees_members(a, 0);
            let k = choose|k: int| 0 <= k && #[trigger] self.below_child(a, k, base);
            assert(self.node_ok(a));
            let child = self.nodes[a].children[k] as int;
            self.lemma_delta_follows_base(child, base, x);
            assert(self.below_child(a, k, x));
            self.lemma_subtrees_include(a, 0, k, x);
        }
    }

    /// Every node in the trees of the roots from position `from` on is in
    /// the tree of one of those roots.
    pub proof fn lemma_trees_members(self, from: int)
        requires
            self.well_formed(),
            0 <= from,
        ensures
            forall|x: int| #[trigger]
                self.trees_from(from).contains(x) ==> 0 <= x < self.nodes.len() && exists|k: int|
                    from <= k && #[trigger] self.below_root(k, x),
        decreases self.roots.len() - from,
    {
        if from < self.roots.len() {
            let root = self.roots[from] as int;
            self.lemma_subtree_members(root);
            self.lemma_trees_members(from + 1);
            assert forall|x: int| #[trigger] self.trees_from(from).contains(x) implies 0 <= x
                < self.nodes.len() && exists|k: int|
                from <= k && #[trigger] self.below_root(k, x) by {
                lemma_concat_contains(self.subtree(root), self.trees_from(from + 1), x);
                if self.subtree(root).contains(x) {
                    assert(self.below_root(from, x));
                } else {
                    let k = choose|k: int| from + 1 <= k && #[trigger] self.below_root(k, x);
                    assert(self.below_root(k, x));
                }
            }
        }
    }

    /// The tree of a root is part of the trees of the roots from any
    /// position up to it.
    pub proof fn lemma_trees_include(self, from: int, k: int, x: int)
        requires
            self.well_formed(),
            0 <= from <= k,
            self.below_root(k, x),
        ensures
            self.trees_from(from).contains(x),
        decreases k - from,
    {
        lemma_concat_contains(
            self.subtree(self.roots[from] as int),
            self.trees_from(from + 1),
            x,
        );
        if from < k {
            self.lemma_trees_include(from + 1, k, x);
        }
    }

    /// No node comes twice in the trees of the roots.
    pub proof fn lemma_trees_distinct(self, from: int)
        requires
            self.well_formed(),
            0 <= from,
        ensures
            self.trees_from(from).no_duplicates(),
        decreases self.roots.len() - from,
    {
        if from < self.roots.len() {
            let root = self.roots[from] as int;
            let first = self.subtree(root);
            let rest = self.trees_from(from + 1);
            self.lemma_subtree_distinct(root);
            self.lemma_trees_distinct(from + 1);
            self.lemma_subtree_members(root);
            self.lemma_trees_members(from + 1);
            assert forall|i: int, j: int| 0 <= i < first.len() && 0 <= j < rest.len() implies first[i]
                != rest[j] by {
                let x = rest[j];
                assert(rest.contains(x));
                if first[i] == x {
                    assert(first.contains(x));
                    let k = choose|k: int| from + 1 <= k && #[trigger] self.below_root(k, x);
                    let other = self.roots[k] as int;
                    assert(root < other);
                    self.lemma_subtree_members(other);
                    self.lemma_ancestors_in_line(x, root, other);
                    assert(self.nodes[other].base is None);
                }
            }
            lemma_no_dup_in_concat(first, rest);
        }
    }

    /// Every node is visited.
    pub proof fn lemma_node_is_visited(self, x: int)
        requires
            self.well_formed(),
            0 <= x < self.nodes.len(),
        ensures
            self.visit_order().contains(x),
        decreases x,
    {
        assert(self.node_ok(x));
        self.lemma_subtree_members(x);
        assert(self.subtree(x).contains(self.subtree(x)[0]));
        match self.nodes[x].base {
            None => {
                assert(self.roots.contains(x as usize));
                let k = choose|k: int| 0 <= k < self.roots.len() && self.roots[k] == x as usize;
                assert(self.below_root(k, x));
                self.lemma_trees_include(0, k, x);
            },
            Some(base) => {
                self.lemma_node_is_visited(base as int);
                self.lemma_trees_members(0);
                let k = choose|k: int| 0 <= k && #[trigger] self.below_root(k, base as int);
                self.lemma_delta_follows_base(self.roots[k] as int, base as int, x);
                assert(self.below_root(k, x));
                self.lemma_trees_include(0, k, x);
            },
        }
    }

    /// A traversal visits every node of the forest exactly once: the
    /// visiting order holds every node, none twice, and nothing else.
    pub proof fn lemma_every_node_visited_once(self)
        requires
            self.well_formed(),
        ensures
            self.visit_order().no_duplicates(),
            self.visit_order().len() == self.nodes.len(),
            forall|x: int| 0 <= x < self.nodes.len() <==> self.visit_order().contains(x),
    {
        let order = self.visit_order();
        self.lemma_trees_distinct(0);
        self.lemma_trees_members(0);
        assert forall|x: int| 0 <= x < self.nodes.len() implies order.contains(x) by {
            self.lemma_node_is_visited(x);
        }
        assert(order.to_set() =~= set_int_range(0, self.nodes.len() as int));
        order.unique_seq_to_set();
        lemma_int_range(0, self.nodes.len() as int);
    }

    /// Whether the node at position `p` of `order` is a delta whose base
    /// stands at an earlier position.
    pub open spec fn base_stands_before(self, order: Seq<int>, p: int) -> bool {
        match self.nodes[order[p]].base {
            Some(base) => exists|q: int| 0 <= q < p && #[trigger] order[q] == base as int,
            None => false,
        }
    }

    /// What stands before in a sequence stands before in a longer one.
    pub proof fn lemma_before_in_front(self, front: Seq<int>, back: Seq<int>, p: int)
        requires
            0 <= p < front.len(),
            self.base_stands_before(front, p),
        ensures
            self.base_stands_before(front + back, p),
    {
        let base = self.nodes[front[p]].base->0 as int;
        let q = choose|q: int| 0 <= q < p && #[trigger] front[q] == base;
        assert((front + back)[q] == base);
    }

    /// What stands before in a sequence stands before when something is put
    /// in front of the sequence.
    pub proof fn lemma_before_in_back(self, front: Seq<int>, back: Seq<int>, p: int)
        requires
            0 <= p < back.len(),
            self.base_stands_before(back, p),
        ensures
            self.base_stands_before(front + back, front.len() + p),
    {
        let base = self.nodes[back[p]].base->0 as int;
        let q = choose|q: int| 0 <= q < p && #[trigger] back[q] == base;
        assert((front + back)[front.len() + q] == base);
    }

    /// In the tree below `a` every node but `a` comes after its base.
    pub proof fn lemma_subtree_bases_first(self, a: int)
        requires
            self.well_formed(),
            0 <= a < self.nodes.len(),
        ensures
            forall|p: int|
                0 < p < self.subtree(a).len() ==> #[trigger] self.base_stands_before(
                    self.subtree(a),
                    p,
                ),
        decreases self.nodes.len() - a, self.nodes[a].children.len() + 1,
    {
        let rest = self.subtrees(a, 0);
        self.lemma_subtrees_bases_first(a, 0);
        assert forall|p: int| 0 < p < self.subtree(a).len() implies #[trigger] self.base_stands_before(
            self.subtree(a),
            p,
        ) by {
            assert(self.subtree(a)[p] == rest[p - 1]);
            if self.nodes[rest[p - 1]].base == Some(a as usize) {
                assert(self.subtree(a)[0] == a);
            } else {
                self.lemma_before_in_back(seq![a], rest, p - 1);
            }
        }
    }

    /// In the trees of the children of `a` every node is a child of `a` or
    /// comes after its base.
    pub proof fn lemma_subtrees_bases_first(self, a: int, from: int)
        requires
            self.well_formed(),
            0 <= a < self.nodes.len(),
            0 <= from,
        ensures
            forall|p: int|
                0 <= p < self.subtrees(a, from).len() ==> self.nodes[self.subtrees(
                    a,
                    from,
                )[p]].base == Some(a as usize) || #[trigger] self.base_stands_before(
                    self.subtrees(a, from),
                    p,
                ),
        decreases self.nodes.len() - a, self.nodes[a].children.len() - from,
    {
        let children = self.nodes[a].children;
        assert(self.node_ok(a));
        if from < children.len() {
            let child = children[from] as int;
            assert(a < child < self.nodes.len());
            let first = self.subtree(child);
            let rest = self.subtrees(a, from + 1);
            self.lemma_subtree_bases_first(child);
            self.lemma_subtree_members(child);
            self.lemma_subtrees_bases_first(a, from + 1);
            assert forall|p: int| 0 <= p < (first + rest).len() implies self.nodes[(first
                + rest)[p]].base == Some(a as usize) || #[trigger] self.base_stands_before(
                first + rest,
                p,
            ) by {
                if p == 0 {
                } else if p < first.len() {
                    assert(self.base_stands_before(first, p));
                    self.lemma_before_in_front(first, rest, p);
                } else {
                    let at = p - first.len();
                    assert((first + rest)[p] == rest[at]);
                    if self.nodes[rest[at]].base != Some(a as usize) {
                        assert(self.base_stands_before(rest, at));
                        self.lemma_before_in_back(first, rest, at);
                    }
                }
            }
        }
    }

    /// In the trees of the roots every node is a root or comes after its
    /// base.
    pub proof fn lemma_trees_bases_first(self, from: int)
        requires
            self.well_formed(),
            0 <= from,
        ensures
            forall|p: int|
                0 <= p < self.trees_from(from).len() ==> self.nodes[self.trees_from(from)[p]].base
                    is None || #[trigger] self.base_stands_before(self.trees_from(from), p),
        decreases self.roots.len() - from,
    {
        if from < self.roots.len() {
            let root = self.roots[from] as int;
            let first = self.subtree(root);
            let rest = self.trees_from(from + 1);
            self.lemma_subtree_bases_first(root);
            self.lemma_subtree_members(root);
            self.lemma_trees_bases_first(from + 1);
            assert forall|p: int| 0 <= p < (first + rest).len() implies self.nodes[(first
                + rest)[p]].base is None || #[trigger] self.base_stands_before(first + rest, p) by {
                if p == 0 {
                } else if p < first.len() {
                    assert(self.base_stands_before(first, p));
                    self.lemma_before_in_front(first, rest, p);
                } else {
                    let at = p - first.len();
                    assert((first + rest)[p] == rest[at]);
                    if self.nodes[rest[at]].base is Some {
                        assert(self.base_stands_before(rest, at));
                        self.lemma_before_in_back(first, rest, at);
                    }
                }
            }
        }
    }

    /// A traversal visits every base before its deltas: in the visiting
    /// order the base of a delta stands somewhere before the delta.
    pub proof fn lemma_bases_visited_first(self)
        requires
            self.well_formed(),
        ensures
            forall|p: int|
                0 <= p < self.visit_order().len() && self.nodes[self.visit_order()[p]].base
                    is Some ==> #[trigger] self.base_stands_before(self.visit_order(), p),
    {
        self.lemma_trees_bases_first(0);
    }

    /// The trees of the given roots, one after the other.
    pub open spec fn trees_of(self, roots: Seq<usize>) -> Seq<int>
        decreases roots.len(),
    {
        if roots.len() == 0 {
            Seq::empty()
        } else {
            self.subtree(roots[0] as int) + self.trees_of(roots.drop_first())
        }
    }

    /// The visiting order is the trees of the roots in ascending order.
    pub proof fn lemma_visit_order_is_trees_of_roots(self, from: int)
        requires
            0 <= from <= self.roots.len(),
        ensures
            self.trees_from(from) == self.trees_of(self.roots.skip(from)),
        decreases self.roots.len() - from,
    {
        if from < self.roots.len() {
            self.lemma_visit_order_is_trees_of_roots(from + 1);
            assert(self.roots.skip(from).drop_first() =~= self.roots.skip(from + 1));
        }
    }

    /// The trees of two lists of roots in a row are the trees of the first
    /// list and then those of the second.
    pub proof fn lemma_trees_of_concat(self, first: Seq<usize>, second: Seq<usize>)
        ensures
            self.trees_of(first + second) == self.trees_of(first) + self.trees_of(second),
        decreases first.len(),
    {
        if first.len() == 0 {
            assert(first + second =~= second);
            assert(self.trees_of(first) + self.trees_of(second) =~= self.trees_of(second));
        } else {
            self.lemma_trees_of_concat(first.drop_first(), second);
            assert((first + second).drop_first() =~= first.drop_first() + second);
            assert(self.trees_of(first + second) =~= self.trees_of(first) + self.trees_of(second));
        }
    }

    /// The trees of a list of roots hold the nodes of one of them and those
    /// of the trees of the others.
    pub proof fn lemma_trees_of_remove(self, roots: Seq<usize>, at: int)
        requires
            0 <= at < roots.len(),
        ensures
            self.trees_of(roots).to_multiset() == self.subtree(roots[at] as int).to_multiset().add(
                self.trees_of(roots.remove(at)).to_multiset(),
            ),
    {
        let head = roots.take(at);
        let tail = roots.skip(at + 1);
        let one = seq![roots[at]];
        let tree = self.subtree(roots[at] as int);
        assert(roots =~= head + (one + tail));
        assert(roots.remove(at) =~= head + tail);
        self.lemma_trees_of_concat(head, one + tail);
        self.lemma_trees_of_concat(one, tail);
        self.lemma_trees_of_concat(head, tail);
        assert(one.drop_first() =~= Seq::<usize>::empty());
        assert(self.trees_of(Seq::<usize>::empty()) =~= Seq::<int>::empty());
        assert(self.trees_of(one) == tree + self.trees_of(one.drop_first()));
        assert(self.trees_of(one) =~= tree);
        vstd::seq_lib::lemma_multiset_commutative(self.trees_of(head), tree + self.trees_of(tail));
        vstd::seq_lib::lemma_multiset_commutative(tree, self.trees_of(tail));
        vstd::seq_lib::lemma_multiset_commutative(self.trees_of(head), self.trees_of(tail));
        assert(self.trees_of(roots).to_multiset() =~= tree.to_multiset().add(
            self.trees_of(roots.remove(at)).to_multiset(),
        ));
    }

    /// In whatever order the roots are taken, their trees hold the same
    /// nodes the same number of times.
    pub proof fn lemma_trees_in_any_order(self, first: Seq<usize>, second: Seq<usize>)
        requires
            first.to_multiset() == second.to_multiset(),
        ensures
            self.trees_of(first).to_multiset() == self.trees_of(second).to_multiset(),
        decreases first.len(),
    {
        broadcast use vstd::seq_lib::group_to_multiset_ensures;

        assert(first.len() == second.len()) by {
            vstd::seq_lib::to_multiset_len(first);
            vstd::seq_lib::to_multiset_len(second);
        }
        if first.len() == 0 {
            assert(second =~= first);
        } else {
            let x = first[0];
            assert(first.contains(x));
            assert(first.to_multiset().count(x) > 0);
            assert(second.contains(x));
            let at = choose|at: int| 0 <= at < second.len() && second[at] == x;
            assert(first.drop_first() =~= first.remove(0));
            vstd::seq_lib::to_multiset_remove(first, 0);
            vstd::seq_lib::to_multiset_remove(second, at);
            self.lemma_trees_in_any_order(first.drop_first(), second.remove(at));
            self.lemma_trees_of_remove(first, 0);
            self.lemma_trees_of_remove(second, at);
        }
    }
}

} // verus!
