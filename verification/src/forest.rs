//! The forest of delta chains: which object is stored as a delta against
//! which, found from the index and the entry headers.

use vstd::prelude::*;
use crate::types::{Error, Header, IndexEntry, ObjectKind, PackEntry};

verus! {

/// Whether the entries are in strictly ascending order of pack offset.
pub open spec fn offsets_ascending(entries: Seq<IndexEntry>) -> bool {
    forall|a: int, b: int|
        0 <= a < b < entries.len() ==> (#[trigger] entries[a]).pack_offset < (
        #[trigger] entries[b]).pack_offset
}

/// The entry among the first `limit` that starts at `offset`.
pub open spec fn find_offset(entries: Seq<IndexEntry>, limit: int, offset: int) -> Option<int> {
    if exists|j: int| 0 <= j < limit && (#[trigger] entries[j]).pack_offset == offset {
        Some(choose|j: int| 0 <= j < limit && (#[trigger] entries[j]).pack_offset == offset)
    } else {
        None
    }
}

/// Whether `j` is the first entry with the id.
pub open spec fn is_first_with_id(entries: Seq<IndexEntry>, id: Seq<u8>, j: int) -> bool {
    &&& 0 <= j < entries.len()
    &&& entries[j].oid@ == id
    &&& forall|k: int| 0 <= k < j ==> (#[trigger] entries[k]).oid@ != id
}

/// The first entry with the id, if it is among the first `limit`.
pub open spec fn find_id(entries: Seq<IndexEntry>, limit: int, id: Seq<u8>) -> Option<int> {
    if exists|j: int| j < limit && is_first_with_id(entries, id, j) {
        Some(choose|j: int| j < limit && is_first_with_id(entries, id, j))
    } else {
        None
    }
}

/// The entry that entry `i` is a delta against: an earlier entry, found by
/// its distance in the pack or by its id. `None` for a full object, and for
/// a delta whose base is no earlier entry.
pub open spec fn base_of(entries: Seq<IndexEntry>, pack_entries: Seq<PackEntry>, i: int) -> Option<
    int,
> {
    match pack_entries[i].header {
        Header::OfsDelta { base_distance } => find_offset(
            entries,
            i,
            entries[i].pack_offset - base_distance,
        ),
        Header::RefDelta { base_id } => find_id(entries, i, base_id@),
        _ => None,
    }
}

/// Whether entry `i` is a delta whose base is no earlier entry.
pub open spec fn dangling(entries: Seq<IndexEntry>, pack_entries: Seq<PackEntry>, i: int) -> bool {
    pack_entries[i].header.is_delta() && base_of(entries, pack_entries, i) is None
}

/// The number of deltas between entry `i` and the full object its chain
/// starts from.
pub open spec fn level_of(entries: Seq<IndexEntry>, pack_entries: Seq<PackEntry>, i: int) -> nat
    decreases i,
{
    match base_of(entries, pack_entries, i) {
        Some(base) => if 0 <= base < i {
            level_of(entries, pack_entries, base) + 1
        } else {
            0
        },
        None => 0,
    }
}

/// The kind of entry `i`: its own if it is a full object, else that of the
/// full object its chain starts from.
pub open spec fn kind_of(entries: Seq<IndexEntry>, pack_entries: Seq<PackEntry>, i: int) -> ObjectKind
    decreases i,
{
    match pack_entries[i].header.kind() {
        Some(kind) => kind,
        None => match base_of(entries, pack_entries, i) {
            Some(base) => if 0 <= base < i {
                kind_of(entries, pack_entries, base)
            } else {
                ObjectKind::Tree
            },
            None => ObjectKind::Tree,
        },
    }
}

/// Finds by bisection the entry among the first `limit` that starts at
/// `offset`.
pub fn index_of_offset(entries: &[IndexEntry], limit: usize, offset: u64) -> (found: Option<usize>)
    requires
        limit <= entries.len(),
        offsets_ascending(entries@),
    ensures
        found matches Some(j) ==> j < limit && entries[j as int].pack_offset == offset,
        match found {
            Some(j) => find_offset(entries@, limit as int, offset as int) == Some(j as int),
            None => find_offset(entries@, limit as int, offset as int) is None,
        },
{
    let mut low: usize = 0;
    let mut high: usize = limit;
    while low < high
        invariant
            low <= high <= limit <= entries.len(),
            offsets_ascending(entries@),
            forall|j: int| 0 <= j < low ==> (#[trigger] entries[j]).pack_offset < offset,
            forall|j: int| high <= j < limit ==> (#[trigger] entries[j]).pack_offset > offset,
        decreases high - low,
    {
        let mid = low + (high - low) / 2;
        let at = entries[mid].pack_offset;
        if at == offset {
            proof {
                let chosen = choose|j: int|
                    0 <= j < limit && (#[trigger] entries[j]).pack_offset == offset;
                assert(entries[mid as int].pack_offset == offset);
                assert(chosen == mid) by {
                    if chosen < mid {
                        assert(entries@[chosen].pack_offset < entries@[mid as int].pack_offset);
                    }
                    if chosen > mid {
                        assert(entries@[mid as int].pack_offset < entries@[chosen].pack_offset);
                    }
                }
            }
            return Some(mid);
        } else if at < offset {
            proof {
                assert forall|j: int| 0 <= j < mid + 1 implies (#[trigger] entries[j]).pack_offset
                    < offset by {
                    if j < mid {
                        assert(entries@[j].pack_offset < entries@[mid as int].pack_offset);
                    }
                }
            }
            low = mid + 1;
        } else {
            proof {
                assert forall|j: int| mid <= j < limit implies (#[trigger] entries[j]).pack_offset
                    > offset by {
                    if j > mid {
                        assert(entries@[mid as int].pack_offset < entries@[j].pack_offset);
                    }
                }
            }
            high = mid;
        }
    }
    None
}

/// Finds the first entry with the id among the first `limit`.
pub fn index_of_id(entries: &[IndexEntry], limit: usize, id: &crate::types::ObjectId) -> (found:
    Option<usize>)
    requires
        limit <= entries.len(),
    ensures
        found matches Some(j) ==> j < limit && is_first_with_id(entries@, id@, j as int),
        match found {
            Some(j) => find_id(entries@, limit as int, id@) == Some(j as int),
            None => find_id(entries@, limit as int, id@) is None,
        },
{
    let mut j: usize = 0;
    while j < limit
        invariant
            j <= limit <= entries.len(),
            forall|k: int| 0 <= k < j ==> (#[trigger] entries[k]).oid@ != id@,
        decreases limit - j,
    {
        if entries[j].oid.same_as(id) {
            proof {
                assert(is_first_with_id(entries@, id@, j as int));
                let chosen = choose|c: int| c < limit && is_first_with_id(entries@, id@, c);
                assert(chosen == j) by {
                    if chosen < j {
                        assert(entries@[chosen].oid@ != id@);
                    }
                    if chosen > j {
                        assert(entries@[j as int].oid@ != id@);
                    }
                }
            }
            return Some(j);
        }
        j += 1;
    }
    proof {
        assert forall|c: int| c < limit implies !is_first_with_id(entries@, id@, c) by {
            if 0 <= c {
                assert(entries@[c].oid@ != id@);
            }
        }
    }
    None
}

/// Whether entry `i` is the first delta whose base is no earlier entry.
pub open spec fn first_dangling(entries: Seq<IndexEntry>, pack_entries: Seq<PackEntry>, i: int) -> bool {
    &&& 0 <= i < entries.len()
    &&& dangling(entries, pack_entries, i)
    &&& forall|k: int| 0 <= k < i ==> !dangling(entries, pack_entries, k)
}

/// The deltas against entry `node` among the first `limit` entries, in
/// ascending order.
pub open spec fn children_upto(
    entries: Seq<IndexEntry>,
    pack_entries: Seq<PackEntry>,
    node: int,
    limit: int,
) -> Seq<usize>
    decreases limit,
{
    if limit <= 0 {
        Seq::empty()
    } else {
        let rest = children_upto(entries, pack_entries, node, limit - 1);
        if base_of(entries, pack_entries, limit - 1) == Some(node) {
            rest.push((limit - 1) as usize)
        } else {
            rest
        }
    }
}

/// The entries without a base among the first `limit`, in ascending order.
pub open spec fn roots_upto(entries: Seq<IndexEntry>, pack_entries: Seq<PackEntry>, limit: int) -> Seq<
    usize,
>
    decreases limit,
{
    if limit <= 0 {
        Seq::empty()
    } else {
        let rest = roots_upto(entries, pack_entries, limit - 1);
        if base_of(entries, pack_entries, limit - 1) is None {
            rest.push((limit - 1) as usize)
        } else {
            rest
        }
    }
}

/// Whether the numbers go strictly up.
pub open spec fn ascending(list: Seq<usize>) -> bool {
    forall|a: int, b: int| 0 <= a < b < list.len() ==> list[a] < list[b]
}

/// One object of the forest. Nodes are numbered as the entries are, in
/// ascending order of pack offset.
#[derive(Debug)]
pub struct Node {
    /// The node this one is a delta against, `None` for a full object.
    pub base: Option<usize>,
    /// The nodes that are deltas against this one, in ascending order.
    pub children: Vec<usize>,
    /// Number of deltas between this node and the root of its tree.
    pub level: usize,
    /// The kind of the full object at the root of its tree.
    pub kind: ObjectKind,
}

/// The mathematical content of a [`Node`].
pub struct NodeView {
    pub base: Option<usize>,
    pub children: Seq<usize>,
    pub level: usize,
    pub kind: ObjectKind,
}

impl View for Node {
    type V = NodeView;

    open spec fn view(&self) -> NodeView {
        NodeView {
            base: self.base,
            children: self.children@,
            level: self.level,
            kind: self.kind,
        }
    }
}

/// All delta chains of a pack: the full objects are the roots, and every
/// delta hangs below its base.
#[derive(Debug)]
pub struct Forest {
    pub nodes: Vec<Node>,
    /// The full objects, in ascending order.
    pub roots: Vec<usize>,
}

/// The mathematical content of a [`Forest`].
pub struct ForestView {
    pub nodes: Seq<NodeView>,
    pub roots: Seq<usize>,
}

impl View for Forest {
    type V = ForestView;

    open spec fn view(&self) -> ForestView {
        ForestView {
            nodes: Seq::new(self.nodes.len() as nat, |i: int| self.nodes[i]@),
            roots: self.roots@,
        }
    }
}

impl ForestView {
    /// Whether node `i` agrees with its base and lists exactly its children.
    pub open spec fn node_ok(self, i: int) -> bool {
        let node = self.nodes[i];
        &&& match node.base {
            Some(base) => base < i && node.level == self.nodes[base as int].level + 1 && node.kind
                == self.nodes[base as int].kind,
            None => node.level == 0,
        }
        &&& ascending(node.children)
        &&& forall|a: int|
            0 <= a < node.children.len() ==> i < (#[trigger] node.children[a]) < self.nodes.len()
                && self.nodes[node.children[a] as int].base == Some(i as usize)
        &&& forall|c: int|
            0 <= c < self.nodes.len() && (#[trigger] self.nodes[c]).base == Some(i as usize)
                ==> node.children.contains(c as usize)
    }

    /// The invariant of a forest: every base comes before its deltas, a
    /// delta is one level below its base and of its kind, every node lists
    /// exactly the deltas against it, and the roots are exactly the nodes
    /// without a base.
    pub open spec fn well_formed(self) -> bool {
        &&& self.nodes.len() <= usize::MAX
        &&& forall|i: int| 0 <= i < self.nodes.len() ==> self.node_ok(i)
        &&& ascending(self.roots)
        &&& forall|a: int|
            0 <= a < self.roots.len() ==> (#[trigger] self.roots[a]) < self.nodes.len()
                && self.nodes[self.roots[a] as int].base is None
        &&& forall|i: int|
            0 <= i < self.nodes.len() && (#[trigger] self.nodes[i]).base is None
                ==> self.roots.contains(i as usize)
    }
}

/// What the index and the headers say of entry `node`, with the deltas
/// against it that are among the first `limit` entries.
pub open spec fn node_upto(
    entries: Seq<IndexEntry>,
    pack_entries: Seq<PackEntry>,
    node: int,
    limit: int,
) -> NodeView {
    NodeView {
        base: match base_of(entries, pack_entries, node) {
            Some(base) => Some(base as usize),
            None => None,
        },
        children: children_upto(entries, pack_entries, node, limit),
        level: level_of(entries, pack_entries, node) as usize,
        kind: kind_of(entries, pack_entries, node),
    }
}

/// The forest of the first `limit` entries of a pack.
pub open spec fn shape_upto(entries: Seq<IndexEntry>, pack_entries: Seq<PackEntry>, limit: int) -> ForestView {
    ForestView {
        nodes: Seq::new(limit as nat, |i: int| node_upto(entries, pack_entries, i, limit)),
        roots: roots_upto(entries, pack_entries, limit),
    }
}

/// The forest of a pack: one node for every entry, each below the earlier
/// entry that its header names as its base.
pub open spec fn shape_of(entries: Seq<IndexEntry>, pack_entries: Seq<PackEntry>) -> ForestView {
    shape_upto(entries, pack_entries, entries.len() as int)
}

/// A base comes before its delta.
pub proof fn lemma_base_is_earlier(entries: Seq<IndexEntry>, pack_entries: Seq<PackEntry>, i: int)
    ensures
        base_of(entries, pack_entries, i) matches Some(base) ==> 0 <= base < i,
{
}

/// An entry has no delta against it at or before itself.
pub proof fn lemma_children_come_later(
    entries: Seq<IndexEntry>,
    pack_entries: Seq<PackEntry>,
    node: int,
    limit: int,
)
    requires
        limit <= node + 1,
    ensures
        children_upto(entries, pack_entries, node, limit) == Seq::<usize>::empty(),
    decreases limit,
{
    if limit > 0 {
        lemma_children_come_later(entries, pack_entries, node, limit - 1);
        lemma_base_is_earlier(entries, pack_entries, limit - 1);
    }
}

/// No level is higher than the entry's own number.
pub proof fn lemma_level_bound(entries: Seq<IndexEntry>, pack_entries: Seq<PackEntry>, i: int)
    requires
        0 <= i,
    ensures
        level_of(entries, pack_entries, i) <= i,
    decreases i,
{
    match base_of(entries, pack_entries, i) {
        Some(base) => {
            if 0 <= base < i {
                lemma_level_bound(entries, pack_entries, base);
            }
        },
        None => {},
    }
}

/// The children listed for a node are exactly the deltas against it, in
/// ascending order.
pub proof fn lemma_children_listed(
    entries: Seq<IndexEntry>,
    pack_entries: Seq<PackEntry>,
    node: int,
    limit: int,
)
    requires
        0 <= limit <= usize::MAX,
    ensures
        ascending(children_upto(entries, pack_entries, node, limit)),
        forall|a: int|
            0 <= a < children_upto(entries, pack_entries, node, limit).len() ==> node < (
            #[trigger] children_upto(entries, pack_entries, node, limit)[a]) < limit && base_of(
                entries,
                pack_entries,
                children_upto(entries, pack_entries, node, limit)[a] as int,
            ) == Some(node),
        forall|c: int|
            0 <= c < limit && #[trigger] base_of(entries, pack_entries, c) == Some(node)
                ==> children_upto(entries, pack_entries, node, limit).contains(c as usize),
    decreases limit,
{
    if limit > 0 {
        let before = children_upto(entries, pack_entries, node, limit - 1);
        let now = children_upto(entries, pack_entries, node, limit);
        lemma_children_listed(entries, pack_entries, node, limit - 1);
        lemma_base_is_earlier(entries, pack_entries, limit - 1);
        assert forall|c: int|
            0 <= c < limit && #[trigger] base_of(entries, pack_entries, c) == Some(
                node,
            ) implies now.contains(c as usize) by {
            if c == limit - 1 {
                assert(now[now.len() - 1] == c as usize);
            } else {
                assert(before.contains(c as usize));
                let a = choose|a: int| 0 <= a < before.len() && before[a] == c as usize;
                assert(now[a] == c as usize);
            }
        }
    }
}

/// The roots listed are exactly the entries without a base, in ascending
/// order.
pub proof fn lemma_roots_listed(entries: Seq<IndexEntry>, pack_entries: Seq<PackEntry>, limit: int)
    requires
        0 <= limit <= usize::MAX,
    ensures
        ascending(roots_upto(entries, pack_entries, limit)),
        forall|a: int|
            0 <= a < roots_upto(entries, pack_entries, limit).len() ==> (#[trigger] roots_upto(
                entries,
                pack_entries,
                limit,
            )[a]) < limit && base_of(
                entries,
                pack_entries,
                roots_upto(entries, pack_entries, limit)[a] as int,
            ) is None,
        forall|c: int|
            0 <= c < limit && #[trigger] base_of(entries, pack_entries, c) is None ==> roots_upto(
                entries,
                pack_entries,
                limit,
            ).contains(c as usize),
    decreases limit,
{
    if limit > 0 {
        let before = roots_upto(entries, pack_entries, limit - 1);
        let now = roots_upto(entries, pack_entries, limit);
        lemma_roots_listed(entries, pack_entries, limit - 1);
        assert forall|c: int|
            0 <= c < limit && #[trigger] base_of(entries, pack_entries, c) is None implies now.contains(
            c as usize,
        ) by {
            if c == limit - 1 {
                assert(now[now.len() - 1] == c as usize);
            } else {
                assert(before.contains(c as usize));
                let a = choose|a: int| 0 <= a < before.len() && before[a] == c as usize;
                assert(now[a] == c as usize);
            }
        }
    }
}

/// The forest of any pack is well formed: every entry is one node, below
/// the base its header names or a root.
pub proof fn lemma_shape_is_well_formed(entries: Seq<IndexEntry>, pack_entries: Seq<PackEntry>)
    requires
        entries.len() <= usize::MAX,
    ensures
        shape_of(entries, pack_entries).nodes.len() == entries.len(),
        shape_of(entries, pack_entries).well_formed(),
{
    let n = entries.len() as int;
    let shape = shape_of(entries, pack_entries);
    lemma_roots_listed(entries, pack_entries, n);
    assert forall|i: int| 0 <= i < n implies shape.node_ok(i) by {
        lemma_children_listed(entries, pack_entries, i, n);
        lemma_base_is_earlier(entries, pack_entries, i);
        lemma_level_bound(entries, pack_entries, i);
        match base_of(entries, pack_entries, i) {
            Some(base) => {
                lemma_level_bound(entries, pack_entries, base);
            },
            None => {},
        }
        let node = shape.nodes[i];
        assert forall|c: int|
            0 <= c < shape.nodes.len() && (#[trigger] shape.nodes[c]).base == Some(
                i as usize,
            ) implies node.children.contains(c as usize) by {
            lemma_base_is_earlier(entries, pack_entries, c);
            assert(base_of(entries, pack_entries, c) == Some(i));
        }
    }
    assert forall|i: int|
        0 <= i < shape.nodes.len() && (#[trigger] shape.nodes[i]).base is None implies shape.roots.contains(
        i as usize,
    ) by {
        assert(base_of(entries, pack_entries, i) is None);
    }
}

impl Forest {
    /// Builds the forest of a pack from its index entries, which are sorted
    /// by pack offset, and the header of each entry. Fails at the first
    /// delta whose base is not an earlier entry.
    pub fn from_offsets_in_pack(entries: &[IndexEntry], pack_entries: &[PackEntry]) -> (res: Result<
        Forest,
        Error,
    >)
        requires
            entries.len() == pack_entries.len(),
            offsets_ascending(entries@),
        ensures
            match res {
                Ok(forest) => {
                    &&& forest@ == shape_of(entries@, pack_entries@)
                    &&& forest@.well_formed()
                    &&& forall|i: int|
                        0 <= i < entries.len() ==> !dangling(entries@, pack_entries@, i)
                },
                Err(error) => exists|i: int|
                    first_dangling(entries@, pack_entries@, i) && error
                        == (Error::DanglingDeltaBase { pack_offset: entries[i].pack_offset }),
            },
    {
        let mut forest = Forest { nodes: Vec::new(), roots: Vec::new() };
        let mut i: usize = 0;
        proof {
            let shape = shape_upto(entries@, pack_entries@, 0);
            assert(forest@.nodes =~= shape.nodes);
            assert(forest@.roots =~= shape.roots);
        }
        while i < entries.len()
            invariant
                i <= entries.len(),
                entries.len() == pack_entries.len(),
                offsets_ascending(entries@),
                forest.nodes.len() == i,
                forest@ == shape_upto(entries@, pack_entries@, i as int),
                forall|k: int| 0 <= k < i ==> !dangling(entries@, pack_entries@, k),
            decreases entries.len() - i,
        {
            let ghost before = forest@;
            let ghost shape = shape_upto(entries@, pack_entries@, i + 1);
            let found = match pack_entries[i].header {
                Header::OfsDelta { base_distance } => match entries[i].pack_offset.checked_sub(
                    base_distance,
                ) {
                    Some(offset) => index_of_offset(entries, i, offset),
                    None => None,
                },
                Header::RefDelta { base_id } => index_of_id(entries, i, &base_id),
                _ => None,
            };
            assert(match found {
                Some(j) => base_of(entries@, pack_entries@, i as int) == Some(j as int),
                None => base_of(entries@, pack_entries@, i as int) is None,
            });
            proof {
                lemma_children_come_later(entries@, pack_entries@, i as int, i + 1);
                lemma_level_bound(entries@, pack_entries@, i as int);
                assert forall|k: int| 0 <= k < i implies before.nodes[k] == node_upto(
                    entries@,
                    pack_entries@,
                    k,
                    i as int,
                ) by {}
            }
            match (found, pack_entries[i].header.to_kind()) {
                (Some(base), _) => {
                    proof {
                        lemma_level_bound(entries@, pack_entries@, base as int);
                        assert(forest.nodes[base as int]@ == before.nodes[base as int]);
                    }
                    let level = forest.nodes[base].level + 1;
                    let kind = forest.nodes[base].kind;
                    forest.nodes.push(Node { base: Some(base), children: Vec::new(), level, kind });
                    forest.nodes[base].children.push(i);
                    proof {
                        let after = forest@;
                        assert(after.nodes[base as int].children
                            == before.nodes[base as int].children.push(i));
                        assert forall|k: int| 0 <= k <= i implies after.nodes[k]
                            == shape.nodes[k] by {
                            if k < i && k != base {
                                assert(after.nodes[k] == before.nodes[k]);
                            }
                        }
                    }
                },
                (None, Some(kind)) => {
                    forest.nodes.push(Node { base: None, children: Vec::new(), level: 0, kind });
                    forest.roots.push(i);
                    proof {
                        let after = forest@;
                        assert forall|k: int| 0 <= k <= i implies after.nodes[k]
                            == shape.nodes[k] by {
                            if k < i {
                                assert(after.nodes[k] == before.nodes[k]);
                            }
                        }
                    }
                },
                (None, None) => {
                    assert(first_dangling(entries@, pack_entries@, i as int));
                    return Err(Error::DanglingDeltaBase { pack_offset: entries[i].pack_offset });
                },
            }
            proof {
                assert(forest@.nodes =~= shape.nodes);
                assert(forest@ == shape);
            }
            i += 1;
        }
        proof {
            lemma_shape_is_well_formed(entries@, pack_entries@);
        }
        Ok(forest)
    }

    /// Whether the level of every node fits the sixteen bits in which the
    /// entry of an object records it.
    pub fn levels_fit(&self) -> (fit: bool)
        ensures
            fit == forall|i: int|
                0 <= i < self@.nodes.len() ==> (#[trigger] self@.nodes[i]).level <= u16::MAX,
    {
        let mut i: usize = 0;
        while i < self.nodes.len()
            invariant
                i <= self.nodes.len(),
                forall|k: int| 0 <= k < i ==> (#[trigger] self@.nodes[k]).level <= u16::MAX,
            decreases self.nodes.len() - i,
        {
            if self.nodes[i].level > u16::MAX as usize {
                assert(self@.nodes[i as int].level > u16::MAX);
                return false;
            }
            assert(self@.nodes[i as int] == self.nodes[i as int]@);
            i += 1;
        }
        true
    }
}

} // verus!
