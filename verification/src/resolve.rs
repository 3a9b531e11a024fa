//! Visiting every object of a forest, bases before their deltas, and
//! collecting what is found of each.

use vstd::prelude::*;
use crate::entry::EntryWithDefault;
use crate::forest::{Forest, ForestView};
use crate::pack::{end_of_entries, end_of_entry, entry_end, pack_end, process_entry, verdict_on};
use crate::types::{Error, IndexEntry, PackEntry, SafetyCheck};

verus! {

impl ForestView {
    /// The nodes of the tree below `node` in the order of a depth-first
    /// walk: the node itself, then the tree of each child in turn.
    pub open spec fn subtree(self, node: int) -> Seq<int>
        decreases self.nodes.len() - node, self.nodes[node].children.len() + 1,
    {
        if 0 <= node < self.nodes.len() {
            seq![node] + self.subtrees(node, 0)
        } else {
            Seq::empty()
        }
    }

    /// The trees of the children of `node` from the child at position
    /// `from` on, one after the other.
    pub open spec fn subtrees(self, node: int, from: int) -> Seq<int>
        decreases self.nodes.len() - node, self.nodes[node].children.len() - from,
    {
        let children = self.nodes[node].children;
        if 0 <= node < self.nodes.len() && 0 <= from < children.len() {
            let child = children[from] as int;
            if node < child < self.nodes.len() {
                self.subtree(child) + self.subtrees(node, from + 1)
            } else {
                self.subtrees(node, from + 1)
            }
        } else {
            Seq::empty()
        }
    }

    /// The trees of the roots from the root at position `from` on.
    pub open spec fn trees_from(self, from: int) -> Seq<int>
        decreases self.roots.len() - from,
    {
        if 0 <= from < self.roots.len() {
            self.subtree(self.roots[from] as int) + self.trees_from(from + 1)
        } else {
            Seq::empty()
        }
    }

    /// The order in which a traversal visits the nodes: tree by tree, each
    /// depth-first.
    pub open spec fn visit_order(self) -> Seq<int> {
        self.trees_from(0)
    }

    /// What is left to visit when a walk has, for each pair of the stack, a
    /// node whose children from a position on are still to come, the last
    /// pair first.
    pub open spec fn pending(self, stack: Seq<(usize, usize)>) -> Seq<int>
        decreases stack.len(),
    {
        if stack.len() == 0 {
            Seq::empty()
        } else {
            self.subtrees(stack.last().0 as int, stack.last().1 as int) + self.pending(
                stack.drop_last(),
            )
        }
    }
}

/// What a traversal has gathered so far.
pub struct Run {
    /// The objects that passed every check, in the order visited.
    pub items: Seq<EntryWithDefault>,
    /// Why each object that was left out was left out.
    pub skipped: Seq<Error>,
    /// The error that ended the traversal, if one did.
    pub failed: Option<Error>,
}

impl Run {
    /// The state before the first object.
    pub open spec fn fresh() -> Run {
        Run { items: Seq::empty(), skipped: Seq::empty(), failed: None }
    }

    /// The state once the next object has been judged: a good object is
    /// kept, an error that the policy tolerates is noted, any other ends the
    /// traversal. After the end nothing changes.
    pub open spec fn after(self, verdict: Result<EntryWithDefault, Error>, check: SafetyCheck) -> Run {
        if self.failed is Some {
            self
        } else {
            match verdict {
                Ok(item) => Run { items: self.items.push(item), ..self },
                Err(error) => if error.is_fatal_under(check) {
                    Run { failed: Some(error), ..self }
                } else {
                    Run { skipped: self.skipped.push(error), ..self }
                },
            }
        }
    }
}

/// The mathematical content of a pack laid out for resolving.
pub struct Job {
    pub check: SafetyCheck,
    pub entries: Seq<IndexEntry>,
    pub pack_entries: Seq<PackEntry>,
    pub data: Seq<u8>,
    /// The content of each decoded object, `None` where decoding failed.
    pub objects: Seq<Option<Seq<u8>>>,
    pub shape: ForestView,
}

/// The content of each decoded object, `None` where decoding failed.
pub open spec fn contents_of(objects: Seq<Option<Vec<u8>>>) -> Seq<Option<Seq<u8>>> {
    Seq::new(
        objects.len(),
        |i: int|
            match objects[i] {
                Some(bytes) => Some(bytes@),
                None => None,
            },
    )
}

impl Job {
    /// Whether the parts belong together: one header, one object and one
    /// node for every entry, the forest well formed, and no level beyond
    /// what an entry can record.
    pub open spec fn valid(self) -> bool {
        &&& self.pack_entries.len() == self.entries.len()
        &&& self.objects.len() == self.entries.len()
        &&& self.shape.nodes.len() == self.entries.len()
        &&& self.shape.well_formed()
        &&& forall|i: int|
            0 <= i < self.shape.nodes.len() ==> (#[trigger] self.shape.nodes[i]).level <= u16::MAX
    }

    /// Where entry `i` ends.
    pub open spec fn end_of(self, i: int) -> u64 {
        entry_end(self.entries, i, pack_end(self.data.len()) as u64)
    }

    /// What the checks make of entry `i`.
    pub open spec fn verdict(self, i: int) -> Result<EntryWithDefault, Error> {
        verdict_on(
            self.check,
            self.entries[i],
            self.pack_entries[i],
            self.shape.nodes[i].kind,
            self.shape.nodes[i].level as u16,
            self.end_of(i),
            self.data,
            self.objects[i],
        )
    }

    /// The state after visiting the nodes of `order` one after the other,
    /// starting from `start`.
    pub open spec fn run(self, order: Seq<int>, start: Run) -> Run
        decreases order.len(),
    {
        if order.len() == 0 {
            start
        } else {
            self.run(order.drop_first(), start.after(self.verdict(order[0]), self.check))
        }
    }

    /// The state at the end of a whole traversal.
    pub open spec fn outcome(self) -> Run {
        self.run(self.shape.visit_order(), Run::fresh())
    }

    /// Visiting one sequence and then another is visiting both in a row.
    pub proof fn lemma_run_concat(self, first: Seq<int>, second: Seq<int>, start: Run)
        ensures
            self.run(first + second, start) == self.run(second, self.run(first, start)),
        decreases first.len(),
    {
        if first.len() == 0 {
            assert(first + second =~= second);
        } else {
            assert((first + second).drop_first() =~= first.drop_first() + second);
            self.lemma_run_concat(
                first.drop_first(),
                second,
                start.after(self.verdict(first[0]), self.check),
            );
        }
    }

    /// Once a traversal has failed, nothing that follows changes its state.
    pub proof fn lemma_run_after_failure(self, order: Seq<int>, start: Run)
        requires
            start.failed is Some,
        ensures
            self.run(order, start) == start,
        decreases order.len(),
    {
        if order.len() > 0 {
            self.lemma_run_after_failure(order.drop_first(), start);
        }
    }
}

/// A pack laid out for resolving: its index, the header of every entry, its
/// bytes, its decoded objects and the forest of its delta chains.
pub struct Resolver<'a> {
    pub check: SafetyCheck,
    /// The index entries in ascending order of pack offset.
    pub entries: &'a [IndexEntry],
    /// The header of each entry, in the order of `entries`.
    pub pack_entries: &'a [PackEntry],
    /// Every byte of the pack.
    pub data: &'a [u8],
    /// The decoded object of each entry, `None` where decoding failed.
    pub objects: &'a [Option<Vec<u8>>],
    pub forest: &'a Forest,
}

impl<'a> View for Resolver<'a> {
    type V = Job;

    open spec fn view(&self) -> Job {
        Job {
            check: self.check,
            entries: self.entries@,
            pack_entries: self.pack_entries@,
            data: self.data@,
            objects: contents_of(self.objects@),
            shape: self.forest@,
        }
    }
}

impl<'a> Resolver<'a> {
    /// Checks entry `i` of the pack.
    pub fn check_node(&self, i: usize) -> (res: Result<EntryWithDefault, Error>)
        requires
            self@.valid(),
            i < self.entries@.len(),
        ensures
            res == self@.verdict(i as int),
    {
        let node = &self.forest.nodes[i];
        assert(self.forest@.nodes[i as int] == node@);
        let end = end_of_entry(self.entries, i, end_of_entries(self.data));
        let object: Option<&[u8]> = match &self.objects[i] {
            Some(bytes) => Some(bytes.as_slice()),
            None => None,
        };
        process_entry(
            self.check,
            &self.entries[i],
            &self.pack_entries[i],
            node.kind,
            node.level as u16,
            end,
            self.data,
            object,
        )
    }

    /// Records the verdict on one object: keeps a good object, notes an
    /// error that the policy tolerates, and hands back any other.
    pub fn record(
        &self,
        verdict: Result<EntryWithDefault, Error>,
        items: &mut Vec<EntryWithDefault>,
        skipped: &mut Vec<Error>,
    ) -> (res: Result<(), Error>)
        ensures
            gathered(final(items)@, final(skipped)@, res) == gathered(
                old(items)@,
                old(skipped)@,
                Ok(()),
            ).after(verdict, self.check),
    {
        match verdict {
            Ok(item) => {
                items.push(item);
                Ok(())
            },
            Err(error) => {
                if error.fatal_under(self.check) {
                    Err(error)
                } else {
                    skipped.push(error);
                    Ok(())
                }
            },
        }
    }

    /// Whether every pair of the stack names a node and a position among,
    /// or just past, its children.
    pub open spec fn stack_ok(&self, stack: Seq<(usize, usize)>) -> bool {
        forall|k: int|
            0 <= k < stack.len() ==> (#[trigger] stack[k]).0 < self.forest@.nodes.len()
                && stack[k].1 <= self.forest@.nodes[stack[k].0 as int].children.len()
    }

    /// Visits the tree below `root` depth-first, every base before its
    /// deltas, and adds what it finds to `items` and `skipped`. Stops at the
    /// first error that the policy does not tolerate and returns it.
    pub fn resolve_tree(
        &self,
        root: usize,
        items: &mut Vec<EntryWithDefault>,
        skipped: &mut Vec<Error>,
    ) -> (res: Result<(), Error>)
        requires
            self@.valid(),
            root < self.entries@.len(),
        ensures
            gathered(final(items)@, final(skipped)@, res) == self@.run(
                self.forest@.subtree(root as int),
                gathered(old(items)@, old(skipped)@, Ok(())),
            ),
    {
        let ghost shape = self.forest@;
        let ghost start = gathered(items@, skipped@, Ok(()));
        let ghost job = self@;
        let ghost target = job.run(shape.subtree(root as int), start);
        let mut stack: Vec<(usize, usize)> = Vec::new();
        stack.push((root, 0));
        proof {
            assert(stack@.last() == (root, 0usize));
            assert(stack@.drop_last() =~= Seq::empty());
            assert(shape.pending(Seq::empty()) =~= Seq::empty());
            assert(shape.pending(stack@) =~= shape.subtrees(root as int, 0));
            assert(shape.subtree(root as int).drop_first() =~= shape.subtrees(root as int, 0));
        }
        let first = self.check_node(root);
        if let Err(error) = self.record(first, items, skipped) {
            proof {
                job.lemma_run_after_failure(
                    shape.subtrees(root as int, 0),
                    start.after(job.verdict(root as int), self.check),
                );
            }
            return Err(error);
        }
        while stack.len() > 0
            invariant
                job == self@,
                job.valid(),
                shape == self.forest@,
                self.stack_ok(stack@),
                start == gathered(old(items)@, old(skipped)@, Ok(())),
                target == job.run(shape.subtree(root as int), start),
                job.run(shape.pending(stack@), gathered(items@, skipped@, Ok(()))) == target,
            decreases shape.pending(stack@).len(), stack.len(),
        {
            let ghost old_stack = stack@;
            let ghost rest = old_stack.drop_last();
            let ghost here = gathered(items@, skipped@, Ok(()));
            let (node, next) = stack[stack.len() - 1];
            assert(old_stack[old_stack.len() - 1] == (node, next));
            assert(shape.node_ok(node as int));
            assert(shape.nodes[node as int] == self.forest.nodes[node as int]@);
            stack.pop();
            assert(stack@ == rest);
            if next < self.forest.nodes[node].children.len() {
                let child = self.forest.nodes[node].children[next];
                assert(child == shape.nodes[node as int].children[next as int]);
                stack.push((node, next + 1));
                stack.push((child, 0));
                proof {
                    let upper = rest.push((node, (next + 1) as usize));
                    assert(stack@.drop_last() =~= upper);
                    assert(upper.drop_last() =~= rest);
                    let tail = shape.subtrees(child as int, 0) + (shape.subtrees(
                        node as int,
                        next + 1,
                    ) + shape.pending(rest));
                    assert(shape.pending(upper) == shape.subtrees(node as int, next + 1)
                        + shape.pending(rest));
                    assert(shape.pending(stack@) == tail);
                    assert(old_stack.last() == (node, next));
                    assert(shape.pending(old_stack) == shape.subtrees(node as int, next as int)
                        + shape.pending(rest));
                    assert(node < child < shape.nodes.len());
                    assert(shape.subtrees(node as int, next as int) == shape.subtree(
                        child as int,
                    ) + shape.subtrees(node as int, next + 1));
                    assert(shape.subtree(child as int) == seq![child as int] + shape.subtrees(
                        child as int,
                        0,
                    ));
                    assert(shape.pending(old_stack) =~= seq![child as int] + tail);
                    assert((seq![child as int] + tail).drop_first() =~= tail);
                    assert(job.run(shape.pending(old_stack), here) == job.run(
                        tail,
                        here.after(job.verdict(child as int), self.check),
                    ));
                }
                let verdict = self.check_node(child);
                if let Err(error) = self.record(verdict, items, skipped) {
                    proof {
                        job.lemma_run_after_failure(
                            shape.pending(stack@),
                            here.after(job.verdict(child as int), self.check),
                        );
                    }
                    return Err(error);
                }
            } else {
                proof {
                    assert(shape.pending(old_stack) =~= shape.pending(rest));
                }
            }
        }
        proof {
            assert(shape.pending(stack@) =~= Seq::empty());
        }
        Ok(())
    }

    /// Visits every tree of the forest in turn and returns the objects that
    /// passed every check, in the order visited, with the errors that were
    /// tolerated; or the first error that was not.
    pub fn resolve_all(&self) -> (res: Result<(Vec<EntryWithDefault>, Vec<Error>), Error>)
        requires
            self@.valid(),
        ensures
            match res {
                Ok((items, skipped)) => self@.outcome() == gathered(items@, skipped@, Ok(())),
                Err(error) => self@.outcome().failed == Some(error),
            },
    {
        let ghost job = self@;
        let ghost shape = self.forest@;
        let mut items: Vec<EntryWithDefault> = Vec::new();
        let mut skipped: Vec<Error> = Vec::new();
        let mut k: usize = 0;
        assert(gathered(items@, skipped@, Ok(())) == Run::fresh());
        while k < self.forest.roots.len()
            invariant
                job == self@,
                job.valid(),
                shape == self.forest@,
                k <= self.forest.roots.len(),
                job.run(shape.trees_from(k as int), gathered(items@, skipped@, Ok(())))
                    == job.outcome(),
            decreases self.forest.roots.len() - k,
        {
            let ghost here = gathered(items@, skipped@, Ok(()));
            let root = self.forest.roots[k];
            proof {
                assert(root == shape.roots[k as int]);
                job.lemma_run_concat(
                    shape.subtree(root as int),
                    shape.trees_from(k + 1),
                    here,
                );
            }
            if let Err(error) = self.resolve_tree(root, &mut items, &mut skipped) {
                proof {
                    job.lemma_run_after_failure(
                        shape.trees_from(k + 1),
                        job.run(shape.subtree(root as int), here),
                    );
                }
                return Err(error);
            }
            k += 1;
        }
        Ok((items, skipped))
    }
}

/// The state of a traversal that holds the given items and notes and has
/// either gone well so far or ended with an error.
pub open spec fn gathered(items: Seq<EntryWithDefault>, skipped: Seq<Error>, res: Result<(), Error>) -> Run {
    Run {
        items,
        skipped,
        failed: match res {
            Ok(_) => None,
            Err(error) => Some(error),
        },
    }
}

/// The roots that are still to be handed out to workers. Each worker takes
/// one root at a time and resolves the whole tree below it, so no two
/// workers ever meet in a tree; after an error that ends the traversal no
/// further root is handed out.
#[derive(Clone, Copy, Debug, PartialEq, Eq)]
pub struct RootQueue {
    /// Position of the next root to hand out.
    pub next: usize,
    /// Whether a worker has reported an error that ends the traversal.
    pub stopped: bool,
}

impl RootQueue {
    /// The queue from which no root has been taken.
    pub fn new() -> (queue: RootQueue)
        ensures
            queue == (RootQueue { next: 0, stopped: false }),
    {
        RootQueue { next: 0, stopped: false }
    }

    /// Hands out the next root of the forest, in ascending order, each root
    /// once; `None` when all are taken or the queue was stopped.
    pub fn take(&mut self, forest: &Forest) -> (root: Option<usize>)
        ensures
            match root {
                Some(root) => {
                    &&& !old(self).stopped
                    &&& old(self).next < forest.roots@.len()
                    &&& root == forest.roots@[old(self).next as int]
                    &&& *final(self) == (RootQueue { next: (old(self).next + 1) as usize, ..*old(self) })
                },
                None => {
                    &&& old(self).stopped || old(self).next >= forest.roots@.len()
                    &&& *final(self) == *old(self)
                },
            },
    {
        if self.stopped || self.next >= forest.roots.len() {
            return None;
        }
        let root = forest.roots[self.next];
        self.next = self.next + 1;
        Some(root)
    }

    /// Keeps every further root back.
    pub fn stop(&mut self)
        ensures
            *final(self) == (RootQueue { stopped: true, ..*old(self) }),
    {
        self.stopped = true;
    }
}

} // verus!
