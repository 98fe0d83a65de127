//! The descending engine: the groups of candidates that share a facet value,
//! in decreasing order of value.

use vstd::prelude::*;
use crate::bitmap::{members, is_empty, intersect_with, remove_all};
use crate::group::{
    FacetGroupValue, Step, union_of, pairwise_disjoint, lemma_pop, lemma_shrink_last, lemma_push,
};
use crate::key::FacetGroupKey;

verus! {

/// One level of the descent: the candidates not yet found under the group
/// being scanned, how many entries its scan may still yield, and the right
/// edge of what is left to scan (the bound of the entry last read, excluded,
/// or the scan's own end).
struct Frame {
    remaining: roaring::RoaringBitmap,
    budget: usize,
    right: Vec<u8>,
    right_included: bool,
}

/// A lazy, depth-first walk down the hierarchy of one field that yields, in
/// decreasing order of facet value, the candidates sharing each value.
pub struct DescendingFacetSort {
    field_id: u16,
    stack: Vec<Frame>,
    finished: bool,
    candidates: Ghost<Set<u32>>,
    emitted: Ghost<Set<u32>>,
    dropped: Ghost<Set<u32>>,
}

impl DescendingFacetSort {
    /// The field whose hierarchy is walked.
    pub closed spec fn field(&self) -> u16 {
        self.field_id
    }

    /// Whether the sequence has ended.
    pub closed spec fn is_finished(&self) -> bool {
        self.finished || self.stack@.len() == 0
    }

    /// The candidate set the walk started with.
    pub closed spec fn candidates(&self) -> Set<u32> {
        self.candidates@
    }

    /// Every id emitted so far.
    pub closed spec fn emitted(&self) -> Set<u32> {
        self.emitted@
    }

    /// The ids left behind by scans that ended before finding them: ids with
    /// no value for the field.
    pub closed spec fn dropped(&self) -> Set<u32> {
        self.dropped@
    }

    /// The candidates still to be looked for under each open scan, outermost first.
    pub closed spec fn pending(&self) -> Seq<Set<u32>> {
        self.stack@.map_values(|f: Frame| members(f.remaining))
    }

    /// The right edge of what each open scan has left, outermost first: a
    /// bound, and whether a key with that bound is still to be read.
    pub closed spec fn rights(&self) -> Seq<(Seq<u8>, bool)> {
        self.stack@.map_values(|f: Frame| (f.right@, f.right_included))
    }

    /// How many entries each open scan may still yield, outermost first.
    pub closed spec fn budgets(&self) -> Seq<usize> {
        self.stack@.map_values(|f: Frame| f.budget)
    }

    /// The candidates are split, without overlap, into those emitted, those
    /// dropped and those pending under the open scans.
    pub open spec fn wf(&self) -> bool {
        &&& self.pending().len() == self.budgets().len()
        &&& self.pending().len() == self.rights().len()
        &&& pairwise_disjoint(self.pending())
        &&& self.emitted().disjoint(self.dropped())
        &&& self.emitted().disjoint(union_of(self.pending()))
        &&& self.dropped().disjoint(union_of(self.pending()))
        &&& self.candidates() == self.emitted() + self.dropped() + union_of(self.pending())
    }

    /// The driver has just been told to read, and its innermost scan may
    /// still yield an entry.
    pub open spec fn expects_entry(&self) -> bool {
        &&& !self.is_finished()
        &&& self.budgets().len() > 0
        &&& self.budgets().last() > 0
    }

    /// Starts a walk of `field_id` from `highest_level`, the deepest level of
    /// the field, and `bounds`, its smallest and largest level-0 values
    /// (`None` where the field has no value). The driver opens the outermost
    /// scan over the deepest level, from the largest bound down to the
    /// smallest, both included, with no bound on its length.
    pub fn new(
        field_id: u16,
        highest_level: u8,
        bounds: Option<(Vec<u8>, Vec<u8>)>,
        candidates: roaring::RoaringBitmap,
    ) -> (r: (DescendingFacetSort, Step))
        ensures
            r.0.wf(),
            r.0.field() == field_id,
            r.0.candidates() == members(candidates),
            r.0.emitted() == Set::<u32>::empty(),
            bounds is None <==> r.0.is_finished(),
            bounds is None ==> r.1 is Finished,
            bounds matches Some((first, last)) ==> {
                &&& r.1 matches Step::OpenBackward { start, end, end_included } && start.parts() == (
                    field_id,
                    highest_level,
                    first@,
                ) && end.parts() == (field_id, highest_level, last@) && end_included
                &&& r.0.pending() == seq![members(candidates)]
                &&& r.0.budgets() == seq![usize::MAX]
                &&& r.0.rights() == seq![(last@, true)]
            },
    {
        let ghost c = members(candidates);
        match bounds {
            None => {
                let e = DescendingFacetSort {
                    field_id,
                    stack: Vec::new(),
                    finished: true,
                    candidates: Ghost(c),
                    emitted: Ghost(Set::empty()),
                    dropped: Ghost(c),
                };
                assert(e.pending() =~= Seq::<Set<u32>>::empty());
                assert(e.budgets() =~= Seq::<usize>::empty());
                assert(e.rights() =~= Seq::<(Seq<u8>, bool)>::empty());
                assert(union_of(e.pending()) == Set::<u32>::empty());
                assert(c =~= Set::<u32>::empty() + c + Set::<u32>::empty());
                assert(pairwise_disjoint(e.pending()));
                assert(e.candidates() == e.emitted() + e.dropped() + union_of(e.pending()));
                (e, Step::Finished)
            },
            Some((first, last)) => {
                let end = FacetGroupKey { field_id, level: highest_level, left_bound: last.clone() };
                let mut stack: Vec<Frame> = Vec::new();
                stack.push(Frame { remaining: candidates, budget: usize::MAX, right: last, right_included: true });
                let e = DescendingFacetSort {
                    field_id,
                    stack,
                    finished: false,
                    candidates: Ghost(c),
                    emitted: Ghost(Set::empty()),
                    dropped: Ghost(Set::empty()),
                };
                assert(e.pending() =~= seq![c]);
                assert(e.budgets() =~= seq![usize::MAX]);
                assert(e.rights() =~= seq![(end.left_bound@, true)]);
                assert(e.pending().drop_last() =~= Seq::<Set<u32>>::empty());
                assert(union_of(e.pending().drop_last()) == Set::<u32>::empty());
                assert(union_of(e.pending()) =~= c);
                assert(pairwise_disjoint(e.pending().drop_last()));
                assert(pairwise_disjoint(e.pending()));
                assert(e.candidates() == e.emitted() + e.dropped() + union_of(e.pending()));
                let start = FacetGroupKey { field_id, level: highest_level, left_bound: first };
                (e, Step::OpenBackward { start, end, end_included: true })
            },
        }
    }

    /// Ends the innermost scan: its pending candidates are dropped.
    fn close_innermost(&mut self) -> (r: Frame)
        requires
            old(self).wf(),
            old(self).stack@.len() > 0,
        ensures
            final(self).wf(),
            r == old(self).stack@.last(),
            final(self).stack@ == old(self).stack@.drop_last(),
            final(self).field_id == old(self).field_id,
            final(self).finished == old(self).finished,
            final(self).candidates() == old(self).candidates(),
            final(self).emitted() == old(self).emitted(),
            final(self).dropped() == old(self).dropped() + old(self).pending().last(),
    {
        let ghost p = self.pending();
        let top = self.stack.pop().unwrap();
        proof {
            assert(self.pending() =~= p.drop_last());
            assert(self.budgets() =~= old(self).budgets().drop_last());
            assert(self.rights() =~= old(self).rights().drop_last());
            lemma_pop(p);
            self.dropped = Ghost(self.dropped@ + members(top.remaining));
            assert(self.candidates() =~= self.emitted() + self.dropped() + union_of(self.pending()));
        }
        top
    }

    /// Tells the driver what to do next: read from the innermost scan, drop
    /// it once it may yield no more entries, or stop.
    pub fn poll(&mut self) -> (r: Step)
        requires
            old(self).wf(),
        ensures
            final(self).wf(),
            final(self).field() == old(self).field(),
            final(self).candidates() == old(self).candidates(),
            final(self).emitted() == old(self).emitted(),
            old(self).is_finished() ==> r is Finished && *final(self) == *old(self),
            !old(self).is_finished() && old(self).budgets().last() == 0 ==> {
                &&& r is Close
                &&& final(self).pending() == old(self).pending().drop_last()
                &&& final(self).budgets() == old(self).budgets().drop_last()
                &&& final(self).rights() == old(self).rights().drop_last()
                &&& final(self).dropped() == old(self).dropped() + old(self).pending().last()
                &&& final(self).is_finished() == (old(self).pending().len() == 1)
            },
            !old(self).is_finished() && old(self).budgets().last() > 0 ==> {
                &&& r is Read
                &&& *final(self) == *old(self)
                &&& final(self).expects_entry()
            },
    {
        if self.finished || self.stack.len() == 0 {
            return Step::Finished;
        }
        let n = self.stack.len();
        if self.stack[n - 1].budget == 0 {
            let ghost p = self.pending();
            let ghost b = self.budgets();
            let ghost rs = self.rights();
            let _ = self.close_innermost();
            proof {
                assert(self.pending() =~= p.drop_last());
                assert(self.budgets() =~= b.drop_last());
                assert(self.rights() =~= rs.drop_last());
            }
            Step::Close
        } else {
            Step::Read
        }
    }

    /// The innermost scan has no entry left: its pending candidates, if any,
    /// have no value for the field and are dropped. The driver drops the scan.
    pub fn on_scan_end(&mut self)
        requires
            old(self).wf(),
            !old(self).is_finished(),
        ensures
            final(self).wf(),
            final(self).field() == old(self).field(),
            final(self).candidates() == old(self).candidates(),
            final(self).emitted() == old(self).emitted(),
            final(self).pending() == old(self).pending().drop_last(),
            final(self).budgets() == old(self).budgets().drop_last(),
            final(self).rights() == old(self).rights().drop_last(),
            final(self).dropped() == old(self).dropped() + old(self).pending().last(),
            final(self).is_finished() == (old(self).pending().len() == 1),
    {
        let ghost p = self.pending();
        let ghost b = self.budgets();
        let ghost rs = self.rights();
        let _ = self.close_innermost();
        proof {
            assert(self.pending() =~= p.drop_last());
            assert(self.budgets() =~= b.drop_last());
            assert(self.rights() =~= rs.drop_last());
        }
    }


    /// Takes the entry just read from the innermost scan.
    ///
    /// A key of another field ends the walk. Where the innermost scan has no
    /// candidate left, it is dropped. Otherwise the entry's documents are
    /// intersected with that scan's pending candidates; an empty intersection
    /// is passed over; a non-empty one leaves the scan's pending set and is
    /// emitted at level 0, or is searched for under the group's children,
    /// whose scan goes down from the scan's right edge, one level down, to
    /// the group's bound and takes `value.size` entries. Either way the
    /// entry's bound, excluded, becomes the scan's right edge.
    pub fn on_entry(&mut self, key: FacetGroupKey, value: FacetGroupValue) -> (r: Step)
        requires
            old(self).wf(),
            old(self).expects_entry(),
        ensures
            final(self).wf(),
            final(self).field() == old(self).field(),
            final(self).candidates() == old(self).candidates(),
            ({
                let p = old(self).pending();
                let top = p.last();
                let n = p.len() - 1;
                let spent = old(self).budgets().update(n, (old(self).budgets().last() - 1) as usize);
                let edge = old(self).rights().last();
                let moved = old(self).rights().update(n, (key.left_bound@, false));
                let found = members(value.bitmap).intersect(top);
                if key.field_id != old(self).field() {
                    &&& r is Finished
                    &&& final(self).is_finished()
                    &&& final(self).emitted() == old(self).emitted()
                } else if top == Set::<u32>::empty() {
                    &&& r is Close
                    &&& final(self).is_finished() == (p.len() == 1)
                    &&& final(self).pending() == p.drop_last()
                    &&& final(self).budgets() == old(self).budgets().drop_last()
                    &&& final(self).rights() == old(self).rights().drop_last()
                    &&& final(self).emitted() == old(self).emitted()
                } else if found == Set::<u32>::empty() {
                    &&& r is Read
                    &&& !final(self).is_finished()
                    &&& final(self).pending() == p
                    &&& final(self).budgets() == spent
                    &&& final(self).rights() == moved
                    &&& final(self).emitted() == old(self).emitted()
                } else if key.level == 0 {
                    &&& r matches Step::Emit(b) && members(b) == found
                    &&& !final(self).is_finished()
                    &&& final(self).pending() == p.update(n, top.difference(found))
                    &&& final(self).budgets() == spent
                    &&& final(self).rights() == moved
                    &&& final(self).emitted() == old(self).emitted() + found
                } else {
                    &&& r matches Step::OpenBackward { start, end, end_included } && start.parts() == (
                        key.field_id,
                        (key.level - 1) as u8,
                        key.left_bound@,
                    ) && end.parts() == (key.field_id, (key.level - 1) as u8, edge.0)
                        && end_included == edge.1
                    &&& !final(self).is_finished()
                    &&& final(self).pending() == p.update(n, top.difference(found)).push(found)
                    &&& final(self).budgets() == spent.push(value.size as usize)
                    &&& final(self).rights() == moved.push(edge)
                    &&& final(self).emitted() == old(self).emitted()
                }
            }),
            r matches Step::Emit(b) ==> {
                &&& members(b) != Set::<u32>::empty()
                &&& members(b).subset_of(old(self).candidates())
                &&& members(b).disjoint(old(self).emitted())
            },
            members(value.bitmap).disjoint(old(self).candidates()) ==> r is Read || r is Close
                || r is Finished,
    {
        let ghost p = self.pending();
        let ghost bud = self.budgets();
        let ghost rs = self.rights();
        let ghost n = p.len() - 1;
        let mut top = self.stack.pop().unwrap();
        top.budget = top.budget - 1;
        proof {
            assert(self.pending() =~= p.drop_last());
            assert(self.budgets() =~= bud.drop_last());
            assert(self.rights() =~= rs.drop_last());
            lemma_pop(p);
        }
        if key.field_id != self.field_id {
            self.stack.push(top);
            self.finished = true;
            proof {
                assert(self.pending() =~= p);
                assert(self.budgets() =~= bud.update(n, top.budget));
                assert(self.rights() =~= rs);
            }
            return Step::Finished;
        }
        if is_empty(&top.remaining) {
            proof {
                assert(union_of(self.pending()) =~= union_of(p));
                assert(self.candidates() =~= self.emitted() + self.dropped() + union_of(self.pending()));
            }
            return Step::Close;
        }
        let mut bitmap = value.bitmap;
        intersect_with(&mut bitmap, &top.remaining);
        let ghost found = members(bitmap);
        let edge = top.right.clone();
        let edge_included = top.right_included;
        proof {
            assert(edge@ == top.right@);
        }
        if is_empty(&bitmap) {
            top.right = key.left_bound;
            top.right_included = false;
            self.stack.push(top);
            proof {
                assert(self.pending() =~= p);
                assert(self.budgets() =~= bud.update(n, top.budget));
                assert(self.rights() =~= rs.update(n, (key.left_bound@, false)));
            }
            return Step::Read;
        }
        let ghost old_top = members(top.remaining);
        proof {
            assert(found.subset_of(self.candidates()));
            assert(members(value.bitmap).disjoint(self.candidates()) ==> found =~= Set::<u32>::empty());
        }
        remove_all(&mut top.remaining, &bitmap);
        let below_start = key.left_bound.clone();
        proof {
            assert(below_start@ == key.left_bound@);
        }
        top.right = key.left_bound;
        top.right_included = false;
        self.stack.push(top);
        proof {
            assert(self.pending() =~= p.update(n, old_top.difference(found)));
            assert(self.budgets() =~= bud.update(n, top.budget));
            assert(self.rights() =~= rs.update(n, (key.left_bound@, false)));
            lemma_shrink_last(p, old_top.difference(found));
        }
        if key.level == 0 {
            proof {
                self.emitted = Ghost(self.emitted@ + found);
                assert(self.candidates() =~= self.emitted() + self.dropped() + union_of(self.pending()));
                assert(self.emitted().disjoint(union_of(self.pending())));
            }
            return Step::Emit(bitmap);
        }
        let ghost shrunk = self.pending();
        let ghost spent = self.budgets();
        let ghost moved = self.rights();
        let level = key.level - 1;
        let start = FacetGroupKey { field_id: self.field_id, level, left_bound: below_start };
        let end = FacetGroupKey { field_id: self.field_id, level, left_bound: edge.clone() };
        self.stack.push(
            Frame { remaining: bitmap, budget: value.size as usize, right: edge, right_included: edge_included },
        );
        proof {
            assert(self.pending() =~= shrunk.push(found));
            assert(self.budgets() =~= spent.push(value.size as usize));
            assert(self.rights() =~= moved.push(rs.last()));
            lemma_push(shrunk, found);
            assert(self.candidates() =~= self.emitted() + self.dropped() + union_of(self.pending()));
        }
        Step::OpenBackward { start, end, end_included: edge_included }
    }
}

} // verus!