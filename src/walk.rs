//! The pre-order walk of a directory tree, with the directory reads left to
//! the caller: each time the walk reaches a directory, the caller lists it and
//! hands the children in; the walk orders them and visits them before the
//! directory's next sibling.
use vstd::prelude::*;
use crate::tree_build::{listing_wf, siblings_sorted, sort_siblings, Entry};

verus! {

/// A walk in progress.
pub struct Walk {
    /// For each depth, the siblings still to visit, the next one last.
    pub frames: Vec<Vec<Entry>>,
    /// The entries visited so far, in order.
    pub listing: Vec<Entry>,
}

/// `e` moved to depth `d`.
pub open spec fn at_depth(e: Entry, d: usize) -> Entry {
    Entry { name: e.name, is_dir: e.is_dir, depth: d }
}

/// The deepest depth with a sibling still to visit, or -1 when none has one.
pub open spec fn next_frame(frames: Seq<Vec<Entry>>) -> int
    decreases frames.len(),
{
    if frames.len() == 0 {
        -1
    } else if frames.last()@.len() > 0 {
        frames.len() - 1
    } else {
        next_frame(frames.drop_last())
    }
}

proof fn lemma_next_frame_bounds(frames: Seq<Vec<Entry>>)
    ensures
        -1 <= next_frame(frames) < frames.len(),
        next_frame(frames) >= 0 ==> frames[next_frame(frames)]@.len() > 0,
        forall|k: int| next_frame(frames) < k < frames.len() ==> #[trigger] frames[k]@.len() == 0,
    decreases frames.len(),
{
    if frames.len() > 0 && frames.last()@.len() == 0 {
        lemma_next_frame_bounds(frames.drop_last());
        assert forall|k: int| next_frame(frames) < k < frames.len() implies #[trigger] frames[k]@.len()
            == 0 by {
            if k < frames.len() - 1 {
                assert(frames.drop_last()[k] == frames[k]);
            }
        }
    }
}

impl Walk {
    pub open spec fn wf(&self) -> bool {
        let fr = self.frames@;
        let li = self.listing@;
        &&& forall|k: int, j: int|
            0 <= k < fr.len() && 0 <= j < fr[k]@.len() ==> (#[trigger] fr[k]@[j]).depth == k
        &&& listing_wf(li)
        &&& li.len() == 0 ==> fr.len() <= 1
        &&& li.len() > 0 ==> {
            ||| fr.len() == 0
            ||| fr.len() == li.last().depth + 1
            ||| fr.len() == li.last().depth + 2 && li.last().is_dir
        }
    }

    /// Whether the walk waits for a directory's children: the root's at the
    /// start, or those of the directory it has just visited.
    pub open spec fn awaits_children(&self) -> bool {
        let li = self.listing@;
        if li.len() == 0 {
            self.frames@.len() == 0
        } else {
            li.last().is_dir && self.frames@.len() == li.last().depth + 1
        }
    }

    pub fn new() -> (w: Walk)
        ensures
            w.wf(),
            w.awaits_children(),
            w.listing@.len() == 0,
    {
        Walk { frames: Vec::new(), listing: Vec::new() }
    }

    pub fn wants_children(&self) -> (b: bool)
        requires
            self.wf(),
        ensures
            b == self.awaits_children(),
    {
        let n = self.listing.len();
        if n == 0 {
            self.frames.len() == 0
        } else {
            let last = &self.listing[n - 1];
            last.is_dir && self.frames.len() > 0 && self.frames.len() - 1 == last.depth
        }
    }

    /// Hands in the children of the directory the walk waits on; they will be
    /// visited next, in sibling order (see `crate::tree_build::entry_precedes`),
    /// one level deeper.
    pub fn push_children(&mut self, children: Vec<Entry>)
        requires
            old(self).wf(),
            old(self).awaits_children(),
        ensures
            final(self).wf(),
            final(self).listing@ == old(self).listing@,
            final(self).frames@.len() == old(self).frames@.len() + 1,
            final(self).frames@.drop_last() == old(self).frames@,
            final(self).frames@.last()@.to_multiset() == Seq::new(
                children@.len(),
                |i: int| at_depth(children@[i], old(self).frames@.len() as usize),
            ).to_multiset(),
            siblings_sorted(final(self).frames@.last()@.reverse()),
    {
        let depth = self.frames.len();
        let mut moved: Vec<Entry> = Vec::new();
        let mut i: usize = 0;
        while i < children.len()
            invariant
                i <= children@.len(),
                moved@ =~= Seq::new(i as nat, |j: int| at_depth(children@[j], depth)),
            decreases children@.len() - i,
        {
            let c = &children[i];
            moved.push(Entry { name: c.name.clone(), is_dir: c.is_dir, depth });
            i = i + 1;
        }
        let ghost relabelled = moved@;
        let mut sorted = sort_siblings(moved);
        let ghost sorted_all = sorted@;
        let mut frame: Vec<Entry> = Vec::new();
        while sorted.len() > 0
            invariant
                sorted@.len() <= sorted_all.len(),
                sorted@ == sorted_all.subrange(0, sorted@.len() as int),
                frame@ =~= sorted_all.subrange(sorted@.len() as int, sorted_all.len() as int).reverse(),
            decreases sorted@.len(),
        {
            let e = sorted.pop().unwrap();
            frame.push(e);
        }
        proof {
            broadcast use vstd::seq_lib::group_to_multiset_ensures;
            assert(frame@.reverse() =~= sorted_all);
            sorted_all.lemma_reverse_to_multiset();
            assert(frame@ =~= sorted_all.reverse());
            assert forall|j: int| 0 <= j < frame@.len() implies (#[trigger] frame@[j]).depth == depth by {
                assert(frame@[j] == sorted_all[sorted_all.len() - 1 - j]);
                assert(sorted_all.to_multiset().count(sorted_all[sorted_all.len() - 1 - j]) > 0);
                assert(relabelled.to_multiset().count(sorted_all[sorted_all.len() - 1 - j]) > 0);
                assert(relabelled.contains(sorted_all[sorted_all.len() - 1 - j]));
            }
        }
        let ghost old_frames = self.frames@;
        self.frames.push(frame);
        proof {
            assert(self.frames@.drop_last() =~= old_frames);
            let fr = self.frames@;
            assert forall|k: int, j: int|
                0 <= k < fr.len() && 0 <= j < fr[k]@.len() implies (#[trigger] fr[k]@[j]).depth == k by {
                if k < old_frames.len() {
                    assert(fr[k] == old_frames[k]);
                }
            }
        }
    }

    /// Visits the next entry: the next sibling at the deepest depth that has
    /// one. Returns it, or `None` when the walk is over.
    pub fn advance(&mut self) -> (r: Option<Entry>)
        requires
            old(self).wf(),
        ensures
            final(self).wf(),
            ({
                let k = next_frame(old(self).frames@);
                if k < 0 {
                    &&& r is None
                    &&& final(self).listing@ == old(self).listing@
                    &&& final(self).frames@.len() == 0
                } else {
                    let e = old(self).frames@[k]@.last();
                    &&& r == Some(e)
                    &&& final(self).listing@ == old(self).listing@.push(e)
                    &&& final(self).frames@.len() == k + 1
                    &&& final(self).frames@.drop_last() == old(self).frames@.subrange(0, k)
                    &&& final(self).frames@[k]@ == old(self).frames@[k]@.drop_last()
                }
            }),
    {
        proof {
            lemma_next_frame_bounds(self.frames@);
        }
        let ghost k = next_frame(self.frames@);
        let ghost start = self.frames@;
        while self.frames.len() > 0 && self.frames[self.frames.len() - 1].len() == 0
            invariant
                k == next_frame(start),
                k < self.frames@.len() || k == -1,
                self.frames@.len() <= start.len(),
                self.frames@ == start.subrange(0, self.frames@.len() as int),
                next_frame(self.frames@) == k,
                self.listing@ == old(self).listing@,
                start == old(self).frames@,
            decreases self.frames@.len(),
        {
            let ghost before = self.frames@;
            self.frames.pop();
            proof {
                assert(self.frames@ =~= before.drop_last());
                assert(self.frames@ =~= start.subrange(0, self.frames@.len() as int));
                lemma_next_frame_bounds(self.frames@);
            }
        }
        if self.frames.len() == 0 {
            proof {
                if k >= 0 {
                    assert(false);
                }
            }
            return None;
        }
        let mut top = self.frames.pop().unwrap();
        let e = top.pop().unwrap();
        let copy = Entry { name: e.name.clone(), is_dir: e.is_dir, depth: e.depth };
        self.frames.push(top);
        proof {
            assert(self.frames@.drop_last() =~= start.subrange(0, k));
        }
        let ghost old_listing = self.listing@;
        self.listing.push(e);
        proof {
            let fr = self.frames@;
            let li = self.listing@;
            assert(e.depth == k);
            assert(li.drop_last() == old_listing);
            assert forall|k2: int, j: int|
                0 <= k2 < fr.len() && 0 <= j < fr[k2]@.len() implies (#[trigger] fr[k2]@[j]).depth
                == k2 by {
                if k2 < k {
                    assert(fr[k2] == start[k2]);
                } else {
                    assert(fr[k2]@[j] == start[k]@[j]);
                }
            }
            assert forall|i: int|
                #![trigger li[i + 1]]
                0 <= i < li.len() - 1 implies {
                &&& li[i + 1].depth <= li[i].depth + 1
                &&& li[i + 1].depth == li[i].depth + 1 ==> li[i].is_dir
            } by {
                if i < li.len() - 2 {
                    assert(li[i] == old_listing[i] && li[i + 1] == old_listing[i + 1]);
                } else {
                    assert(li[i] == old_listing.last());
                }
            }
        }
        Some(copy)
    }
}

} // verus!
