//! The flat tree: a directory tree linearised in pre-order into lines, and a
//! selection cursor over them.
use vstd::prelude::*;

verus! {

/// What a line shows.
#[derive(Debug, Clone, PartialEq, Eq)]
pub enum LineType {
    /// A directory, by name.
    Dir(String),
    /// A file, by name.
    File(String),
    /// A marker standing for this many entries that were left out.
    Pruning(usize),
}

/// One row of the flattened tree.
#[derive(Debug, Clone)]
pub struct TreeLine {
    /// The letters that select this line; empty on a pruning marker.
    pub key: String,
    /// Nesting level: the root's children are at depth zero.
    pub depth: usize,
    /// For each column `d < depth`, whether the connector of column `d`
    /// reaches this row (see `branch`).
    pub left_branchs: Vec<bool>,
    pub content: LineType,
}

/// The browsable state: the lines, fixed once built, and the selected index.
#[derive(Debug, Clone)]
pub struct Tree {
    pub lines: Vec<TreeLine>,
    pub selection: usize,
}

pub open spec fn is_selectable(l: TreeLine) -> bool {
    !(l.content is Pruning)
}

/// The depth of each line.
pub open spec fn depths_of(lines: Seq<TreeLine>) -> Seq<usize> {
    Seq::new(lines.len(), |i: int| lines[i].depth)
}

/// Whether the connector of column `d` reaches row `i`: some line at depth
/// `d + 1` stands at `i` or below it before any line at depth `d` or less.
pub open spec fn branch(depths: Seq<usize>, i: int, d: nat) -> bool
    decreases depths.len() - i,
{
    if i < 0 || i >= depths.len() {
        false
    } else if depths[i] == d + 1 {
        true
    } else if depths[i] <= d {
        false
    } else {
        branch(depths, i + 1, d)
    }
}

/// Lines in pre-order: the first at depth zero, each one at most one level
/// deeper than the line above it, and deeper only below a directory.
pub open spec fn preorder_depths(lines: Seq<TreeLine>) -> bool {
    &&& lines.len() > 0 ==> lines[0].depth == 0
    &&& forall|i: int|
        #![trigger lines[i + 1]]
        0 <= i < lines.len() - 1 ==> {
            &&& lines[i + 1].depth <= lines[i].depth + 1
            &&& lines[i + 1].depth == lines[i].depth + 1 ==> lines[i].content is Dir
        }
}

/// Only the last line may be a pruning marker.
pub open spec fn pruning_last(lines: Seq<TreeLine>) -> bool {
    forall|i: int| 0 <= i < lines.len() - 1 ==> is_selectable(#[trigger] lines[i])
}

/// The branch flags of every line agree with `branch`.
pub open spec fn branch_flags(lines: Seq<TreeLine>) -> bool {
    forall|i: int|
        0 <= i < lines.len() ==> {
            &&& (#[trigger] lines[i]).left_branchs@.len() == lines[i].depth
            &&& forall|d: int|
                0 <= d < lines[i].depth ==> #[trigger] lines[i].left_branchs@[d] == branch(
                    depths_of(lines),
                    i,
                    d as nat,
                )
        }
}

/// Selectable lines have non-empty, pairwise distinct keys; markers have none.
pub open spec fn distinct_keys(lines: Seq<TreeLine>) -> bool {
    &&& forall|i: int|
        0 <= i < lines.len() ==> if is_selectable(#[trigger] lines[i]) {
            lines[i].key@.len() > 0
        } else {
            lines[i].key@.len() == 0
        }
    &&& forall|i: int, j: int|
        0 <= i < lines.len() && 0 <= j < lines.len() && i != j && is_selectable(lines[i])
            && is_selectable(lines[j]) ==> #[trigger] lines[i].key@ != #[trigger] lines[j].key@
}

pub open spec fn lines_wf(lines: Seq<TreeLine>) -> bool {
    &&& preorder_depths(lines)
    &&& pruning_last(lines)
    &&& branch_flags(lines)
    &&& distinct_keys(lines)
}

/// Whether some selectable line has key `k`.
pub open spec fn key_found(lines: Seq<TreeLine>, k: Seq<char>) -> bool {
    exists|i: int| 0 <= i < lines.len() && is_selectable(lines[i]) && #[trigger] lines[i].key@ == k
}

/// Where a lookup of key `k` leaves the selection: on the line with that key,
/// or on the first line when there is none.
pub open spec fn selected_index(lines: Seq<TreeLine>, k: Seq<char>) -> int {
    if key_found(lines, k) {
        choose|i: int| 0 <= i < lines.len() && is_selectable(lines[i]) && #[trigger] lines[i].key@ == k
    } else {
        0
    }
}

/// Where a move by `delta` from `sel` lands among `len` lines, clamped at both ends.
pub open spec fn clamped_move(sel: int, delta: int, len: int) -> int {
    if len <= 0 || sel + delta < 0 {
        0
    } else if sel + delta >= len {
        len - 1
    } else {
        sel + delta
    }
}

/// The key that `Tree::key` reports for a selection.
pub open spec fn key_at(lines: Seq<TreeLine>, sel: int) -> Seq<char> {
    if 0 <= sel < lines.len() {
        lines[sel].key@
    } else {
        Seq::empty()
    }
}

/// Where a sequence of moves from `sel` lands among `len` lines.
pub open spec fn moves_from(sel: int, deltas: Seq<int>, len: int) -> int
    decreases deltas.len(),
{
    if deltas.len() == 0 {
        sel
    } else {
        moves_from(clamped_move(sel, deltas[0], len), deltas.drop_first(), len)
    }
}

/// Every line below depth zero lies inside the subtree of a directory line
/// above it at each shallower depth: for every depth `e` less than its own
/// there is an earlier directory line at depth `e`, and every line between
/// that directory and it is deeper than `e`.
pub proof fn lemma_preorder(lines: Seq<TreeLine>, j: int, e: nat)
    requires
        lines_wf(lines),
        0 <= j < lines.len(),
        e < lines[j].depth,
    ensures
        exists|i: int|
            0 <= i < j && #[trigger] lines[i].depth == e && lines[i].content is Dir && forall|k: int|
                i < k <= j ==> #[trigger] lines[k].depth > e,
    decreases j,
{
    assert(j > 0);
    let p = j - 1;
    assert(lines[p + 1].depth <= lines[p].depth + 1);
    if lines[p].depth == e {
        assert(lines[p].depth == e && lines[p].content is Dir && forall|k: int|
            p < k <= j ==> #[trigger] lines[k].depth > e);
    } else {
        lemma_preorder(lines, p, e);
        let i = choose|i: int|
            0 <= i < p && #[trigger] lines[i].depth == e && lines[i].content is Dir && forall|
                k: int,
            |
                i < k <= p ==> #[trigger] lines[k].depth > e;
        assert(forall|k: int| i < k <= j ==> #[trigger] lines[k].depth > e);
    }
}

/// Whatever moves are made, a selection that starts on a line stays on one.
pub proof fn lemma_moves_in_bounds(sel: int, deltas: Seq<int>, len: int)
    requires
        0 <= sel < len,
    ensures
        0 <= moves_from(sel, deltas, len) < len,
    decreases deltas.len(),
{
    if deltas.len() > 0 {
        lemma_moves_in_bounds(clamped_move(sel, deltas[0], len), deltas.drop_first(), len);
    }
}

/// In a tree of at most 1001 lines, a move by -1000 lands on the first line
/// and a move by +1000 on the last, from any selection.
pub proof fn lemma_clamp_extremes(sel: int, len: int)
    requires
        0 <= sel < len <= 1001,
    ensures
        clamped_move(sel, -1000, len) == 0,
        clamped_move(sel, 1000, len) == len - 1,
{
}

/// Looking up the key of any selectable line finds that line, and the key of
/// the selection is then that key.
pub proof fn lemma_select_round_trip(lines: Seq<TreeLine>, i: int)
    requires
        lines_wf(lines),
        0 <= i < lines.len(),
        is_selectable(lines[i]),
    ensures
        key_found(lines, lines[i].key@),
        selected_index(lines, lines[i].key@) == i,
        key_at(lines, selected_index(lines, lines[i].key@)) == lines[i].key@,
{
    let k = lines[i].key@;
    assert(key_found(lines, k));
    let j = selected_index(lines, k);
    if j != i {
        assert(lines[j].key@ != lines[i].key@);
    }
}

impl Tree {
    pub open spec fn wf(&self) -> bool {
        &&& lines_wf(self.lines@)
        &&& if self.lines.len() == 0 {
            self.selection == 0
        } else {
            self.selection < self.lines.len()
        }
    }

    /// Moves the selection by `dy` lines, stopping at the first and last line.
    pub fn move_selection(&mut self, dy: i32)
        requires
            old(self).wf(),
        ensures
            final(self).wf(),
            final(self).lines@ == old(self).lines@,
            final(self).selection as int == clamped_move(
                old(self).selection as int,
                dy as int,
                old(self).lines.len() as int,
            ),
    {
        let len = self.lines.len();
        if len == 0 {
            self.selection = 0;
        } else if dy < 0 {
            let back = (0i64 - dy as i64) as usize;
            if back >= self.selection {
                self.selection = 0;
            } else {
                self.selection = self.selection - back;
            }
        } else {
            let forward = dy as usize;
            let last = len - 1;
            if forward >= last - self.selection {
                self.selection = last;
            } else {
                self.selection = self.selection + forward;
            }
        }
    }

    /// Selects the selectable line whose key is `key` and returns true; when
    /// there is none, selects the first line and returns false.
    pub fn try_select(&mut self, key: &str) -> (found: bool)
        requires
            old(self).wf(),
        ensures
            final(self).wf(),
            final(self).lines@ == old(self).lines@,
            found == key_found(old(self).lines@, key@),
            final(self).selection as int == selected_index(old(self).lines@, key@),
    {
        let target = key.to_owned();
        let len = self.lines.len();
        let mut i: usize = 0;
        while i < len
            invariant
                self.wf(),
                self.lines@ == old(self).lines@,
                len == self.lines.len(),
                target@ == key@,
                i <= len,
                forall|j: int|
                    0 <= j < i ==> !(is_selectable(self.lines@[j]) && #[trigger] self.lines@[j].key@
                        == key@),
            decreases len - i,
        {
            let selectable = match &self.lines[i].content {
                LineType::Pruning(_) => false,
                _ => true,
            };
            if selectable && self.lines[i].key == target {
                assert(key_found(self.lines@, key@));
                let ghost w = selected_index(self.lines@, key@);
                assert(w == i as int);
                self.selection = i;
                return true;
            }
            i = i + 1;
        }
        self.selection = 0;
        false
    }

    /// The key of the selected line; empty when the tree has no line.
    pub fn key(&self) -> (k: String)
        requires
            self.wf(),
        ensures
            k@ == key_at(self.lines@, self.selection as int),
    {
        if self.lines.len() == 0 {
            String::new()
        } else {
            self.lines[self.selection].key.clone()
        }
    }

    /// Whether the connector of column `depth` reaches line `line_index`.
    pub fn has_branch(&self, line_index: usize, depth: usize) -> (b: bool)
        requires
            self.wf(),
        ensures
            b == branch(depths_of(self.lines@), line_index as int, depth as nat),
    {
        if line_index >= self.lines.len() {
            false
        } else {
            let line = &self.lines[line_index];
            assert(lines_wf(self.lines@));
            assert(self.lines@[line_index as int] == *line);
            if depth < line.depth {
                line.left_branchs[depth]
            } else {
                false
            }
        }
    }
}

} // verus!
