//! Building a flat tree from a directory listing under a line budget.
//!
//! The listing is the walk of the root directory in pre-order: each entry
//! carries its name, whether it is a directory, and its depth (the root's
//! children at depth zero). Children appear in the order the listing gives;
//! `entry_precedes` is the order a walk sorts siblings by: directories before
//! files, then names by their UTF-8 bytes.
use vstd::prelude::*;
use vstd::utf8::encode_utf8;
use crate::flat_tree::{
    branch, branch_flags, depths_of, is_selectable, lines_wf, LineType, Tree, TreeLine,
};
use crate::keys::{key_of, key_width, lemma_key_injective, lemma_key_len, lemma_key_width_covers, make_key, width_for};

verus! {

/// One entry of a directory walk.
#[derive(Debug, Clone)]
pub struct Entry {
    pub name: String,
    pub is_dir: bool,
    pub depth: usize,
}

/// A walk in pre-order: the first entry at depth zero, each entry at most one
/// level deeper than the one before it, and deeper only below a directory.
pub open spec fn listing_wf(entries: Seq<Entry>) -> bool {
    &&& entries.len() > 0 ==> entries[0].depth == 0
    &&& forall|i: int|
        #![trigger entries[i + 1]]
        0 <= i < entries.len() - 1 ==> {
            &&& entries[i + 1].depth <= entries[i].depth + 1
            &&& entries[i + 1].depth == entries[i].depth + 1 ==> entries[i].is_dir
        }
}

/// How many lines a tree over `n` entries has under a budget of `max_lines`.
pub open spec fn line_count(n: nat, max_lines: nat) -> nat {
    if n <= max_lines {
        n
    } else {
        max_lines
    }
}

/// Whether line `i` is the pruning marker: the budget is too small for the
/// listing and `i` is the last line it allows.
pub open spec fn is_pruning_index(n: nat, max_lines: nat, i: int) -> bool {
    n > max_lines && max_lines > 0 && i == max_lines - 1
}

/// The line content for an entry.
pub open spec fn content_of(e: Entry) -> LineType {
    if e.is_dir {
        LineType::Dir(e.name)
    } else {
        LineType::File(e.name)
    }
}

/// Line `i` of the tree built from `entries` under `max_lines`: at the depth
/// of entry `i`; the marker counts the entries from `i` on, which it stands for.
pub open spec fn expected_line(entries: Seq<Entry>, max_lines: nat, i: int, l: TreeLine) -> bool {
    let n = entries.len();
    &&& l.depth == entries[i].depth
    &&& if is_pruning_index(n, max_lines, i) {
        &&& l.content == LineType::Pruning((n - i) as usize)
        &&& l.key@ == Seq::<char>::empty()
    } else {
        &&& l.content == content_of(entries[i])
        &&& l.key@ == key_of(i as nat, key_width(line_count(n, max_lines)))
    }
}

/// The lines that `build` makes from `entries` under `max_lines`.
pub open spec fn built_from(entries: Seq<Entry>, max_lines: nat, lines: Seq<TreeLine>) -> bool {
    &&& lines.len() == line_count(entries.len(), max_lines)
    &&& forall|i: int| 0 <= i < lines.len() ==> expected_line(entries, max_lines, i, #[trigger] lines[i])
    &&& branch_flags(lines)
}

proof fn lemma_branch_false_when_shallow(depths: Seq<usize>, i: int, d: nat)
    requires
        0 <= i < depths.len(),
        depths[i] <= d,
    ensures
        !branch(depths, i, d),
{
}

/// Lines built from a well-formed listing form a well-formed tree.
proof fn lemma_built_wf(entries: Seq<Entry>, max_lines: nat, lines: Seq<TreeLine>)
    requires
        listing_wf(entries),
        built_from(entries, max_lines, lines),
    ensures
        lines_wf(lines),
{
    let n = entries.len();
    let count = line_count(n, max_lines);
    let w = key_width(count);
    assert forall|i: int| 0 <= i < lines.len() - 1 implies is_selectable(#[trigger] lines[i]) by {
        assert(expected_line(entries, max_lines, i, lines[i]));
    }
    assert forall|i: int| #![trigger lines[i + 1]] 0 <= i < lines.len() - 1 implies {
        &&& lines[i + 1].depth <= lines[i].depth + 1
        &&& lines[i + 1].depth == lines[i].depth + 1 ==> lines[i].content is Dir
    } by {
        assert(expected_line(entries, max_lines, i, lines[i]));
        assert(expected_line(entries, max_lines, i + 1, lines[i + 1]));
        assert(entries[i + 1].depth <= entries[i].depth + 1);
    }
    if lines.len() > 0 {
        assert(expected_line(entries, max_lines, 0, lines[0]));
    }
    lemma_key_width_covers(count);
    assert forall|i: int| 0 <= i < lines.len() implies if is_selectable(#[trigger] lines[i]) {
        lines[i].key@.len() > 0
    } else {
        lines[i].key@.len() == 0
    } by {
        assert(expected_line(entries, max_lines, i, lines[i]));
        lemma_key_len(i as nat, w);
    }
    assert forall|i: int, j: int|
        0 <= i < lines.len() && 0 <= j < lines.len() && i != j && is_selectable(lines[i])
            && is_selectable(lines[j]) implies #[trigger] lines[i].key@
        != #[trigger] lines[j].key@ by {
        assert(expected_line(entries, max_lines, i, lines[i]));
        assert(expected_line(entries, max_lines, j, lines[j]));
        if lines[i].key@ == lines[j].key@ {
            lemma_key_injective(i as nat, j as nat, w);
        }
    }
}

/// Whatever the listing and the budget, the selectable lines of the built
/// tree have pairwise distinct keys.
pub proof fn lemma_built_keys_distinct(entries: Seq<Entry>, max_lines: nat, lines: Seq<TreeLine>)
    requires
        listing_wf(entries),
        built_from(entries, max_lines, lines),
    ensures
        forall|i: int, j: int|
            0 <= i < lines.len() && 0 <= j < lines.len() && i != j && is_selectable(lines[i])
                && is_selectable(lines[j]) ==> #[trigger] lines[i].key@ != #[trigger] lines[j].key@,
{
    lemma_built_wf(entries, max_lines, lines);
}

/// Whether byte string `a` sorts strictly before `b`.
pub open spec fn bytes_less(a: Seq<u8>, b: Seq<u8>) -> bool
    decreases a.len(),
{
    if a.len() == 0 {
        b.len() > 0
    } else if b.len() == 0 {
        false
    } else if a[0] != b[0] {
        a[0] < b[0]
    } else {
        bytes_less(a.drop_first(), b.drop_first())
    }
}

/// Whether sibling `a` is listed before sibling `b`.
pub open spec fn sibling_before(a: Entry, b: Entry) -> bool {
    if a.is_dir != b.is_dir {
        a.is_dir
    } else {
        bytes_less(encode_utf8(a.name@), encode_utf8(b.name@))
    }
}

proof fn lemma_bytes_less_skip(a: Seq<u8>, b: Seq<u8>, i: int)
    requires
        0 <= i < a.len(),
        i < b.len(),
        a[i] == b[i],
    ensures
        bytes_less(a.skip(i), b.skip(i)) == bytes_less(a.skip(i + 1), b.skip(i + 1)),
{
    assert(a.skip(i).drop_first() =~= a.skip(i + 1));
    assert(b.skip(i).drop_first() =~= b.skip(i + 1));
}

/// Whether `a` is listed before `b` among siblings: directories come before
/// files, and names of the same kind go by their UTF-8 bytes.
pub fn entry_precedes(a: &Entry, b: &Entry) -> (r: bool)
    ensures
        r == sibling_before(*a, *b),
{
    if a.is_dir != b.is_dir {
        return a.is_dir;
    }
    let x = a.name.as_str().as_bytes();
    let y = b.name.as_str().as_bytes();
    assert(x@.skip(0) =~= x@);
    assert(y@.skip(0) =~= y@);
    let mut i: usize = 0;
    while i < x.len() && i < y.len()
        invariant
            i <= x@.len(),
            i <= y@.len(),
            x@ == encode_utf8(a.name@),
            y@ == encode_utf8(b.name@),
            a.is_dir == b.is_dir,
            sibling_before(*a, *b) == bytes_less(x@.skip(i as int), y@.skip(i as int)),
        decreases x@.len() - i,
    {
        if x[i] != y[i] {
            return x[i] < y[i];
        }
        proof {
            lemma_bytes_less_skip(x@, y@, i as int);
        }
        i = i + 1;
    }
    i < y.len()
}

proof fn lemma_bytes_less_transitive(a: Seq<u8>, b: Seq<u8>, c: Seq<u8>)
    requires
        bytes_less(a, b),
        bytes_less(b, c),
    ensures
        bytes_less(a, c),
    decreases a.len(),
{
    if a.len() > 0 && a[0] == b[0] && b[0] == c[0] {
        lemma_bytes_less_transitive(a.drop_first(), b.drop_first(), c.drop_first());
    }
}

proof fn lemma_bytes_less_irreflexive(a: Seq<u8>)
    ensures
        !bytes_less(a, a),
    decreases a.len(),
{
    if a.len() > 0 {
        lemma_bytes_less_irreflexive(a.drop_first());
    }
}

proof fn lemma_before_transitive(a: Entry, b: Entry, c: Entry)
    requires
        sibling_before(a, b),
        sibling_before(b, c),
    ensures
        sibling_before(a, c),
{
    if a.is_dir == b.is_dir && b.is_dir == c.is_dir {
        lemma_bytes_less_transitive(encode_utf8(a.name@), encode_utf8(b.name@), encode_utf8(c.name@));
    }
}

/// No entry of `s` is listed before one that precedes it in `s`.
pub open spec fn siblings_sorted(s: Seq<Entry>) -> bool {
    forall|i: int, j: int| 0 <= i < j < s.len() ==> !sibling_before(#[trigger] s[j], #[trigger] s[i])
}

/// The siblings of one directory in listing order (see `entry_precedes`).
pub fn sort_siblings(v: Vec<Entry>) -> (r: Vec<Entry>)
    ensures
        r@.to_multiset() == v@.to_multiset(),
        siblings_sorted(r@),
{
    broadcast use vstd::seq_lib::group_to_multiset_ensures;
    let mut rest = v;
    let mut out: Vec<Entry> = Vec::new();
    while rest.len() > 0
        invariant
            out@.to_multiset().add(rest@.to_multiset()) == v@.to_multiset(),
            siblings_sorted(out@),
        decreases rest.len(),
    {
        let ghost before_pop = rest@;
        let x = rest.pop().unwrap();
        proof {
            assert(before_pop =~= rest@.push(x));
            vstd::seq_lib::to_multiset_build(rest@, x);
        }
        let mut p: usize = 0;
        while p < out.len() && !entry_precedes(&x, &out[p])
            invariant
                p <= out@.len(),
                forall|q: int| 0 <= q < p ==> !sibling_before(x, #[trigger] out@[q]),
            decreases out@.len() - p,
        {
            p = p + 1;
        }
        let ghost old_out = out@;
        out.insert(p, x);
        proof {
            vstd::seq_lib::to_multiset_insert(old_out, p as int, x);
            assert forall|i: int, j: int| 0 <= i < j < out@.len() implies !sibling_before(
                #[trigger] out@[j],
                #[trigger] out@[i],
            ) by {
                assert(out@ == old_out.insert(p as int, x));
                if i < p && j == p {
                    assert(out@[j] == x && out@[i] == old_out[i]);
                } else if i == p as int && j > i {
                    assert(out@[i] == x && out@[j] == old_out[j - 1]);
                    lemma_bytes_less_irreflexive(encode_utf8(old_out[p as int].name@));
                    let y = old_out[j - 1];
                    assert(sibling_before(x, old_out[p as int]));
                    if j - 1 > p as int {
                        assert(!sibling_before(old_out[j - 1], old_out[p as int]));
                    }
                    if sibling_before(y, x) {
                        lemma_before_transitive(y, x, old_out[p as int]);
                    }
                } else if i < p && j > p {
                    assert(out@[i] == old_out[i] && out@[j] == old_out[j - 1]);
                    assert(!sibling_before(old_out[j - 1], old_out[i]));
                } else if i > p {
                    assert(out@[i] == old_out[i - 1] && out@[j] == old_out[j - 1]);
                    assert(!sibling_before(old_out[j - 1], old_out[i - 1]));
                } else {
                    assert(out@[i] == old_out[i] && out@[j] == old_out[j]);
                }
            }
        }
    }
    out
}

/// Whether `entries` is a pre-order walk, as `build` requires.
pub fn listing_is_well_formed(entries: &Vec<Entry>) -> (ok: bool)
    ensures
        ok == listing_wf(entries@),
{
    let n = entries.len();
    if n == 0 {
        return true;
    }
    if entries[0].depth != 0 {
        return false;
    }
    let mut i: usize = 0;
    while i + 1 < n
        invariant
            n == entries@.len(),
            n > 0,
            entries@[0].depth == 0,
            i < n,
            forall|k: int|
                #![trigger entries@[k + 1]]
                0 <= k < i ==> {
                    &&& entries@[k + 1].depth <= entries@[k].depth + 1
                    &&& entries@[k + 1].depth == entries@[k].depth + 1 ==> entries@[k].is_dir
                },
        decreases n - i,
    {
        let here = entries[i].depth;
        let next = entries[i + 1].depth;
        if next > here {
            if next - here > 1 || !entries[i].is_dir {
                return false;
            }
        }
        i = i + 1;
    }
    true
}

/// `flags` are the branch flags of line `i`: one per column left of it.
pub open spec fn flags_match(depths: Seq<usize>, i: int, flags: Seq<bool>) -> bool {
    &&& flags.len() == depths[i]
    &&& forall|d: int| 0 <= d < depths[i] ==> #[trigger] flags[d] == branch(depths, i, d as nat)
}

/// The branch flags of every line, last line first.
fn flags_backward(depths: &Vec<usize>) -> (flags_rev: Vec<Vec<bool>>)
    ensures
        flags_rev@.len() == depths@.len(),
        forall|k: int|
            0 <= k < depths@.len() ==> flags_match(
                depths@,
                depths@.len() - 1 - k,
                #[trigger] flags_rev@[k]@,
            ),
{
    let count = depths.len();
    let mut flags_rev: Vec<Vec<bool>> = Vec::new();
    let mut j: usize = count;
    while j > 0
        invariant
            j <= count,
            count == depths@.len(),
            flags_rev@.len() == count - j,
            forall|k: int|
                0 <= k < count - j ==> flags_match(depths@, count - 1 - k, #[trigger] flags_rev@[k]@),
        decreases j,
    {
        let line = j - 1;
        let dl = depths[line];
        let mut v: Vec<bool> = Vec::new();
        let mut d: usize = 0;
        while d < dl
            invariant
                d <= dl,
                v@.len() == d,
                line < count,
                count == depths@.len(),
                dl == depths@[line as int],
                j == line + 1,
                flags_rev@.len() == count - j,
                forall|k: int|
                    0 <= k < count - j ==> flags_match(depths@, count - 1 - k, #[trigger] flags_rev@[k]@),
                forall|e: int| 0 <= e < d ==> #[trigger] v@[e] == branch(depths@, line as int, e as nat),
            decreases dl - d,
        {
            let b: bool = if d + 1 == dl {
                true
            } else if flags_rev.len() > 0 {
                let prev = &flags_rev[flags_rev.len() - 1];
                assert(flags_match(depths@, line + 1, prev@));
                d < prev.len() && prev[d]
            } else {
                false
            };
            proof {
                if d + 1 < dl {
                    assert(branch(depths@, line as int, d as nat) == branch(depths@, line + 1, d as nat));
                    if flags_rev.len() > 0 {
                        if d >= depths@[line + 1] {
                            lemma_branch_false_when_shallow(depths@, line + 1, d as nat);
                        }
                    }
                }
            }
            v.push(b);
            d = d + 1;
        }
        flags_rev.push(v);
        j = line;
    }
    flags_rev
}

/// Builds the tree of a pre-order listing under a budget of `max_lines` lines.
///
/// All entries are shown when they fit. Otherwise the first `max_lines - 1`
/// entries are shown and a last line, a pruning marker at the depth of the
/// first entry left out, counts the entries left out. Each shown entry gets
/// the key of its index, all keys of one width (see `crate::keys`). The
/// selection starts on the first line.
pub fn build(entries: &Vec<Entry>, max_lines: usize) -> (tree: Tree)
    requires
        listing_wf(entries@),
    ensures
        tree.wf(),
        tree.selection == 0,
        built_from(entries@, max_lines as nat, tree.lines@),
{
    let n = entries.len();
    let count: usize = if n <= max_lines {
        n
    } else {
        max_lines
    };
    let pruned: bool = n > max_lines && max_lines > 0;
    let mut depths: Vec<usize> = Vec::new();
    let mut i: usize = 0;
    while i < count
        invariant
            i <= count,
            count <= n,
            n == entries@.len(),
            depths@.len() == i,
            forall|k: int| 0 <= k < i ==> #[trigger] depths@[k] == entries@[k].depth,
        decreases count - i,
    {
        depths.push(entries[i].depth);
        i = i + 1;
    }
    let mut flags_rev = flags_backward(&depths);
    let w = width_for(count);
    let mut lines: Vec<TreeLine> = Vec::new();
    let mut i: usize = 0;
    while i < count
        invariant
            i <= count,
            count == line_count(n as nat, max_lines as nat),
            pruned == (n > max_lines && max_lines > 0),
            n == entries@.len(),
            w == key_width(count as nat),
            depths@.len() == count,
            forall|k: int| 0 <= k < count ==> #[trigger] depths@[k] == entries@[k].depth,
            flags_rev@.len() == count - i,
            forall|k: int|
                0 <= k < count - i ==> flags_match(depths@, count - 1 - k, #[trigger] flags_rev@[k]@),
            lines@.len() == i,
            forall|k: int|
                0 <= k < i ==> expected_line(entries@, max_lines as nat, k, #[trigger] lines@[k])
                    && flags_match(depths@, k, lines@[k].left_branchs@),
        decreases count - i,
    {
        let flags = flags_rev.pop().unwrap();
        assert(flags_match(depths@, i as int, flags@));
        let key: String;
        let content: LineType;
        if pruned && i == count - 1 {
            key = String::new();
            content = LineType::Pruning(n - i);
        } else {
            let e = &entries[i];
            content = if e.is_dir {
                LineType::Dir(e.name.clone())
            } else {
                LineType::File(e.name.clone())
            };
            key = make_key(i, w);
        }
        let line = TreeLine { key, depth: depths[i], left_branchs: flags, content };
        assert(expected_line(entries@, max_lines as nat, i as int, line));
        lines.push(line);
        i = i + 1;
    }
    proof {
        assert(depths_of(lines@) =~= depths@);
        assert forall|k: int| 0 <= k < lines@.len() implies {
            &&& (#[trigger] lines@[k]).left_branchs@.len() == lines@[k].depth
            &&& forall|d: int|
                0 <= d < lines@[k].depth ==> #[trigger] lines@[k].left_branchs@[d] == branch(
                    depths_of(lines@),
                    k,
                    d as nat,
                )
        } by {
            assert(flags_match(depths@, k, lines@[k].left_branchs@));
        }
        lemma_built_wf(entries@, max_lines as nat, lines@);
    }
    Tree { lines, selection: 0 }
}

} // verus!
