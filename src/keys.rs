//! Selection keys: every selectable line of a tree gets the base-26 numeral of
//! its index, written with lowercase letters and padded to a width that is the
//! same for all lines of the tree.
use vstd::prelude::*;

verus! {

/// The letters keys are written with; `a` is the digit zero.
pub open spec fn alphabet() -> Seq<char> {
    seq![
        'a', 'b', 'c', 'd', 'e', 'f', 'g', 'h', 'i', 'j', 'k', 'l', 'm',
        'n', 'o', 'p', 'q', 'r', 's', 't', 'u', 'v', 'w', 'x', 'y', 'z',
    ]
}

/// `26` to the power `k`.
pub open spec fn pow26(k: nat) -> nat
    decreases k,
{
    if k == 0 {
        1
    } else {
        26 * pow26((k - 1) as nat)
    }
}

/// The key of index `n` written with exactly `w` letters, most significant first.
pub open spec fn key_of(n: nat, w: nat) -> Seq<char>
    decreases w,
{
    if w == 0 {
        Seq::empty()
    } else {
        key_of(n / 26, (w - 1) as nat).push(alphabet()[(n % 26) as int])
    }
}

/// The fewest letters (at least one) that give `count` indices distinct keys.
pub open spec fn key_width(count: nat) -> nat
    decreases count,
{
    if count <= 26 {
        1
    } else {
        1 + key_width((count + 25) / 26)
    }
}

pub proof fn lemma_alphabet_distinct(x: int, y: int)
    requires
        0 <= x < 26,
        0 <= y < 26,
        alphabet()[x] == alphabet()[y],
    ensures
        x == y,
{
}

pub proof fn lemma_key_len(n: nat, w: nat)
    ensures
        key_of(n, w).len() == w,
    decreases w,
{
    if w > 0 {
        lemma_key_len(n / 26, (w - 1) as nat);
    }
}

/// Keys of the same width name distinct indices below `26^w` distinctly.
pub proof fn lemma_key_injective(a: nat, b: nat, w: nat)
    requires
        a < pow26(w),
        b < pow26(w),
        key_of(a, w) == key_of(b, w),
    ensures
        a == b,
    decreases w,
{
    if w > 0 {
        let ka = key_of(a, w);
        let kb = key_of(b, w);
        lemma_key_len(a / 26, (w - 1) as nat);
        lemma_key_len(b / 26, (w - 1) as nat);
        assert(ka.last() == alphabet()[(a % 26) as int]);
        assert(kb.last() == alphabet()[(b % 26) as int]);
        lemma_alphabet_distinct((a % 26) as int, (b % 26) as int);
        assert(ka.drop_last() =~= key_of(a / 26, (w - 1) as nat));
        assert(kb.drop_last() =~= key_of(b / 26, (w - 1) as nat));
        lemma_key_injective(a / 26, b / 26, (w - 1) as nat);
    }
}

/// A width of `key_width(count)` leaves room for `count` keys.
pub proof fn lemma_key_width_covers(count: nat)
    ensures
        count <= pow26(key_width(count)),
        key_width(count) >= 1,
    decreases count,
{
    if count > 26 {
        let m = (count + 25) / 26;
        lemma_key_width_covers(m);
        let k = key_width(m);
        assert(key_width(count) == k + 1);
        assert(pow26(k + 1) == 26 * pow26(k));
        assert(count <= 26 * m);
        assert(26 * m <= 26 * pow26(k)) by (nonlinear_arith)
            requires
                m <= pow26(k),
        ;
    } else {
        assert(pow26(0) == 1);
        assert(pow26(1) == 26);
    }
}

/// The one-letter string for digit `d`.
fn letter(d: usize) -> (r: &'static str)
    requires
        d < 26,
    ensures
        r@ == seq![alphabet()[d as int]],
{
    let letters = "abcdefghijklmnopqrstuvwxyz";
    proof {
        reveal_strlit("abcdefghijklmnopqrstuvwxyz");
    }
    assert(letters@ =~= alphabet());
    let r = letters.substring_char(d, d + 1);
    assert(r@ =~= seq![alphabet()[d as int]]);
    r
}

/// The key of index `n` with `w` letters.
pub fn make_key(n: usize, w: usize) -> (s: String)
    ensures
        s@ == key_of(n as nat, w as nat),
    decreases w,
{
    if w == 0 {
        String::new()
    } else {
        let mut s = make_key(n / 26, w - 1);
        s.append(letter(n % 26));
        s
    }
}

/// The key width for a tree of `count` lines.
pub fn width_for(count: usize) -> (w: usize)
    ensures
        w == key_width(count as nat),
{
    let mut w: usize = 1;
    let mut m: usize = count;
    while m > 26
        invariant
            1 <= w,
            w + m <= count + 1,
            key_width(count as nat) == (w - 1) + key_width(m as nat),
        decreases m,
    {
        let next: usize = if m % 26 == 0 { m / 26 } else { m / 26 + 1 };
        assert(next == (m + 25) / 26);
        m = next;
        w = w + 1;
    }
    w
}

} // verus!
