//! Properties of words over the turtle alphabet: bracket depth, balance and
//! symbol counts, with the lemmas that relate them across concatenation.
use vstd::prelude::*;

verus! {

/// How much a symbol changes the bracket depth: `[` opens a branch, `]` closes one.
pub open spec fn bracket_weight(c: char) -> int {
    if c == '[' {
        1
    } else if c == ']' {
        -1
    } else {
        0
    }
}

/// The bracket depth reached after the first `k` symbols of `w`.
pub open spec fn depth_prefix(w: Seq<char>, k: int) -> int
    decreases k,
{
    if k <= 0 {
        0
    } else {
        depth_prefix(w, k - 1) + bracket_weight(w[k - 1])
    }
}

/// The bracket depth reached at the end of `w`.
pub open spec fn depth(w: Seq<char>) -> int {
    depth_prefix(w, w.len() as int)
}

/// No prefix of `w` closes more branches than it has opened.
pub open spec fn never_below_zero(w: Seq<char>) -> bool {
    forall|k: int| 0 <= k <= w.len() ==> #[trigger] depth_prefix(w, k) >= 0
}

/// Every branch that `w` opens is closed again, and none is closed before it is opened.
pub open spec fn balanced(w: Seq<char>) -> bool {
    never_below_zero(w) && depth(w) == 0
}

/// How many times `c` occurs among the first `k` symbols of `w`.
pub open spec fn count_prefix(w: Seq<char>, c: char, k: int) -> nat
    decreases k,
{
    if k <= 0 {
        0
    } else {
        count_prefix(w, c, k - 1) + if w[k - 1] == c {
            1nat
        } else {
            0nat
        }
    }
}

/// How many times `c` occurs in `w`.
pub open spec fn occurrences(w: Seq<char>, c: char) -> nat {
    count_prefix(w, c, w.len() as int)
}

/// The depth after `k` symbols depends only on those `k` symbols.
pub proof fn lemma_depth_prefix_agree(w1: Seq<char>, w2: Seq<char>, k: int)
    requires
        0 <= k <= w1.len(),
        k <= w2.len(),
        forall|i: int| 0 <= i < k ==> w1[i] == w2[i],
    ensures
        depth_prefix(w1, k) == depth_prefix(w2, k),
    decreases k,
{
    if k > 0 {
        lemma_depth_prefix_agree(w1, w2, k - 1);
    }
}

/// The count after `k` symbols depends only on those `k` symbols.
pub proof fn lemma_count_prefix_agree(w1: Seq<char>, w2: Seq<char>, c: char, k: int)
    requires
        0 <= k <= w1.len(),
        k <= w2.len(),
        forall|i: int| 0 <= i < k ==> w1[i] == w2[i],
    ensures
        count_prefix(w1, c, k) == count_prefix(w2, c, k),
    decreases k,
{
    if k > 0 {
        lemma_count_prefix_agree(w1, w2, c, k - 1);
    }
}

/// Reading past the end of `a` into `b` adds the depth of `b`'s prefix to that of `a`.
pub proof fn lemma_depth_prefix_concat(a: Seq<char>, b: Seq<char>, k: int)
    requires
        0 <= k <= b.len(),
    ensures
        depth_prefix(a + b, a.len() + k) == depth(a) + depth_prefix(b, k),
    decreases k,
{
    if k == 0 {
        lemma_depth_prefix_agree(a + b, a, a.len() as int);
    } else {
        lemma_depth_prefix_concat(a, b, k - 1);
        assert((a + b)[a.len() + k - 1] == b[k - 1]);
    }
}

/// Counting past the end of `a` into `b` adds the count of `b`'s prefix to that of `a`.
pub proof fn lemma_count_prefix_concat(a: Seq<char>, b: Seq<char>, c: char, k: int)
    requires
        0 <= k <= b.len(),
    ensures
        count_prefix(a + b, c, a.len() + k) == occurrences(a, c) + count_prefix(b, c, k),
    decreases k,
{
    if k == 0 {
        lemma_count_prefix_agree(a + b, a, c, a.len() as int);
    } else {
        lemma_count_prefix_concat(a, b, c, k - 1);
        assert((a + b)[a.len() + k - 1] == b[k - 1]);
    }
}

/// Depth is additive over concatenation.
pub proof fn lemma_depth_concat(a: Seq<char>, b: Seq<char>)
    ensures
        depth(a + b) == depth(a) + depth(b),
{
    lemma_depth_prefix_concat(a, b, b.len() as int);
}

/// Occurrence counts are additive over concatenation.
pub proof fn lemma_occurrences_concat(a: Seq<char>, b: Seq<char>, c: char)
    ensures
        occurrences(a + b, c) == occurrences(a, c) + occurrences(b, c),
{
    lemma_count_prefix_concat(a, b, c, b.len() as int);
}

/// Gluing a word that never dips below its start onto one that ends at depth
/// `d >= 0` gives a word that never dips below zero.
pub proof fn lemma_never_below_zero_concat(a: Seq<char>, b: Seq<char>)
    requires
        never_below_zero(a),
        never_below_zero(b),
    ensures
        never_below_zero(a + b),
{
    assert forall|k: int| 0 <= k <= (a + b).len() implies #[trigger] depth_prefix(a + b, k) >= 0 by {
        if k <= a.len() {
            lemma_depth_prefix_agree(a + b, a, k);
        } else {
            lemma_depth_prefix_concat(a, b, k - a.len());
            assert(depth_prefix(a, a.len() as int) >= 0);
            assert(depth_prefix(b, k - a.len()) >= 0);
        }
    }
}

/// Balanced words are closed under concatenation.
pub proof fn lemma_balanced_concat(a: Seq<char>, b: Seq<char>)
    requires
        balanced(a),
        balanced(b),
    ensures
        balanced(a + b),
{
    lemma_never_below_zero_concat(a, b);
    lemma_depth_concat(a, b);
}

/// Extending a word by one symbol adds that symbol's weight to its depth.
pub proof fn lemma_depth_push(w: Seq<char>, c: char)
    ensures
        depth(w.push(c)) == depth(w) + bracket_weight(c),
{
    lemma_depth_prefix_agree(w.push(c), w, w.len() as int);
}

/// Extending a word by one symbol counts that symbol once more.
pub proof fn lemma_occurrences_push(w: Seq<char>, c: char, x: char)
    ensures
        occurrences(w.push(x), c) == occurrences(w, c) + if x == c {
            1nat
        } else {
            0nat
        },
{
    lemma_count_prefix_agree(w.push(x), w, c, w.len() as int);
}

/// A word without brackets stays at depth zero throughout, so it is balanced.
pub proof fn lemma_bracket_free_balanced(w: Seq<char>)
    requires
        forall|i: int| 0 <= i < w.len() ==> #[trigger] w[i] != '[' && w[i] != ']',
    ensures
        forall|k: int| 0 <= k <= w.len() ==> #[trigger] depth_prefix(w, k) == 0,
        balanced(w),
{
    assert forall|k: int| 0 <= k <= w.len() implies #[trigger] depth_prefix(w, k) == 0 by {
        lemma_bracket_free_prefix(w, k);
    }
}

proof fn lemma_bracket_free_prefix(w: Seq<char>, k: int)
    requires
        0 <= k <= w.len(),
        forall|i: int| 0 <= i < w.len() ==> #[trigger] w[i] != '[' && w[i] != ']',
    ensures
        depth_prefix(w, k) == 0,
    decreases k,
{
    if k > 0 {
        lemma_bracket_free_prefix(w, k - 1);
        assert(w[k - 1] != '[' && w[k - 1] != ']');
    }
}

/// Enclosing a balanced word in a pair of brackets gives a balanced word.
pub proof fn lemma_bracketed_balanced(w: Seq<char>)
    requires
        balanced(w),
    ensures
        balanced(seq!['['] + w + seq![']']),
{
    let open = seq!['['];
    let x = open + w;
    let close = seq![']'];
    reveal_with_fuel(depth_prefix, 2);
    assert(depth(open) == 1);
    assert forall|k: int| 0 <= k <= x.len() implies #[trigger] depth_prefix(x, k) >= 0 by {
        if k >= 1 {
            lemma_depth_prefix_concat(open, w, k - 1);
        }
    }
    lemma_depth_concat(open, w);
    assert(depth(close) == -1);
    assert forall|k: int| 0 <= k <= (x + close).len() implies #[trigger] depth_prefix(x + close, k)
        >= 0 by {
        if k <= x.len() {
            lemma_depth_prefix_agree(x + close, x, k);
        } else {
            lemma_depth_prefix_concat(x, close, 1);
        }
    }
    lemma_depth_concat(x, close);
}

} // verus!
