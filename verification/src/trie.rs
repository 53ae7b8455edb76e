//! A longest-prefix-match trie over a bounded alphabet.
//!
//! The abstract state of a trie is the partial map `bound`, from character
//! sequences to terminal values.  `add_string` updates that map at exactly
//! one key; `search` is fully characterized by `spec_search`, which is in
//! turn characterized over `bound` alone by the public lemmas below.

use vstd::prelude::*;

verus! {

broadcast use vstd::seq::axiom_seq_index_decreases;

/// Why a trie search failed.
#[derive(Copy, Clone, Debug, PartialEq, Eq, Structural)]
pub enum TrieError {
    /// A terminal sits at a strict prefix of the query and nothing continues past it.
    End,
    /// The query stops exactly at a continuation node with no terminal of its own.
    SubTrie,
    /// No entry exists along this path.
    Null,
    /// A character outside the accepted alphabet was reached.
    NoHash,
    /// The query was empty.
    NoChar,
}

enum TrieNode<R> {
    Null,
    End(R),
    SubTrie(Box<TrieLevel<R>>),
    SubEndTrie(R, Box<TrieLevel<R>>),
}

struct TrieLevel<R> {
    slots: Vec<TrieNode<R>>,
}

/// Longest-prefix-match structure: one slot per alphabet character at every
/// level, with terminals and continuations per the four node states.
pub struct Trie<R> {
    alphabet: Vec<char>,
    root: TrieLevel<R>,
}

/// First index of `c` in `alpha` at or after `i`, or -1 if absent.
pub open spec fn index_from(alpha: Seq<char>, c: char, i: int) -> int
    decreases alpha.len() - i,
{
    if i < 0 || i >= alpha.len() {
        -1
    } else if alpha[i] == c {
        i
    } else {
        index_from(alpha, c, i + 1)
    }
}

/// Index of `c` in the alphabet, or -1 when `c` is outside it.
pub open spec fn char_index(alpha: Seq<char>, c: char) -> int {
    index_from(alpha, c, 0)
}

proof fn lemma_index_from(alpha: Seq<char>, c: char, i: int)
    requires
        0 <= i <= alpha.len(),
    ensures
        index_from(alpha, c, i) == -1 || (i <= index_from(alpha, c, i) < alpha.len()
            && alpha[index_from(alpha, c, i)] == c),
    decreases alpha.len() - i,
{
    if i < alpha.len() && alpha[i] != c {
        lemma_index_from(alpha, c, i + 1);
    }
}

fn find_index(alpha: &Vec<char>, c: char) -> (r: Option<usize>)
    ensures
        match r {
            Some(i) => char_index(alpha@, c) == i as int && (i as int) < alpha@.len(),
            None => char_index(alpha@, c) == -1,
        },
{
    proof {
        lemma_index_from(alpha@, c, 0);
    }
    let mut i: usize = 0;
    while i < alpha.len()
        invariant
            i <= alpha@.len(),
            char_index(alpha@, c) == index_from(alpha@, c, i as int),
        decreases alpha@.len() - i,
    {
        if alpha[i] == c {
            return Some(i);
        }
        i += 1;
    }
    None
}

/// The terminal value bound to `q` below level `l`, if any.
spec fn level_bound<R>(l: TrieLevel<R>, alpha: Seq<char>, q: Seq<char>) -> Option<R>
    decreases q.len(),
{
    if q.len() == 0 {
        None
    } else {
        let i = char_index(alpha, q[0]);
        if i < 0 || i >= l.slots.len() {
            None
        } else {
            match l.slots[i] {
                TrieNode::Null => None,
                TrieNode::End(r) => if q.len() == 1 {
                    Some(r)
                } else {
                    None
                },
                TrieNode::SubTrie(b) => if q.len() == 1 {
                    None
                } else {
                    level_bound(*b, alpha, q.skip(1))
                },
                TrieNode::SubEndTrie(r, b) => if q.len() == 1 {
                    Some(r)
                } else {
                    level_bound(*b, alpha, q.skip(1))
                },
            }
        }
    }
}

/// A walk of `q` stays on occupied nodes: `q` is a nonempty prefix of some
/// bound key.
spec fn level_viable<R>(l: TrieLevel<R>, alpha: Seq<char>, q: Seq<char>) -> bool {
    q.len() > 0 && exists|k: Seq<char>| #[trigger] level_bound(l, alpha, k) is Some
        && q.is_prefix_of(k)
}

spec fn level_nonempty<R>(l: TrieLevel<R>, alpha: Seq<char>) -> bool {
    exists|k: Seq<char>| #[trigger] level_bound(l, alpha, k) is Some
}

/// Well-formed: one slot per alphabet character, and every continuation
/// carries at least one bound key (the canonical shape that insertion builds).
spec fn level_wf<R>(l: TrieLevel<R>, alpha: Seq<char>) -> bool
    decreases l,
{
    &&& l.slots.len() == alpha.len()
    &&& forall|i: int|
        0 <= i < l.slots.len() ==> node_wf(#[trigger] l.slots[i], alpha)
}

spec fn node_wf<R>(n: TrieNode<R>, alpha: Seq<char>) -> bool
    decreases n,
{
    match n {
        TrieNode::Null => true,
        TrieNode::End(_) => true,
        TrieNode::SubTrie(b) => level_wf(*b, alpha) && level_nonempty(*b, alpha),
        TrieNode::SubEndTrie(_, b) => level_wf(*b, alpha) && level_nonempty(*b, alpha),
    }
}

/// Length of the longest prefix of `q` that is viable (0 when none is).
spec fn longest_viable<R>(l: TrieLevel<R>, alpha: Seq<char>, q: Seq<char>) -> int
    decreases q.len(),
{
    if q.len() == 0 {
        0
    } else if level_viable(l, alpha, q) {
        q.len() as int
    } else {
        longest_viable(l, alpha, q.take(q.len() - 1))
    }
}

/// What a search for `q` returns, stated over the abstract map and the
/// alphabet alone.
spec fn level_search<R>(l: TrieLevel<R>, alpha: Seq<char>, q: Seq<char>) -> Result<R, TrieError> {
    if q.len() == 0 {
        Err(TrieError::NoChar)
    } else if level_bound(l, alpha, q) is Some {
        Ok(level_bound(l, alpha, q)->Some_0)
    } else if level_viable(l, alpha, q) {
        Err(TrieError::SubTrie)
    } else {
        let j = longest_viable(l, alpha, q);
        if j != 0 && !(exists|k: Seq<char>| #[trigger] level_bound(l, alpha, k) is Some
            && q.take(j).is_prefix_of(k) && q.take(j) != k) {
            Err(TrieError::End)
        } else if char_index(alpha, q[j]) < 0 {
            Err(TrieError::NoHash)
        } else {
            Err(TrieError::Null)
        }
    }
}

impl<R> Trie<R> {
    /// The accepted alphabet.
    pub closed spec fn alpha(self) -> Seq<char> {
        self.alphabet@
    }

    /// The abstract content: the value bound to exactly `q`, if any.
    pub closed spec fn bound(self, q: Seq<char>) -> Option<R> {
        level_bound(self.root, self.alphabet@, q)
    }

    /// `q` is a nonempty prefix (proper or full) of some bound key.
    pub open spec fn viable(self, q: Seq<char>) -> bool {
        q.len() > 0 && exists|k: Seq<char>| #[trigger] self.bound(k) is Some && q.is_prefix_of(k)
    }

    /// Structural well-formedness; established by `new` and kept by
    /// `add_string`.
    pub closed spec fn wf(self) -> bool {
        level_wf(self.root, self.alphabet@)
    }

    /// The exact result of `search(q)`.
    pub closed spec fn spec_search(self, q: Seq<char>) -> Result<R, TrieError> {
        level_search(self.root, self.alphabet@, q)
    }
}

fn new_level<R>(n: usize) -> (l: TrieLevel<R>)
    ensures
        l.slots.len() == n,
        forall|i: int| 0 <= i < n ==> l.slots[i] is Null,
{
    let mut slots: Vec<TrieNode<R>> = Vec::new();
    let mut i: usize = 0;
    while i < n
        invariant
            i <= n,
            slots.len() == i,
            forall|j: int| 0 <= j < i ==> slots[j] is Null,
        decreases n - i,
    {
        slots.push(TrieNode::Null);
        i += 1;
    }
    TrieLevel { slots }
}

proof fn lemma_null_level_bound<R>(l: TrieLevel<R>, alpha: Seq<char>)
    requires
        forall|i: int| 0 <= i < l.slots.len() ==> l.slots[i] is Null,
    ensures
        forall|q: Seq<char>| level_bound(l, alpha, q) is None,
{
    assert forall|q: Seq<char>| level_bound(l, alpha, q) is None by {
        if q.len() > 0 {
            let i = char_index(alpha, q[0]);
            if 0 <= i < l.slots.len() {
                assert(l.slots[i] is Null);
            }
        }
    }
}

/// Changing one slot only changes the bindings of keys routed through it.
proof fn lemma_bound_other_slot<R>(
    l1: TrieLevel<R>,
    l2: TrieLevel<R>,
    alpha: Seq<char>,
    idx: int,
    q: Seq<char>,
)
    requires
        l2.slots.len() == l1.slots.len(),
        0 <= idx < l1.slots.len(),
        forall|j: int| 0 <= j < l1.slots.len() && j != idx ==> l2.slots[j] == l1.slots[j],
        q.len() == 0 || char_index(alpha, q[0]) != idx,
    ensures
        level_bound(l2, alpha, q) == level_bound(l1, alpha, q),
{
}

fn add_level<R: Copy>(l: &mut TrieLevel<R>, alpha: &Vec<char>, f: &str, pos: usize, end: R)
    requires
        level_wf(*old(l), alpha@),
        pos < f@.len(),
        forall|i: int| pos <= i < f@.len() ==> char_index(alpha@, f@[i]) >= 0,
    ensures
        level_wf(*final(l), alpha@),
        forall|q: Seq<char>| #[trigger] level_bound(*final(l), alpha@, q) == (if q
            =~= f@.skip(pos as int) {
            Some(end)
        } else {
            level_bound(*old(l), alpha@, q)
        }),
    decreases f@.len() - pos,
{
    let ghost l1 = *l;
    let ghost rest = f@.skip(pos as int);
    let n = f.unicode_len();
    let c = f.get_char(pos);
    let idx = match find_index(alpha, c) {
        Some(i) => i,
        None => {
            proof {
                assert(char_index(alpha@, f@[pos as int]) >= 0);
            }
            unreached()
        },
    };
    proof {
        lemma_index_from(alpha@, c, 0);
        assert(alpha@[idx as int] == c);
    }
    let last = pos + 1 == n;
    let node = l.slots.remove(idx);
    let newnode: TrieNode<R> = match node {
        TrieNode::Null => {
            if !last {
                let mut sub: TrieLevel<R> = new_level(alpha.len());
                proof {
                    lemma_null_level_bound(sub, alpha@);
                }
                let ghost sub0 = sub;
                add_level(&mut sub, alpha, f, pos + 1, end);
                TrieNode::SubTrie(Box::new(sub))
            } else {
                TrieNode::End(end)
            }
        },
        TrieNode::End(obj) => {
            if !last {
                let mut sub: TrieLevel<R> = new_level(alpha.len());
                proof {
                    lemma_null_level_bound(sub, alpha@);
                }
                add_level(&mut sub, alpha, f, pos + 1, end);
                TrieNode::SubEndTrie(obj, Box::new(sub))
            } else {
                TrieNode::End(end)
            }
        },
        TrieNode::SubTrie(b) => {
            let mut sub: TrieLevel<R> = *b;
            if !last {
                add_level(&mut sub, alpha, f, pos + 1, end);
                TrieNode::SubTrie(Box::new(sub))
            } else {
                TrieNode::SubEndTrie(end, Box::new(sub))
            }
        },
        TrieNode::SubEndTrie(obj, b) => {
            let mut sub: TrieLevel<R> = *b;
            if !last {
                add_level(&mut sub, alpha, f, pos + 1, end);
                TrieNode::SubEndTrie(obj, Box::new(sub))
            } else {
                TrieNode::SubEndTrie(end, Box::new(sub))
            }
        },
    };
    l.slots.insert(idx, newnode);
    proof {
        assert(l.slots@ =~= l1.slots@.update(idx as int, newnode));
        assert(rest.len() == f@.len() - pos);
        assert(rest[0] == f@[pos as int]);
        assert(rest.skip(1) =~= f@.skip(pos as int + 1));
        // Well-formedness of the updated level.
        assert forall|i: int| 0 <= i < l.slots.len() implies node_wf(#[trigger] l.slots[i], alpha@)
        by {
            if i != idx {
                assert(l.slots[i] == l1.slots[i]);
            } else {
                if !last {
                    let sub = get_sub(newnode);
                    assert(level_bound(sub, alpha@, f@.skip(pos as int + 1)) is Some);
                }
            }
        }
        // The binding update, key by key.
        assert forall|q: Seq<char>| #[trigger] level_bound(*l, alpha@, q) == (if q =~= rest {
            Some(end)
        } else {
            level_bound(l1, alpha@, q)
        }) by {
            if q.len() == 0 {
                assert(!(q =~= rest));
            } else {
                let i = char_index(alpha@, q[0]);
                proof_index_char(alpha@, q[0]);
                if i != idx {
                    lemma_bound_other_slot(l1, *l, alpha@, idx as int, q);
                    assert(q[0] != c);
                    assert(!(q =~= rest));
                } else {
                    assert(q[0] == c);
                    if q.len() == 1 {
                        lemma_one_slot(l1, *l, alpha@, idx as int, q, newnode, node);
                        if last {
                            assert(q =~= rest);
                        } else {
                            assert(!(q =~= rest));
                        }
                    } else {
                        lemma_one_slot(l1, *l, alpha@, idx as int, q, newnode, node);
                        if q.skip(1) =~= rest.skip(1) {
                            assert forall|i: int| 0 <= i < q.len() implies q[i] == rest[i] by {
                                if i > 0 {
                                    assert(q.skip(1)[i - 1] == q[i]);
                                    assert(rest.skip(1)[i - 1] == rest[i]);
                                }
                            }
                            assert(q =~= rest);
                        } else {
                            assert(!(q =~= rest));
                        }
                    }
                }
            }
        }
    }
}

spec fn get_sub<R>(n: TrieNode<R>) -> TrieLevel<R> {
    match n {
        TrieNode::SubTrie(b) => *b,
        TrieNode::SubEndTrie(_, b) => *b,
        _ => arbitrary(),
    }
}

proof fn proof_index_char(alpha: Seq<char>, c: char)
    ensures
        char_index(alpha, c) >= 0 ==> 0 <= char_index(alpha, c) < alpha.len() && alpha[char_index(
            alpha,
            c,
        )] == c,
{
    lemma_index_from(alpha, c, 0);
}

/// Unfolds one step of `level_bound` on the touched slot, for both the old
/// and the new level.
proof fn lemma_one_slot<R>(
    l1: TrieLevel<R>,
    l2: TrieLevel<R>,
    alpha: Seq<char>,
    idx: int,
    q: Seq<char>,
    n2: TrieNode<R>,
    n1: TrieNode<R>,
)
    requires
        0 <= idx < l1.slots.len(),
        l2.slots.len() == l1.slots.len(),
        l1.slots[idx] == n1,
        l2.slots[idx] == n2,
        q.len() > 0,
        char_index(alpha, q[0]) == idx,
    ensures
        level_bound(l1, alpha, q) == node_bound(n1, alpha, q),
        level_bound(l2, alpha, q) == node_bound(n2, alpha, q),
{
}

spec fn node_bound<R>(n: TrieNode<R>, alpha: Seq<char>, q: Seq<char>) -> Option<R> {
    match n {
        TrieNode::Null => None,
        TrieNode::End(r) => if q.len() == 1 {
            Some(r)
        } else {
            None
        },
        TrieNode::SubTrie(b) => if q.len() == 1 {
            None
        } else {
            level_bound(*b, alpha, q.skip(1))
        },
        TrieNode::SubEndTrie(r, b) => if q.len() == 1 {
            Some(r)
        } else {
            level_bound(*b, alpha, q.skip(1))
        },
    }
}

spec fn has_sub<R>(n: TrieNode<R>, b: TrieLevel<R>) -> bool {
    match n {
        TrieNode::SubTrie(bx) => *bx == b,
        TrieNode::SubEndTrie(_, bx) => *bx == b,
        _ => false,
    }
}

proof fn lemma_bound_nonempty_key<R>(l: TrieLevel<R>, alpha: Seq<char>, k: Seq<char>)
    requires
        level_bound(l, alpha, k) is Some,
    ensures
        k.len() > 0,
        char_index(alpha, k[0]) >= 0,
{
}

proof fn lemma_viable_monotone<R>(l: TrieLevel<R>, alpha: Seq<char>, q: Seq<char>, j: int)
    requires
        level_viable(l, alpha, q),
        1 <= j <= q.len(),
    ensures
        level_viable(l, alpha, q.take(j)),
{
    let k = choose|k: Seq<char>| #[trigger] level_bound(l, alpha, k) is Some && q.is_prefix_of(k);
    assert(q.take(j).is_prefix_of(k)) by {
        assert forall|m: int| #![trigger q.take(j)[m]] 0 <= m < j implies q.take(j)[m] == k.subrange(0, j)[m] by {
            assert(q[m] == k.subrange(0, q.len() as int)[m]);
        }
        assert(q.take(j) =~= k.subrange(0, j));
    }
}

/// Properties of the longest viable prefix length.
proof fn lemma_lv_props<R>(l: TrieLevel<R>, alpha: Seq<char>, q: Seq<char>)
    ensures
        0 <= longest_viable(l, alpha, q) <= q.len(),
        longest_viable(l, alpha, q) > 0 ==> level_viable(
            l,
            alpha,
            q.take(longest_viable(l, alpha, q)),
        ),
        forall|j: int|
            longest_viable(l, alpha, q) < j <= q.len() ==> !level_viable(l, alpha, #[trigger] q.take(j)),
    decreases q.len(),
{
    if q.len() == 0 {
    } else if level_viable(l, alpha, q) {
        assert(q.take(q.len() as int) =~= q);
    } else {
        let q1 = q.take(q.len() - 1);
        lemma_lv_props(l, alpha, q1);
        let j0 = longest_viable(l, alpha, q1);
        assert(q1.take(j0) =~= q.take(j0));
        assert forall|j: int| j0 < j <= q.len() implies !level_viable(l, alpha, #[trigger] q.take(j))
        by {
            if j < q.len() {
                assert(q.take(j) =~= q1.take(j));
            } else {
                assert(q.take(j) =~= q);
            }
        }
    }
}

proof fn lemma_lv_unique<R>(l: TrieLevel<R>, alpha: Seq<char>, q: Seq<char>, m: int)
    requires
        1 <= m <= q.len(),
        level_viable(l, alpha, q.take(m)),
        forall|j: int| m < j <= q.len() ==> !level_viable(l, alpha, #[trigger] q.take(j)),
    ensures
        longest_viable(l, alpha, q) == m,
{
    lemma_lv_props(l, alpha, q);
    let j0 = longest_viable(l, alpha, q);
    if j0 < m {
        assert(level_viable(l, alpha, q.take(m)));
        assert(!level_viable(l, alpha, q.take(m)));
    }
}

proof fn lemma_lv_zero<R>(l: TrieLevel<R>, alpha: Seq<char>, q: Seq<char>)
    requires
        forall|j: int| 1 <= j <= q.len() ==> !level_viable(l, alpha, #[trigger] q.take(j)),
    ensures
        longest_viable(l, alpha, q) == 0,
{
    lemma_lv_props(l, alpha, q);
    let j0 = longest_viable(l, alpha, q);
    if j0 > 0 {
        assert(!level_viable(l, alpha, q.take(j0)));
    }
}

proof fn lemma_bound_descend<R>(l: TrieLevel<R>, alpha: Seq<char>, b: TrieLevel<R>, k: Seq<char>)
    requires
        k.len() >= 2,
        0 <= char_index(alpha, k[0]) < l.slots.len(),
        has_sub(l.slots[char_index(alpha, k[0])], b),
    ensures
        level_bound(l, alpha, k) == level_bound(b, alpha, k.skip(1)),
{
}

/// Any continuation slot makes the one-character prefix viable.
proof fn lemma_viable_one<R>(l: TrieLevel<R>, alpha: Seq<char>, q: Seq<char>, b: TrieLevel<R>)
    requires
        q.len() >= 1,
        0 <= char_index(alpha, q[0]) < l.slots.len(),
        has_sub(l.slots[char_index(alpha, q[0])], b),
        level_nonempty(b, alpha),
    ensures
        level_viable(l, alpha, q.take(1)),
{
    let k2 = choose|k2: Seq<char>| #[trigger] level_bound(b, alpha, k2) is Some;
    lemma_bound_nonempty_key(b, alpha, k2);
    let k = q.take(1) + k2;
    assert(k[0] == q[0]);
    assert(k.skip(1) =~= k2);
    lemma_bound_descend(l, alpha, b, k);
    assert(level_bound(l, alpha, k) is Some);
    assert(q.take(1).is_prefix_of(k)) by {
        assert(q.take(1) =~= k.subrange(0, 1));
    }
    assert(level_viable(l, alpha, q.take(1)));
}

proof fn lemma_viable_descend<R>(
    l: TrieLevel<R>,
    alpha: Seq<char>,
    q: Seq<char>,
    b: TrieLevel<R>,
    j: int,
)
    requires
        q.len() >= 2,
        0 <= char_index(alpha, q[0]) < l.slots.len(),
        has_sub(l.slots[char_index(alpha, q[0])], b),
        1 <= j <= q.len() - 1,
    ensures
        level_viable(b, alpha, q.skip(1).take(j)) <==> level_viable(l, alpha, q.take(j + 1)),
{
    let q2 = q.skip(1);
    if level_viable(b, alpha, q2.take(j)) {
        let k2 = choose|k2: Seq<char>|
            #[trigger] level_bound(b, alpha, k2) is Some && q2.take(j).is_prefix_of(k2);
        let k = q.take(1) + k2;
        assert(k[0] == q[0]);
        assert(k.skip(1) =~= k2);
        lemma_bound_descend(l, alpha, b, k);
        assert(level_bound(l, alpha, k) is Some);
        assert(q.take(j + 1).is_prefix_of(k)) by {
            assert forall|m: int| #![trigger q.take(j + 1)[m]] 0 <= m < j + 1 implies q.take(
                j + 1,
            )[m] == k.subrange(0, j + 1)[m] by {
                if m > 0 {
                    assert(q2.take(j)[m - 1] == k2.subrange(0, j)[m - 1]);
                    assert(q2[m - 1] == q[m]);
                    assert(k[m] == k2[m - 1]);
                }
            }
            assert(q.take(j + 1) =~= k.subrange(0, j + 1));
        }
        assert(level_viable(l, alpha, q.take(j + 1)));
    }
    if level_viable(l, alpha, q.take(j + 1)) {
        let k = choose|k: Seq<char>|
            #[trigger] level_bound(l, alpha, k) is Some && q.take(j + 1).is_prefix_of(k);
        assert(q.take(j + 1)[0] == k.subrange(0, j + 1)[0]);
        assert(k[0] == q[0]);
        lemma_bound_descend(l, alpha, b, k);
        assert(level_bound(b, alpha, k.skip(1)) is Some);
        assert(q2.take(j).is_prefix_of(k.skip(1))) by {
            assert forall|m: int| #![trigger q2.take(j)[m]] 0 <= m < j implies q2.take(j)[m] == k.skip(1).subrange(0, j)[m] by {
                assert(q.take(j + 1)[m + 1] == k.subrange(0, j + 1)[m + 1]);
                assert(q2[m] == q[m + 1]);
                assert(k.skip(1)[m] == k[m + 1]);
            }
            assert(q2.take(j) =~= k.skip(1).subrange(0, j));
        }
        assert(level_viable(b, alpha, q2.take(j)));
    }
}

/// A strict extension of a viable prefix exists below `l` exactly when one
/// exists below the continuation `b` for the shifted prefix.
proof fn lemma_strict_ext_descend<R>(
    l: TrieLevel<R>,
    alpha: Seq<char>,
    q: Seq<char>,
    b: TrieLevel<R>,
    j: int,
)
    requires
        q.len() >= 2,
        0 <= char_index(alpha, q[0]) < l.slots.len(),
        has_sub(l.slots[char_index(alpha, q[0])], b),
        1 <= j <= q.len() - 1,
    ensures
        (exists|k: Seq<char>|
            #[trigger] level_bound(l, alpha, k) is Some && q.take(j + 1).is_prefix_of(k) && q.take(
                j + 1,
            ) != k) <==> (exists|k2: Seq<char>|
            #[trigger] level_bound(b, alpha, k2) is Some && q.skip(1).take(j).is_prefix_of(k2)
                && q.skip(1).take(j) != k2),
{
    let q2 = q.skip(1);
    if exists|k2: Seq<char>|
        #[trigger] level_bound(b, alpha, k2) is Some && q2.take(j).is_prefix_of(k2) && q2.take(j)
            != k2 {
        let k2 = choose|k2: Seq<char>|
            #[trigger] level_bound(b, alpha, k2) is Some && q2.take(j).is_prefix_of(k2) && q2.take(
                j,
            ) != k2;
        let k = q.take(1) + k2;
        assert(k[0] == q[0]);
        assert(k.skip(1) =~= k2);
        lemma_bound_descend(l, alpha, b, k);
        if k2.len() == j {
            assert(q2.take(j) =~= k2.subrange(0, j));
            assert(k2.subrange(0, j) =~= k2);
            assert(false);
        }
        assert(k2.len() > j);
        assert(q.take(j + 1).is_prefix_of(k)) by {
            assert forall|m: int| #![trigger q.take(j + 1)[m]] 0 <= m < j + 1 implies q.take(
                j + 1,
            )[m] == k.subrange(0, j + 1)[m] by {
                if m > 0 {
                    assert(q2.take(j)[m - 1] == k2.subrange(0, j)[m - 1]);
                    assert(q2[m - 1] == q[m]);
                    assert(k[m] == k2[m - 1]);
                }
            }
            assert(q.take(j + 1) =~= k.subrange(0, j + 1));
        }
        assert(k.len() > j + 1);
        assert(q.take(j + 1) != k);
    }
    if exists|k: Seq<char>|
        #[trigger] level_bound(l, alpha, k) is Some && q.take(j + 1).is_prefix_of(k) && q.take(
            j + 1,
        ) != k {
        let k = choose|k: Seq<char>|
            #[trigger] level_bound(l, alpha, k) is Some && q.take(j + 1).is_prefix_of(k) && q.take(
                j + 1,
            ) != k;
        assert(q.take(j + 1)[0] == k.subrange(0, j + 1)[0]);
        assert(k[0] == q[0]);
        assert(k.len() >= j + 1);
        if k.len() == j + 1 {
            assert(q.take(j + 1) =~= k.subrange(0, j + 1));
            assert(k.subrange(0, j + 1) =~= k);
            assert(false);
        }
        lemma_bound_descend(l, alpha, b, k);
        assert(level_bound(b, alpha, k.skip(1)) is Some);
        assert(q2.take(j).is_prefix_of(k.skip(1))) by {
            assert forall|m: int| #![trigger q2.take(j)[m]] 0 <= m < j implies q2.take(j)[m] == k.skip(1).subrange(0, j)[m] by {
                assert(q.take(j + 1)[m + 1] == k.subrange(0, j + 1)[m + 1]);
                assert(q2[m] == q[m + 1]);
                assert(k.skip(1)[m] == k[m + 1]);
            }
            assert(q2.take(j) =~= k.skip(1).subrange(0, j));
        }
        assert(k.skip(1).len() > j);
        assert(q2.take(j) != k.skip(1));
    }
}

fn search_level<R: Copy>(l: &TrieLevel<R>, alpha: &Vec<char>, f: &str, pos: usize) -> (r: Result<
    R,
    TrieError,
>)
    requires
        level_wf(*l, alpha@),
        pos < f@.len(),
    ensures
        r == level_search(*l, alpha@, f@.skip(pos as int)),
    decreases f@.len() - pos,
{
    let ghost q = f@.skip(pos as int);
    let n = f.unicode_len();
    let c = f.get_char(pos);
    proof {
        assert(q[0] == f@[pos as int]);
    }
    match find_index(alpha, c) {
        None => {
            proof {
                assert forall|j: int| 1 <= j <= q.len() implies !level_viable(
                    *l,
                    alpha@,
                    #[trigger] q.take(j),
                ) by {
                    if level_viable(*l, alpha@, q.take(j)) {
                        let k = choose|k: Seq<char>|
                            #[trigger] level_bound(*l, alpha@, k) is Some && q.take(
                                j,
                            ).is_prefix_of(k);
                        assert(q.take(j)[0] == k.subrange(0, j)[0]);
                        assert(k[0] == q[0]);
                        assert(level_bound(*l, alpha@, k) is None);
                    }
                }
                assert(q.take(q.len() as int) =~= q);
                assert(!level_viable(*l, alpha@, q));
                lemma_lv_zero(*l, alpha@, q);
            }
            Err(TrieError::NoHash)
        },
        Some(idx) => {
            proof {
                assert(node_wf(l.slots[idx as int], alpha@));
            }
            let last = pos + 1 == n;
            match &l.slots[idx] {
                TrieNode::Null => {
                    proof {
                        assert forall|j: int| 1 <= j <= q.len() implies !level_viable(
                            *l,
                            alpha@,
                            #[trigger] q.take(j),
                        ) by {
                            if level_viable(*l, alpha@, q.take(j)) {
                                let k = choose|k: Seq<char>|
                                    #[trigger] level_bound(*l, alpha@, k) is Some && q.take(
                                        j,
                                    ).is_prefix_of(k);
                                assert(q.take(j)[0] == k.subrange(0, j)[0]);
                                assert(k[0] == q[0]);
                                assert(level_bound(*l, alpha@, k) is None);
                            }
                        }
                        assert(q.take(q.len() as int) =~= q);
                        assert(!level_viable(*l, alpha@, q));
                        lemma_lv_zero(*l, alpha@, q);
                    }
                    Err(TrieError::Null)
                },
                TrieNode::End(e) => {
                    if last {
                        proof {
                            assert(level_bound(*l, alpha@, q) == Some(*e));
                        }
                        Ok(*e)
                    } else {
                        proof {
                            assert(level_bound(*l, alpha@, q) is None);
                            assert forall|j: int| 2 <= j <= q.len() implies !level_viable(
                                *l,
                                alpha@,
                                #[trigger] q.take(j),
                            ) by {
                                if level_viable(*l, alpha@, q.take(j)) {
                                    let k = choose|k: Seq<char>|
                                        #[trigger] level_bound(*l, alpha@, k) is Some && q.take(
                                            j,
                                        ).is_prefix_of(k);
                                    assert(q.take(j)[0] == k.subrange(0, j)[0]);
                                    assert(k[0] == q[0]);
                                    assert(k.len() >= 2);
                                    assert(level_bound(*l, alpha@, k) is None);
                                }
                            }
                            let k1 = q.take(1);
                            assert(k1[0] == q[0]);
                            assert(level_bound(*l, alpha@, k1) == Some(*e));
                            assert(k1.is_prefix_of(k1));
                            assert(level_viable(*l, alpha@, q.take(1)));
                            assert(q.take(q.len() as int) =~= q);
                            assert(!level_viable(*l, alpha@, q));
                            lemma_lv_unique(*l, alpha@, q, 1);
                            assert(!(exists|k: Seq<char>|
                                #[trigger] level_bound(*l, alpha@, k) is Some && q.take(
                                    1,
                                ).is_prefix_of(k) && q.take(1) != k)) by {
                                if exists|k: Seq<char>|
                                    #[trigger] level_bound(*l, alpha@, k) is Some && q.take(
                                        1,
                                    ).is_prefix_of(k) && q.take(1) != k {
                                    let k = choose|k: Seq<char>|
                                        #[trigger] level_bound(*l, alpha@, k) is Some && q.take(
                                            1,
                                        ).is_prefix_of(k) && q.take(1) != k;
                                    assert(q.take(1)[0] == k.subrange(0, 1)[0]);
                                    assert(k[0] == q[0]);
                                    if k.len() == 1 {
                                        assert(q.take(1) =~= k.subrange(0, 1));
                                        assert(k.subrange(0, 1) =~= k);
                                        assert(false);
                                    } else {
                                        assert(level_bound(*l, alpha@, k) is None);
                                    }
                                }
                            }
                        }
                        Err(TrieError::End)
                    }
                },
                TrieNode::SubTrie(b) => {
                    if last {
                        proof {
                            assert(level_bound(*l, alpha@, q) is None);
                            lemma_viable_one(*l, alpha@, q, **b);
                            assert(q.take(1) =~= q);
                        }
                        Err(TrieError::SubTrie)
                    } else {
                        let r = search_level(&**b, alpha, f, pos + 1);
                        proof {
                            assert(q.skip(1) =~= f@.skip(pos as int + 1));
                            lemma_search_descend(*l, alpha@, q, **b);
                        }
                        r
                    }
                },
                TrieNode::SubEndTrie(e, b) => {
                    if last {
                        proof {
                            assert(level_bound(*l, alpha@, q) == Some(*e));
                        }
                        Ok(*e)
                    } else {
                        let r = search_level(&**b, alpha, f, pos + 1);
                        proof {
                            assert(q.skip(1) =~= f@.skip(pos as int + 1));
                            lemma_search_descend(*l, alpha@, q, **b);
                        }
                        r
                    }
                },
            }
        },
    }
}

/// Descending one level maps the whole search outcome.
proof fn lemma_search_descend<R>(l: TrieLevel<R>, alpha: Seq<char>, q: Seq<char>, b: TrieLevel<R>)
    requires
        level_wf(l, alpha),
        q.len() >= 2,
        0 <= char_index(alpha, q[0]) < l.slots.len(),
        has_sub(l.slots[char_index(alpha, q[0])], b),
    ensures
        level_search(l, alpha, q) == level_search(b, alpha, q.skip(1)),
{
    let i = char_index(alpha, q[0]);
    let q2 = q.skip(1);
    assert(node_wf(l.slots[i], alpha));
    assert(level_nonempty(b, alpha));
    lemma_bound_descend(l, alpha, b, q);
    assert(q.take(q.len() as int) =~= q);
    assert(q2.take(q2.len() as int) =~= q2);
    lemma_viable_descend(l, alpha, q, b, q.len() - 1);
    assert(level_viable(l, alpha, q) <==> level_viable(b, alpha, q2));
    if level_bound(l, alpha, q) is Some {
    } else if level_viable(l, alpha, q) {
    } else {
        lemma_lv_props(b, alpha, q2);
        let j2 = longest_viable(b, alpha, q2);
        assert(j2 < q2.len());
        // The longest viable prefix below `l` is one longer.
        if j2 == 0 {
            lemma_viable_one(l, alpha, q, b);
        } else {
            lemma_viable_descend(l, alpha, q, b, j2);
            lemma_viable_monotone(l, alpha, q.take(j2 + 1), 1);
            assert(q.take(j2 + 1).take(1) =~= q.take(1));
        }
        assert(level_viable(l, alpha, q.take(if j2 == 0 { 1int } else { j2 + 1 })));
        assert forall|j3: int| j2 + 1 < j3 <= q.len() implies !level_viable(
            l,
            alpha,
            #[trigger] q.take(j3),
        ) by {
            lemma_viable_descend(l, alpha, q, b, j3 - 1);
            assert(!level_viable(b, alpha, q2.take(j3 - 1)));
        }
        lemma_lv_unique(l, alpha, q, j2 + 1);
        assert(longest_viable(l, alpha, q) == j2 + 1);
        assert(q[j2 + 1] == q2[j2]);
        if j2 == 0 {
            // Below `l` a strict extension of the one-character prefix always
            // exists, so the `End` case cannot arise on either side.
            let k2 = choose|k2: Seq<char>| #[trigger] level_bound(b, alpha, k2) is Some;
            lemma_bound_nonempty_key(b, alpha, k2);
            let k = q.take(1) + k2;
            assert(k[0] == q[0]);
            assert(k.skip(1) =~= k2);
            lemma_bound_descend(l, alpha, b, k);
            assert(level_bound(l, alpha, k) is Some);
            assert(q.take(1).is_prefix_of(k)) by {
                assert(q.take(1) =~= k.subrange(0, 1));
            }
            assert(k.len() >= 2);
            assert(q.take(1) != k);
            assert(q.take(j2 + 1) == q.take(1));
        } else {
            lemma_strict_ext_descend(l, alpha, q, b, j2);
        }
    }
}

impl<R: Copy> Trie<R> {
    /// An empty trie over the given alphabet.  Each character is addressed
    /// by its first position in `alphabet`.
    pub fn new(alphabet: Vec<char>) -> (t: Trie<R>)
        ensures
            t.wf(),
            t.alpha() == alphabet@,
            forall|q: Seq<char>| t.bound(q) is None,
    {
        let root = new_level(alphabet.len());
        proof {
            lemma_null_level_bound(root, alphabet@);
        }
        Trie { alphabet, root }
    }

    /// Walks the trie one character at a time.  Returns the terminal bound
    /// to exactly `f`, or the distinct failure kind that the walk ran into;
    /// `spec_search` states the outcome exactly.
    pub fn search(&self, f: &str) -> (r: Result<R, TrieError>)
        requires
            self.wf(),
        ensures
            r == self.spec_search(f@),
    {
        if f.unicode_len() == 0 {
            Err(TrieError::NoChar)
        } else {
            let r = search_level(&self.root, &self.alphabet, f, 0);
            proof {
                assert(f@.skip(0) =~= f@);
            }
            r
        }
    }

    /// Binds `end` as the terminal for exactly the string `f`, leaving every
    /// other binding as it was.  Re-inserting a string overwrites only its
    /// terminal; continuations below it are preserved.  An empty `f` changes
    /// nothing.  Every character of `f` must lie in the alphabet.
    pub fn add_string(&mut self, f: &str, end: R)
        requires
            old(self).wf(),
            forall|i: int| 0 <= i < f@.len() ==> char_index(old(self).alpha(), f@[i]) >= 0,
        ensures
            final(self).wf(),
            final(self).alpha() == old(self).alpha(),
            forall|q: Seq<char>| #[trigger] final(self).bound(q) == (if f@.len() > 0 && q == f@ {
                Some(end)
            } else {
                old(self).bound(q)
            }),
    {
        if f.unicode_len() == 0 {
            return ;
        }
        add_level(&mut self.root, &self.alphabet, f, 0, end);
        proof {
            assert(f@.skip(0) =~= f@);
            assert forall|q: Seq<char>| #[trigger] self.bound(q) == (if f@.len() > 0 && q == f@ {
                Some(end)
            } else {
                old(self).bound(q)
            }) by {
                if q =~= f@.skip(0) {
                    assert(q == f@);
                }
            }
        }
    }
}

/// Law: a search succeeds exactly on the bound strings, and then returns
/// exactly the bound value.
pub proof fn lemma_search_found<R>(t: Trie<R>, q: Seq<char>)
    ensures
        t.spec_search(q) is Ok <==> t.bound(q) is Some,
        t.bound(q) is Some ==> t.spec_search(q) == Ok::<R, TrieError>(t.bound(q)->Some_0),
{
    if t.bound(q) is Some {
        lemma_bound_nonempty_key(t.root, t.alphabet@, q);
    }
}

/// Law: a search ends in the terminal value or the `SubTrie` failure exactly
/// when the query is a nonempty prefix of some bound string; in particular a
/// proper prefix with no terminal of its own yields `SubTrie`.
pub proof fn lemma_search_viable<R>(t: Trie<R>, q: Seq<char>)
    ensures
        (t.spec_search(q) is Ok || t.spec_search(q) == Err::<R, TrieError>(TrieError::SubTrie))
            <==> t.viable(q),
{
    assert(t.viable(q) <==> level_viable(t.root, t.alphabet@, q)) by {
        if t.viable(q) {
            let k = choose|k: Seq<char>| #[trigger] t.bound(k) is Some && q.is_prefix_of(k);
            assert(level_bound(t.root, t.alphabet@, k) is Some && q.is_prefix_of(k));
        }
        if level_viable(t.root, t.alphabet@, q) {
            let k = choose|k: Seq<char>|
                #[trigger] level_bound(t.root, t.alphabet@, k) is Some && q.is_prefix_of(k);
            assert(t.bound(k) is Some && q.is_prefix_of(k));
        }
    }
    if t.bound(q) is Some {
        lemma_bound_nonempty_key(t.root, t.alphabet@, q);
        assert(q.is_prefix_of(q)) by {
            assert(q =~= q.subrange(0, q.len() as int));
        }
        assert(t.viable(q));
    }
}

/// Law: searching the empty string fails with `NoChar`.
pub proof fn lemma_search_nochar<R>(t: Trie<R>, q: Seq<char>)
    requires
        q.len() == 0,
    ensures
        t.spec_search(q) == Err::<R, TrieError>(TrieError::NoChar),
{
}

/// Law: when the first character lies outside the alphabet the search fails
/// with `NoHash`.
pub proof fn lemma_search_nohash<R>(t: Trie<R>, q: Seq<char>)
    requires
        q.len() > 0,
        char_index(t.alpha(), q[0]) < 0,
    ensures
        t.spec_search(q) == Err::<R, TrieError>(TrieError::NoHash),
{
    let l = t.root;
    let alpha = t.alphabet@;
    assert forall|j: int| 1 <= j <= q.len() implies !level_viable(l, alpha, #[trigger] q.take(j)) by {
        if level_viable(l, alpha, q.take(j)) {
            let k = choose|k: Seq<char>|
                #[trigger] level_bound(l, alpha, k) is Some && q.take(j).is_prefix_of(k);
            assert(q.take(j)[0] == k.subrange(0, j)[0]);
            assert(k[0] == q[0]);
            assert(level_bound(l, alpha, k) is None);
        }
    }
    assert(q.take(q.len() as int) =~= q);
    assert(!level_viable(l, alpha, q));
    lemma_lv_zero(l, alpha, q);
}

/// Law: a nonempty query whose first character no bound string starts with
/// fails with `Null` when that character is in the alphabet.
pub proof fn lemma_search_null<R>(t: Trie<R>, q: Seq<char>)
    requires
        q.len() > 0,
        char_index(t.alpha(), q[0]) >= 0,
        forall|k: Seq<char>| #[trigger] t.bound(k) is Some ==> k.len() == 0 || k[0] != q[0],
    ensures
        t.spec_search(q) == Err::<R, TrieError>(TrieError::Null),
{
    let l = t.root;
    let alpha = t.alphabet@;
    assert forall|j: int| 1 <= j <= q.len() implies !level_viable(l, alpha, #[trigger] q.take(j)) by {
        if level_viable(l, alpha, q.take(j)) {
            let k = choose|k: Seq<char>|
                #[trigger] level_bound(l, alpha, k) is Some && q.take(j).is_prefix_of(k);
            assert(q.take(j)[0] == k.subrange(0, j)[0]);
            assert(k[0] == q[0]);
            lemma_bound_nonempty_key(l, alpha, k);
            assert(t.bound(k) is Some);
        }
    }
    assert(q.take(q.len() as int) =~= q);
    assert(!level_viable(l, alpha, q));
    lemma_lv_zero(l, alpha, q);
    assert(t.bound(q) is None);
}

/// Law: extending a bound string by one character past its terminal, where
/// no longer bound string continues, fails with `End`.
pub proof fn lemma_search_end<R>(t: Trie<R>, p: Seq<char>, c: char)
    requires
        t.bound(p) is Some,
        forall|k: Seq<char>| #[trigger] t.bound(k) is Some ==> !(p.is_prefix_of(k) && p != k),
    ensures
        t.spec_search(p.push(c)) == Err::<R, TrieError>(TrieError::End),
{
    let l = t.root;
    let alpha = t.alphabet@;
    let q = p.push(c);
    lemma_bound_nonempty_key(l, alpha, p);
    assert(q.len() == p.len() + 1);
    assert(q.take(p.len() as int) =~= p);
    // No binding at q, and q is not viable: q strictly extends p.
    assert forall|k: Seq<char>|
        #[trigger] level_bound(l, alpha, k) is Some implies !(q.is_prefix_of(k) && true) by {
        if q.is_prefix_of(k) {
            assert(p.is_prefix_of(k)) by {
                assert forall|m: int| 0 <= m < p.len() implies p[m] == k.subrange(
                    0,
                    p.len() as int,
                )[m] by {
                    assert(q[m] == k.subrange(0, q.len() as int)[m]);
                }
                assert(p =~= k.subrange(0, p.len() as int));
            }
            assert(t.bound(k) is Some);
            assert(p == k);
            assert(k.len() >= q.len());
            assert(false);
        }
    }
    assert(!level_viable(l, alpha, q));
    if level_bound(l, alpha, q) is Some {
        assert(q.is_prefix_of(q)) by {
            assert(q =~= q.subrange(0, q.len() as int));
        }
        assert(false);
    }
    // The longest viable prefix is exactly p.
    assert(level_viable(l, alpha, q.take(p.len() as int))) by {
        assert(p.is_prefix_of(p)) by {
            assert(p =~= p.subrange(0, p.len() as int));
        }
    }
    assert forall|j: int| p.len() < j <= q.len() implies !level_viable(l, alpha, #[trigger] q.take(j))
    by {
        assert(j == q.len());
        assert(q.take(j) =~= q);
    }
    lemma_lv_unique(l, alpha, q, p.len() as int);
    // And nothing extends strictly past p.
    assert(!(exists|k: Seq<char>|
        #[trigger] level_bound(l, alpha, k) is Some && q.take(p.len() as int).is_prefix_of(k)
            && q.take(p.len() as int) != k)) by {
        if exists|k: Seq<char>|
            #[trigger] level_bound(l, alpha, k) is Some && q.take(p.len() as int).is_prefix_of(k)
                && q.take(p.len() as int) != k {
            let k = choose|k: Seq<char>|
                #[trigger] level_bound(l, alpha, k) is Some && q.take(
                    p.len() as int,
                ).is_prefix_of(k) && q.take(p.len() as int) != k;
            assert(t.bound(k) is Some);
            assert(p.is_prefix_of(k) && p != k);
        }
    }
}


proof fn lemma_viable_ext<R>(l1: TrieLevel<R>, l2: TrieLevel<R>, alpha: Seq<char>, q: Seq<char>)
    requires
        forall|k: Seq<char>| #[trigger] level_bound(l1, alpha, k) == level_bound(l2, alpha, k),
    ensures
        level_viable(l1, alpha, q) == level_viable(l2, alpha, q),
{
    if level_viable(l1, alpha, q) {
        let k = choose|k: Seq<char>|
            #[trigger] level_bound(l1, alpha, k) is Some && q.is_prefix_of(k);
        assert(level_bound(l2, alpha, k) is Some && q.is_prefix_of(k));
    }
    if level_viable(l2, alpha, q) {
        let k = choose|k: Seq<char>|
            #[trigger] level_bound(l2, alpha, k) is Some && q.is_prefix_of(k);
        assert(level_bound(l1, alpha, k) is Some && q.is_prefix_of(k));
    }
}

proof fn lemma_lv_ext<R>(l1: TrieLevel<R>, l2: TrieLevel<R>, alpha: Seq<char>, q: Seq<char>)
    requires
        forall|k: Seq<char>| #[trigger] level_bound(l1, alpha, k) == level_bound(l2, alpha, k),
    ensures
        longest_viable(l1, alpha, q) == longest_viable(l2, alpha, q),
    decreases q.len(),
{
    lemma_viable_ext(l1, l2, alpha, q);
    if q.len() > 0 && !level_viable(l1, alpha, q) {
        lemma_lv_ext(l1, l2, alpha, q.take(q.len() - 1));
    }
}

/// Law: the search outcome is a function of the alphabet and the bound map
/// alone — two tries with the same alphabet and equal bindings answer every
/// query alike.  In particular, re-inserting an already-bound value, or
/// overwriting only a terminal, changes no other search result.
pub proof fn lemma_search_extensional<R>(t1: Trie<R>, t2: Trie<R>, q: Seq<char>)
    requires
        t1.alpha() == t2.alpha(),
        forall|k: Seq<char>| #[trigger] t1.bound(k) == t2.bound(k),
    ensures
        t1.spec_search(q) == t2.spec_search(q),
{
    let alpha = t1.alphabet@;
    assert(t2.alphabet@ == alpha);
    assert forall|k: Seq<char>| #[trigger] level_bound(t1.root, alpha, k) == level_bound(
        t2.root,
        alpha,
        k,
    ) by {
        assert(t1.bound(k) == t2.bound(k));
    }
    lemma_viable_ext(t1.root, t2.root, alpha, q);
    lemma_lv_ext(t1.root, t2.root, alpha, q);
    if q.len() == 0 {
    } else if level_bound(t1.root, alpha, q) is Some {
    } else if level_viable(t1.root, alpha, q) {
    } else {
        let j = longest_viable(t1.root, alpha, q);
        let p = q.take(j);
        assert((exists|k: Seq<char>|
            #[trigger] level_bound(t1.root, alpha, k) is Some && p.is_prefix_of(k) && p != k)
            <==> (exists|k: Seq<char>|
            #[trigger] level_bound(t2.root, alpha, k) is Some && p.is_prefix_of(k) && p != k)) by {
            if exists|k: Seq<char>|
                #[trigger] level_bound(t1.root, alpha, k) is Some && p.is_prefix_of(k) && p != k {
                let k = choose|k: Seq<char>|
                    #[trigger] level_bound(t1.root, alpha, k) is Some && p.is_prefix_of(k) && p
                        != k;
                assert(level_bound(t2.root, alpha, k) is Some && p.is_prefix_of(k) && p != k);
            }
            if exists|k: Seq<char>|
                #[trigger] level_bound(t2.root, alpha, k) is Some && p.is_prefix_of(k) && p != k {
                let k = choose|k: Seq<char>|
                    #[trigger] level_bound(t2.root, alpha, k) is Some && p.is_prefix_of(k) && p
                        != k;
                assert(level_bound(t1.root, alpha, k) is Some && p.is_prefix_of(k) && p != k);
            }
        }
    }
}

/// The bindings that remain after inserting `pairs`, in order, into a trie
/// whose bindings were those of `t`; one step of this fold is exactly what
/// `add_string` ensures.
pub open spec fn bound_after<R>(t: Trie<R>, pairs: Seq<(Seq<char>, R)>, q: Seq<char>) -> Option<R>
    decreases pairs.len(),
{
    if pairs.len() == 0 {
        t.bound(q)
    } else if pairs.last().0.len() > 0 && q == pairs.last().0 {
        Some(pairs.last().1)
    } else {
        bound_after(t, pairs.drop_last(), q)
    }
}

/// Law: after inserting any set of (string, value) pairs with pairwise
/// distinct nonempty strings, every inserted string is bound to exactly its
/// value — in particular, inserting a strict prefix after a longer string,
/// or before it, loses neither binding.
pub proof fn lemma_distinct_inserts_bound<R>(t: Trie<R>, pairs: Seq<(Seq<char>, R)>, i: int)
    requires
        0 <= i < pairs.len(),
        pairs[i].0.len() > 0,
        forall|j1: int, j2: int|
            0 <= j1 < j2 < pairs.len() ==> (#[trigger] pairs[j1]).0 != (#[trigger] pairs[j2]).0,
    ensures
        bound_after(t, pairs, pairs[i].0) == Some(pairs[i].1),
    decreases pairs.len(),
{
    if i == pairs.len() - 1 {
    } else {
        assert(pairs[i].0 != pairs[pairs.len() - 1].0);
        assert(pairs.drop_last()[i] == pairs[i]);
        lemma_distinct_inserts_bound(t, pairs.drop_last(), i);
    }
}

} // verus!
