//! Expression trees over an ordered sequence of faces, and the generator
//! that produces every parenthesization of such a sequence: repeatedly, every
//! pair of currently-adjacent entries is merged into one node, and the
//! shorter sequences are expanded recursively.

use vstd::prelude::*;

verus! {

/// A node of an expression tree: a single face, or an ordered pair of
/// subtrees, each exclusively owned by its parent.
#[derive(PartialEq, Eq, Debug)]
pub enum PairingEntry {
    Single(isize),
    Pair { left: Box<PairingEntry>, right: Box<PairingEntry> },
}

/// The number of nodes of a tree; used only for termination.
pub open spec fn tree_size(t: PairingEntry) -> nat
    decreases t,
{
    match t {
        PairingEntry::Single(_) => 1,
        PairingEntry::Pair { left, right } => 1 + tree_size(*left) + tree_size(*right),
    }
}

/// The number of faces of a tree.
pub open spec fn leaf_count(t: PairingEntry) -> nat
    decreases t,
{
    match t {
        PairingEntry::Single(_) => 1,
        PairingEntry::Pair { left, right } => leaf_count(*left) + leaf_count(*right),
    }
}

/// The greatest number of `Pair` nodes on any path from the root to a face.
pub open spec fn pair_height(t: PairingEntry) -> nat
    decreases t,
{
    match t {
        PairingEntry::Single(_) => 0,
        PairingEntry::Pair { left, right } => 1 + if pair_height(*left) >= pair_height(*right) {
            pair_height(*left)
        } else {
            pair_height(*right)
        },
    }
}

/// The faces of a tree, left to right.
pub open spec fn fringe(t: PairingEntry) -> Seq<isize>
    decreases t,
{
    match t {
        PairingEntry::Single(v) => seq![v],
        PairingEntry::Pair { left, right } => fringe(*left) + fringe(*right),
    }
}

/// The faces of a sequence of trees, left to right.
pub open spec fn fringe_seq(s: Seq<PairingEntry>) -> Seq<isize>
    decreases s.len(),
{
    if s.len() == 0 {
        Seq::empty()
    } else {
        fringe(s[0]) + fringe_seq(s.drop_first())
    }
}

/// A tree with `n` faces has at most `n - 1` nested `Pair` levels.
pub proof fn lemma_height_lt_leaves(t: PairingEntry)
    ensures
        pair_height(t) < leaf_count(t),
    decreases t,
{
    match t {
        PairingEntry::Single(_) => {},
        PairingEntry::Pair { left, right } => {
            lemma_height_lt_leaves(*left);
            lemma_height_lt_leaves(*right);
        },
    }
}

/// The sequence with the adjacent entries at `i` and `i + 1` merged into one
/// `Pair` node, in their original order.
pub open spec fn merge_at(s: Seq<PairingEntry>, i: int) -> Seq<PairingEntry> {
    s.take(i) + seq![
        PairingEntry::Pair { left: Box::new(s[i]), right: Box::new(s[i + 1]) },
    ] + s.skip(i + 2)
}

/// Every parenthesization of `s`, in the order the generator produces them:
/// for each adjacent position in turn, the two entries there are merged and
/// the shorter sequence is expanded recursively. A sequence of length one is
/// its own sole parenthesization.
pub open spec fn spec_pairings(s: Seq<PairingEntry>) -> Seq<PairingEntry>
    decreases s.len(), s.len() + 1,
{
    if s.len() <= 1 {
        s
    } else {
        pairings_from(s, 0)
    }
}

/// The concatenation of the parenthesizations obtained by merging at each
/// position from `i` up.
pub open spec fn pairings_from(s: Seq<PairingEntry>, i: int) -> Seq<PairingEntry>
    decreases s.len(), s.len() - i,
{
    if i < 0 || i >= s.len() - 1 || s.len() < 2 {
        Seq::empty()
    } else {
        spec_pairings(merge_at(s, i)) + pairings_from(s, i + 1)
    }
}

/// Copies a tree.
pub fn clone_tree(t: &PairingEntry) -> (r: PairingEntry)
    ensures
        r == *t,
    decreases tree_size(*t),
{
    match t {
        PairingEntry::Single(v) => PairingEntry::Single(*v),
        PairingEntry::Pair { left, right } => PairingEntry::Pair {
            left: Box::new(clone_tree(left)),
            right: Box::new(clone_tree(right)),
        },
    }
}

/// Builds the sequence with positions `i` and `i + 1` merged.
fn merge_entries(pairings: &Vec<PairingEntry>, i: usize) -> (r: Vec<PairingEntry>)
    requires
        i + 1 < pairings@.len(),
    ensures
        r@ == merge_at(pairings@, i as int),
{
    let n = pairings.len();
    let mut v: Vec<PairingEntry> = Vec::new();
    let mut j: usize = 0;
    while j < i
        invariant
            j <= i,
            i + 1 < pairings@.len(),
            v@ == pairings@.take(j as int),
        decreases i - j,
    {
        v.push(clone_tree(&pairings[j]));
        proof {
            assert(pairings@.take(j + 1 as int) =~= pairings@.take(j as int).push(
                pairings@[j as int],
            ));
        }
        j = j + 1;
    }
    let merged = PairingEntry::Pair {
        left: Box::new(clone_tree(&pairings[i])),
        right: Box::new(clone_tree(&pairings[i + 1])),
    };
    v.push(merged);
    let mut j: usize = i + 2;
    while j < pairings.len()
        invariant
            i + 2 <= j <= pairings@.len(),
            v@ == pairings@.take(i as int) + seq![
                PairingEntry::Pair {
                    left: Box::new(pairings@[i as int]),
                    right: Box::new(pairings@[i + 1]),
                },
            ] + pairings@.subrange(i + 2, j as int),
        decreases pairings@.len() - j,
    {
        v.push(clone_tree(&pairings[j]));
        proof {
            assert(pairings@.subrange(i + 2, j + 1 as int) =~= pairings@.subrange(i + 2, j as int)
                .push(pairings@[j as int]));
        }
        j = j + 1;
    }
    proof {
        assert(pairings@.subrange(i + 2, pairings@.len() as int) =~= pairings@.skip(i + 2));
    }
    v
}

/// Produces every parenthesization of the given sequence of trees: for every
/// adjacent pair of entries, the two are replaced by a single `Pair` node and
/// the shorter sequence is expanded recursively, until one tree remains.
pub fn get_pairing_permutations(pairings: &Vec<PairingEntry>) -> (r: Vec<PairingEntry>)
    requires
        pairings@.len() >= 1,
    ensures
        r@ == spec_pairings(pairings@),
    decreases pairings@.len(),
{
    if pairings.len() == 1 {
        let mut v: Vec<PairingEntry> = Vec::new();
        v.push(clone_tree(&pairings[0]));
        proof {
            assert(v@ =~= pairings@);
        }
        return v;
    }
    let mut acc: Vec<PairingEntry> = Vec::new();
    let mut i: usize = 0;
    while i < pairings.len() - 1
        invariant
            pairings@.len() >= 2,
            i <= pairings@.len() - 1,
            acc@ + pairings_from(pairings@, i as int) == spec_pairings(pairings@),
        decreases pairings@.len() - i,
    {
        let merged = merge_entries(pairings, i);
        let mut sub = get_pairing_permutations(&merged);
        proof {
            assert(spec_pairings(pairings@) == acc@ + (spec_pairings(merge_at(pairings@, i as int))
                + pairings_from(pairings@, i + 1)));
            assert(acc@ + (spec_pairings(merge_at(pairings@, i as int)) + pairings_from(
                pairings@,
                i + 1,
            )) =~= (acc@ + spec_pairings(merge_at(pairings@, i as int))) + pairings_from(
                pairings@,
                i + 1,
            ));
        }
        acc.append(&mut sub);
        i = i + 1;
    }
    proof {
        assert(acc@ =~= spec_pairings(pairings@));
    }
    acc
}

/// Every parenthesization keeps every face, in the original left-to-right
/// order: each generated tree's fringe is exactly the fringe of the input
/// sequence, and in particular each tree over `n` faces still has `n` faces.
pub proof fn lemma_pairings_preserve_fringe(s: Seq<PairingEntry>)
    requires
        s.len() >= 1,
    ensures
        forall|j: int|
            0 <= j < spec_pairings(s).len() ==> #[trigger] fringe(spec_pairings(s)[j])
                == fringe_seq(s),
    decreases s.len(), s.len() + 1,
{
    if s.len() == 1 {
        assert(fringe_seq(s) =~= fringe(s[0]) + fringe_seq(s.drop_first()));
        assert(fringe_seq(s.drop_first()) == Seq::<isize>::empty());
        assert(fringe(s[0]) + Seq::<isize>::empty() =~= fringe(s[0]));
        assert forall|j: int| 0 <= j < spec_pairings(s).len() implies #[trigger] fringe(
            spec_pairings(s)[j],
        ) == fringe_seq(s) by {
            assert(spec_pairings(s) == s);
            assert(spec_pairings(s)[j] == s[0]);
        }
    } else {
        lemma_pairings_from_preserve_fringe(s, 0);
        assert(spec_pairings(s) == pairings_from(s, 0));
        assert forall|j: int| 0 <= j < spec_pairings(s).len() implies #[trigger] fringe(
            spec_pairings(s)[j],
        ) == fringe_seq(s) by {
            assert(fringe(pairings_from(s, 0)[j]) == fringe_seq(s));
        }
    }
}

/// Helper for [`lemma_pairings_preserve_fringe`], covering the tail of the
/// generator's outer recursion.
proof fn lemma_pairings_from_preserve_fringe(s: Seq<PairingEntry>, i: int)
    requires
        s.len() >= 2,
        0 <= i,
    ensures
        forall|j: int|
            0 <= j < pairings_from(s, i).len() ==> #[trigger] fringe(pairings_from(s, i)[j])
                == fringe_seq(s),
    decreases s.len(), s.len() - i,
{
    if i >= s.len() - 1 {
    } else {
        lemma_merge_at_fringe(s, i);
        lemma_pairings_preserve_fringe(merge_at(s, i));
        lemma_pairings_from_preserve_fringe(s, i + 1);
        assert forall|j: int| 0 <= j < pairings_from(s, i).len() implies #[trigger] fringe(
            pairings_from(s, i)[j],
        ) == fringe_seq(s) by {
            let head = spec_pairings(merge_at(s, i));
            if j < head.len() {
                assert(pairings_from(s, i)[j] == head[j]);
            } else {
                assert(pairings_from(s, i)[j] == pairings_from(s, i + 1)[j - head.len()]);
            }
        }
    }
}

/// Merging two adjacent entries does not change the fringe of the sequence.
proof fn lemma_merge_at_fringe(s: Seq<PairingEntry>, i: int)
    requires
        0 <= i,
        i + 1 < s.len(),
    ensures
        fringe_seq(merge_at(s, i)) == fringe_seq(s),
        merge_at(s, i).len() == s.len() - 1,
{
    lemma_fringe_seq_concat(s.take(i), seq![
        PairingEntry::Pair { left: Box::new(s[i]), right: Box::new(s[i + 1]) },
    ] + s.skip(i + 2));
    lemma_fringe_seq_concat(
        seq![PairingEntry::Pair { left: Box::new(s[i]), right: Box::new(s[i + 1]) }],
        s.skip(i + 2),
    );
    lemma_fringe_seq_concat(s.take(i), s.skip(i));
    assert(s.take(i) + s.skip(i) =~= s);
    let mid = seq![PairingEntry::Pair { left: Box::new(s[i]), right: Box::new(s[i + 1]) }];
    assert(fringe_seq(mid) =~= fringe(mid[0]) + fringe_seq(mid.drop_first()));
    assert(fringe_seq(mid.drop_first()) == Seq::<isize>::empty());
    assert(fringe_seq(mid) =~= fringe(s[i]) + fringe(s[i + 1]));
    let tail = s.skip(i);
    assert(fringe_seq(tail) =~= fringe(tail[0]) + fringe_seq(tail.drop_first()));
    let tail2 = tail.drop_first();
    assert(tail2 =~= s.skip(i + 1));
    assert(fringe_seq(tail2) =~= fringe(tail2[0]) + fringe_seq(tail2.drop_first()));
    assert(tail2.drop_first() =~= s.skip(i + 2));
    assert(merge_at(s, i) =~= s.take(i) + (mid + s.skip(i + 2)));
    assert(fringe_seq(merge_at(s, i)) =~= fringe_seq(s.take(i)) + (fringe_seq(mid) + fringe_seq(
        s.skip(i + 2),
    )));
    assert(fringe_seq(merge_at(s, i)) =~= fringe_seq(s));
}

/// The fringe of a concatenation is the concatenation of the fringes.
proof fn lemma_fringe_seq_concat(a: Seq<PairingEntry>, b: Seq<PairingEntry>)
    ensures
        fringe_seq(a + b) == fringe_seq(a) + fringe_seq(b),
    decreases a.len(),
{
    if a.len() == 0 {
        assert(a + b =~= b);
        assert(fringe_seq(a) + fringe_seq(b) =~= fringe_seq(b));
    } else {
        lemma_fringe_seq_concat(a.drop_first(), b);
        assert((a + b).drop_first() =~= a.drop_first() + b);
        assert(fringe_seq(a + b) =~= fringe(a[0]) + (fringe_seq(a.drop_first()) + fringe_seq(b)));
        assert(fringe_seq(a + b) =~= (fringe(a[0]) + fringe_seq(a.drop_first())) + fringe_seq(b));
    }
}

} // verus!
