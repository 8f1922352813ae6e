//! Bounding-volume hierarchy over the primitives of a scene.
//!
//! A primitive is named by its index in the scene's list. The hierarchy is built
//! from the minimum corners of the primitives' bounding boxes, each coordinate
//! given as an order key (see [`order_key`]).
use rand::Rng;
use vstd::prelude::*;

verus! {

/// The sign bit of an IEEE-754 double.
pub const SIGN_BIT: u64 = 0x8000_0000_0000_0000;

/// The order key of an IEEE-754 double given by its bit pattern `bits`.
///
/// Keys compare as the numbers do: among non-negative numbers a larger pattern
/// is a larger number, among negative ones a larger pattern is a more negative
/// number, and every negative number lies below every non-negative one.
pub fn order_key(bits: u64) -> (r: u64)
    ensures
        bits >= SIGN_BIT ==> r == u64::MAX - bits,
        bits < SIGN_BIT ==> r == bits + SIGN_BIT,
{
    if bits >= SIGN_BIT {
        u64::MAX - bits
    } else {
        bits + SIGN_BIT
    }
}

/// `a` comes no later than `b` in the lexicographic order of pairs.
pub open spec fn pair_le(a: (u64, usize), b: (u64, usize)) -> bool {
    a.0 < b.0 || (a.0 == b.0 && a.1 <= b.1)
}

/// `p` is a permutation of the indices `0..n`.
pub open spec fn is_index_permutation(p: Seq<int>, n: int) -> bool {
    &&& p.len() == n
    &&& forall|i: int| 0 <= i < n ==> 0 <= #[trigger] p[i] < n
    &&& forall|i: int, j: int| 0 <= i < n && 0 <= j < n && i != j ==> p[i] != p[j]
}

/// Relies on `slice::sort_unstable` on pairs of integers: afterwards the items
/// are the same ones, rearranged, in the lexicographic order of the pairs.
#[verifier::external_body]
fn sort_pairs(v: &mut Vec<(u64, usize)>)
    ensures
        final(v)@.len() == old(v)@.len(),
        forall|i: int, j: int|
            0 <= i < j < final(v)@.len() ==> pair_le(#[trigger] final(v)@[i], #[trigger] final(v)@[j]),
        exists|p: Seq<int>|
            is_index_permutation(p, old(v)@.len() as int) && forall|i: int|
                0 <= i < old(v)@.len() ==> #[trigger] final(v)@[i] == old(v)@[p[i]],
{
    v.sort_unstable();
}

/// Relies on `rand::Rng::gen_range` over `rand::thread_rng`: a uniformly drawn
/// axis, one of `0`, `1` and `2`.
#[verifier::external_body]
fn random_axis() -> (r: usize)
    ensures
        r < 3,
{
    rand::thread_rng().gen_range(0..3)
}

/// The coordinate on `axis` of the key of primitive `object`.
pub open spec fn key_on(keys: Seq<[u64; 3]>, object: usize, axis: int) -> u64 {
    keys[object as int]@[axis]
}

/// The primitives of `s` appear in non-decreasing order of their keys on `axis`.
pub open spec fn sorted_on(s: Seq<usize>, keys: Seq<[u64; 3]>, axis: int) -> bool {
    forall|i: int, j: int|
        0 <= i < j < s.len() ==> key_on(keys, #[trigger] s[i], axis) <= key_on(
            keys,
            #[trigger] s[j],
            axis,
        )
}

/// The primitives of `s` appear in increasing order of their keys on `axis`,
/// and of their indices among equal keys.
pub open spec fn sorted_by_key_then_index(s: Seq<usize>, keys: Seq<[u64; 3]>, axis: int) -> bool {
    forall|i: int, j: int|
        0 <= i < j < s.len() ==> pair_le(
            (key_on(keys, #[trigger] s[i], axis), s[i]),
            (key_on(keys, #[trigger] s[j], axis), s[j]),
        )
}

/// No key on `axis` in `left` exceeds a key on `axis` in `right`.
pub open spec fn ordered_on(left: Seq<usize>, right: Seq<usize>, keys: Seq<[u64; 3]>, axis: int) -> bool {
    forall|i: int, j: int|
        0 <= i < left.len() && 0 <= j < right.len() ==> key_on(keys, #[trigger] left[i], axis)
            <= key_on(keys, #[trigger] right[j], axis)
}

/// Every primitive of `s` has a key in `keys`.
pub open spec fn all_keyed(s: Seq<usize>, keys: Seq<[u64; 3]>) -> bool {
    forall|i: int| 0 <= i < s.len() ==> #[trigger] s[i] < keys.len()
}

/// `s` holds each of the primitives `0..n` exactly once.
pub open spec fn covers_exactly(s: Seq<usize>, n: nat) -> bool {
    &&& s.len() == n
    &&& s.no_duplicates()
    &&& forall|i: int| 0 <= i < s.len() ==> #[trigger] s[i] < n
}

/// Splits `objects` along `axis`: sorted by their keys on that axis, the first
/// `n / 2` of the `n` primitives go left and the others right.
pub fn split_on_axis(objects: &Vec<usize>, min_keys: &Vec<[u64; 3]>, axis: usize) -> (r: (
    Vec<usize>,
    Vec<usize>,
))
    requires
        objects@.len() >= 2,
        objects@.no_duplicates(),
        all_keyed(objects@, min_keys@),
        axis < 3,
    ensures
        r.0@.len() == objects@.len() / 2,
        r.1@.len() == objects@.len() - objects@.len() / 2,
        (r.0@ + r.1@).no_duplicates(),
        forall|i: int| 0 <= i < (r.0@ + r.1@).len() ==> objects@.contains(#[trigger] (r.0@ + r.1@)[i]),
        sorted_by_key_then_index(r.0@ + r.1@, min_keys@, axis as int),
        sorted_on(r.0@ + r.1@, min_keys@, axis as int),
{
    let n = objects.len();
    let mut pairs: Vec<(u64, usize)> = Vec::new();
    let mut i: usize = 0;
    while i < n
        invariant
            i <= n,
            n == objects@.len(),
            all_keyed(objects@, min_keys@),
            axis < 3,
            pairs@.len() == i,
            forall|k: int|
                0 <= k < i ==> #[trigger] pairs@[k] == (
                    key_on(min_keys@, objects@[k], axis as int),
                    objects@[k],
                ),
        decreases n - i,
    {
        let object = objects[i];
        pairs.push((min_keys[object][axis], object));
        i = i + 1;
    }
    let ghost unsorted = pairs@;
    sort_pairs(&mut pairs);
    let ghost p = choose|p: Seq<int>|
        is_index_permutation(p, unsorted.len() as int) && forall|i: int|
            0 <= i < unsorted.len() ==> #[trigger] pairs@[i] == unsorted[p[i]];
    let mid = n / 2;
    let mut left: Vec<usize> = Vec::new();
    let mut right: Vec<usize> = Vec::new();
    let mut j: usize = 0;
    while j < n
        invariant
            j <= n,
            mid == n / 2,
            n == pairs@.len(),
            left@.len() == if j < mid { j } else { mid },
            right@.len() == if j < mid { 0 } else { j - mid },
            forall|k: int| 0 <= k < left@.len() ==> #[trigger] left@[k] == pairs@[k].1,
            forall|k: int| 0 <= k < right@.len() ==> #[trigger] right@[k] == pairs@[mid + k].1,
        decreases n - j,
    {
        if j < mid {
            left.push(pairs[j].1);
        } else {
            right.push(pairs[j].1);
        }
        j = j + 1;
    }
    let ghost s = left@ + right@;
    assert forall|k: int| 0 <= k < n implies #[trigger] s[k] == unsorted[p[k]].1 && s[k]
        == objects@[p[k]] by {
        if k >= mid {
            assert(s[k] == right@[k - mid]);
        }
    }
    assert(s.no_duplicates()) by {
        assert forall|a: int, b: int| 0 <= a < s.len() && 0 <= b < s.len() && a != b implies s[a]
            != s[b] by {
            assert(p[a] != p[b]);
            assert(objects@[p[a]] != objects@[p[b]]);
        }
    }
    assert forall|k: int| 0 <= k < s.len() implies objects@.contains(#[trigger] s[k]) by {
        assert(objects@[p[k]] == s[k]);
    }
    assert forall|a: int, b: int| 0 <= a < b < s.len() implies pair_le(
        (key_on(min_keys@, #[trigger] s[a], axis as int), s[a]),
        (key_on(min_keys@, #[trigger] s[b], axis as int), s[b]),
    ) by {
        assert(pair_le(pairs@[a], pairs@[b]));
        assert(pairs@[a] == unsorted[p[a]]);
        assert(pairs@[b] == unsorted[p[b]]);
    }
    (left, right)
}

/// A node of the hierarchy. A leaf stands for one primitive (a node whose two
/// children are that primitive); a split node has two subtrees.
pub enum BvhNode {
    Leaf { object: usize },
    Split { left: Box<BvhNode>, right: Box<BvhNode> },
}

impl BvhNode {
    /// The primitives under this node, left to right.
    pub open spec fn leaves(self) -> Seq<usize>
        decreases self,
    {
        match self {
            BvhNode::Leaf { object } => seq![object],
            BvhNode::Split { left, right } => left.leaves() + right.leaves(),
        }
    }

    /// Each split divides its primitives at the midpoint of their order along
    /// some axis: the left half holds `n / 2` of the `n` primitives, and none of
    /// its keys on that axis exceeds one of the right half.
    pub open spec fn well_split(self, keys: Seq<[u64; 3]>) -> bool
        decreases self,
    {
        match self {
            BvhNode::Leaf { object } => object < keys.len(),
            BvhNode::Split { left, right } => {
                &&& left.well_split(keys)
                &&& right.well_split(keys)
                &&& left.leaves().len() == (left.leaves().len() + right.leaves().len()) / 2
                &&& exists|axis: int|
                    0 <= axis < 3 && #[trigger] ordered_on(left.leaves(), right.leaves(), keys, axis)
            },
        }
    }

    /// A split node over two subtrees.
    pub fn new(left: BvhNode, right: BvhNode) -> (r: BvhNode)
        ensures
            r == (BvhNode::Split { left: Box::new(left), right: Box::new(right) }),
    {
        BvhNode::Split { left: Box::new(left), right: Box::new(right) }
    }

    /// Builds the hierarchy over the primitives `0..n`, where `min_keys[i]` holds
    /// the order keys of the minimum corner of primitive `i`'s bounding box.
    /// Each split is made along an axis drawn at random.
    pub fn from_hittable_list(min_keys: &Vec<[u64; 3]>) -> (r: BvhNode)
        requires
            min_keys@.len() >= 1,
        ensures
            r.well_split(min_keys@),
            covers_exactly(r.leaves(), min_keys@.len()),
    {
        let n = min_keys.len();
        let mut objects: Vec<usize> = Vec::new();
        let mut i: usize = 0;
        while i < n
            invariant
                i <= n,
                n == min_keys@.len(),
                objects@.len() == i,
                forall|k: int| 0 <= k < i ==> #[trigger] objects@[k] == k,
            decreases n - i,
        {
            objects.push(i);
            i = i + 1;
        }
        let r = Self::build(objects, min_keys);
        assert forall|k: int| 0 <= k < r.leaves().len() implies #[trigger] r.leaves()[k] < n by {
            let x = r.leaves()[k];
            assert(objects@.contains(x));
        }
        r
    }

    fn build(objects: Vec<usize>, min_keys: &Vec<[u64; 3]>) -> (r: BvhNode)
        requires
            objects@.len() >= 1,
            objects@.no_duplicates(),
            all_keyed(objects@, min_keys@),
        ensures
            r.well_split(min_keys@),
            r.leaves().len() == objects@.len(),
            r.leaves().no_duplicates(),
            forall|k: int| 0 <= k < r.leaves().len() ==> objects@.contains(#[trigger] r.leaves()[k]),
        decreases objects@.len(),
    {
        if objects.len() == 1 {
            let r = BvhNode::Leaf { object: objects[0] };
            assert(r.leaves() =~= objects@);
            return r;
        }
        let axis = random_axis();
        let (l, rt) = split_on_axis(&objects, min_keys, axis);
        let ghost s = l@ + rt@;
        let ghost mid = l@.len() as int;
        assert forall|k: int| 0 <= k < l@.len() implies #[trigger] l@[k] == s[k] by {}
        assert forall|k: int| 0 <= k < rt@.len() implies #[trigger] rt@[k] == s[mid + k] by {}
        assert(l@.no_duplicates()) by {
            assert forall|a: int, b: int| 0 <= a < l@.len() && 0 <= b < l@.len() && a != b implies l@[a]
                != l@[b] by {
                assert(s[a] != s[b]);
            }
        }
        assert(rt@.no_duplicates()) by {
            assert forall|a: int, b: int|
                0 <= a < rt@.len() && 0 <= b < rt@.len() && a != b implies rt@[a] != rt@[b] by {
                assert(s[mid + a] != s[mid + b]);
            }
        }
        assert(all_keyed(l@, min_keys@)) by {
            assert forall|k: int| 0 <= k < l@.len() implies #[trigger] l@[k] < min_keys@.len() by {
                assert(objects@.contains(s[k]));
            }
        }
        assert(all_keyed(rt@, min_keys@)) by {
            assert forall|k: int| 0 <= k < rt@.len() implies #[trigger] rt@[k] < min_keys@.len() by {
                assert(objects@.contains(s[mid + k]));
            }
        }
        let left = Self::build(l, min_keys);
        let right = Self::build(rt, min_keys);
        let r = BvhNode::Split { left: Box::new(left), right: Box::new(right) };
        let ghost ll = left.leaves();
        let ghost rl = right.leaves();
        assert(r.leaves() == ll + rl);
        assert(ordered_on(ll, rl, min_keys@, axis as int)) by {
            assert forall|i: int, j: int| 0 <= i < ll.len() && 0 <= j < rl.len() implies key_on(
                min_keys@,
                #[trigger] ll[i],
                axis as int,
            ) <= key_on(min_keys@, #[trigger] rl[j], axis as int) by {
                assert(l@.contains(ll[i]));
                assert(rt@.contains(rl[j]));
                let a = choose|a: int| 0 <= a < l@.len() && l@[a] == ll[i];
                let b = choose|b: int| 0 <= b < rt@.len() && rt@[b] == rl[j];
                assert(s[a] == ll[i]);
                assert(s[mid + b] == rl[j]);
            }
        }
        assert((ll + rl).no_duplicates()) by {
            assert forall|a: int, b: int|
                0 <= a < (ll + rl).len() && 0 <= b < (ll + rl).len() && a != b implies (ll + rl)[a]
                != (ll + rl)[b] by {
                if a < ll.len() && b >= ll.len() {
                    assert(l@.contains(ll[a]));
                    assert(rt@.contains(rl[b - ll.len()]));
                    let x = choose|x: int| 0 <= x < l@.len() && l@[x] == ll[a];
                    let y = choose|y: int| 0 <= y < rt@.len() && rt@[y] == rl[b - ll.len()];
                    assert(s[x] != s[mid + y]);
                } else if b < ll.len() && a >= ll.len() {
                    assert(l@.contains(ll[b]));
                    assert(rt@.contains(rl[a - ll.len()]));
                    let x = choose|x: int| 0 <= x < l@.len() && l@[x] == ll[b];
                    let y = choose|y: int| 0 <= y < rt@.len() && rt@[y] == rl[a - ll.len()];
                    assert(s[x] != s[mid + y]);
                }
            }
        }
        assert forall|k: int| 0 <= k < r.leaves().len() implies objects@.contains(#[trigger] r.leaves()[k]) by {
            if k < ll.len() {
                assert(l@.contains(ll[k]));
                let x = choose|x: int| 0 <= x < l@.len() && l@[x] == ll[k];
                assert(s[x] == ll[k]);
            } else {
                assert(rt@.contains(rl[k - ll.len()]));
                let y = choose|y: int| 0 <= y < rt@.len() && rt@[y] == rl[k - ll.len()];
                assert(s[mid + y] == rl[k - ll.len()]);
            }
        }
        r
    }
}

} // verus!
