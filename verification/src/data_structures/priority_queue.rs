use vstd::prelude::*;
use vstd::multiset::Multiset;
use vstd::seq_lib::group_to_multiset_ensures;

verus! {

broadcast use group_to_multiset_ensures, vstd::multiset::group_multiset_axioms, vstd::multiset::group_multiset_properties;

/// A total preorder on heap elements: the heap hands out its highest-ranked
/// element first. Implementations prove the order total and transitive, and
/// supply an executable comparison that agrees with it.
pub trait Ranked: Sized {
    /// Whether `self` ranks at least as high as `other`.
    spec fn rank_ge(self, other: Self) -> bool;

    /// Any two values compare, one way or the other.
    proof fn lemma_rank_total(a: Self, b: Self)
        ensures
            a.rank_ge(b) || b.rank_ge(a),
    ;

    /// The ranking is transitive.
    proof fn lemma_rank_trans(a: Self, b: Self, c: Self)
        requires
            a.rank_ge(b),
            b.rank_ge(c),
        ensures
            a.rank_ge(c),
    ;

    /// Executable comparison, agreeing with the ranking.
    fn outranks_or_ties(&self, other: &Self) -> (r: bool)
        ensures
            r == self.rank_ge(*other),
    ;
}

impl Ranked for u64 {
    open spec fn rank_ge(self, other: Self) -> bool {
        self >= other
    }

    proof fn lemma_rank_total(a: Self, b: Self) {
    }

    proof fn lemma_rank_trans(a: Self, b: Self, c: Self) {
    }

    fn outranks_or_ties(&self, other: &Self) -> (r: bool) {
        *self >= *other
    }
}

impl Ranked for i64 {
    open spec fn rank_ge(self, other: Self) -> bool {
        self >= other
    }

    proof fn lemma_rank_total(a: Self, b: Self) {
    }

    proof fn lemma_rank_trans(a: Self, b: Self, c: Self) {
    }

    fn outranks_or_ties(&self, other: &Self) -> (r: bool) {
        *self >= *other
    }
}

/// Lexicographic order on character sequences, by code point: the empty
/// sequence comes first, and otherwise the first differing character decides.
pub open spec fn chars_le(a: Seq<char>, b: Seq<char>) -> bool
    decreases a.len(),
{
    if a.len() == 0 {
        true
    } else if b.len() == 0 {
        false
    } else if (a[0] as u32) < (b[0] as u32) {
        true
    } else if (a[0] as u32) > (b[0] as u32) {
        false
    } else {
        chars_le(a.drop_first(), b.drop_first())
    }
}

/// Any two character sequences compare, one way or the other.
pub proof fn lemma_chars_le_total(a: Seq<char>, b: Seq<char>)
    ensures
        chars_le(a, b) || chars_le(b, a),
    decreases a.len(),
{
    if a.len() > 0 && b.len() > 0 && (a[0] as u32) == (b[0] as u32) {
        lemma_chars_le_total(a.drop_first(), b.drop_first());
    }
}

/// The order on character sequences is transitive.
pub proof fn lemma_chars_le_trans(a: Seq<char>, b: Seq<char>, c: Seq<char>)
    requires
        chars_le(a, b),
        chars_le(b, c),
    ensures
        chars_le(a, c),
    decreases a.len(),
{
    if a.len() > 0 && b.len() > 0 && c.len() > 0 && (a[0] as u32) == (b[0] as u32) && (
    b[0] as u32) == (c[0] as u32) {
        lemma_chars_le_trans(a.drop_first(), b.drop_first(), c.drop_first());
    }
}

/// Compares two strings lexicographically by character.
fn string_le(x: &String, y: &String) -> (r: bool)
    ensures
        r == chars_le(x@, y@),
{
    let xs = x.as_str();
    let ys = y.as_str();
    let xl = xs.unicode_len();
    let yl = ys.unicode_len();
    let mut k: usize = 0;
    proof {
        assert(x@.skip(0) =~= x@);
        assert(y@.skip(0) =~= y@);
    }
    while k < xl && k < yl && xs.get_char(k) as u32 == ys.get_char(k) as u32
        invariant
            xl == x@.len(),
            yl == y@.len(),
            xs@ == x@,
            ys@ == y@,
            k <= xl,
            k <= yl,
            chars_le(x@, y@) == chars_le(x@.skip(k as int), y@.skip(k as int)),
        decreases xl - k,
    {
        proof {
            assert(x@.skip(k as int).drop_first() =~= x@.skip(k + 1));
            assert(y@.skip(k as int).drop_first() =~= y@.skip(k + 1));
            assert(x@.skip(k as int)[0] == x@[k as int]);
            assert(y@.skip(k as int)[0] == y@[k as int]);
        }
        k = k + 1;
    }
    if k == xl {
        proof {
            assert(x@.skip(k as int).len() == 0);
        }
        true
    } else if k == yl {
        proof {
            assert(y@.skip(k as int).len() == 0);
            assert(x@.skip(k as int).len() > 0);
        }
        false
    } else {
        proof {
            assert(x@.skip(k as int)[0] == x@[k as int]);
            assert(y@.skip(k as int)[0] == y@[k as int]);
        }
        (xs.get_char(k) as u32) < (ys.get_char(k) as u32)
    }
}

impl Ranked for String {
    open spec fn rank_ge(self, other: Self) -> bool {
        chars_le(other@, self@)
    }

    proof fn lemma_rank_total(a: Self, b: Self) {
        lemma_chars_le_total(a@, b@);
    }

    proof fn lemma_rank_trans(a: Self, b: Self, c: Self) {
        lemma_chars_le_trans(c@, b@, a@);
    }

    fn outranks_or_ties(&self, other: &Self) -> (r: bool) {
        string_le(other, self)
    }
}

/// The binary-heap shape over the first `boundary` elements: every element up
/// to the boundary ranks no higher than its parent.
pub open spec fn heap_ordered_to<T: Ranked>(s: Seq<T>, boundary: int) -> bool {
    forall|j: int| 1 <= j < boundary ==> s[(j - 1) / 2].rank_ge(#[trigger] s[j])
}

/// The binary-heap shape over the whole sequence.
pub open spec fn heap_ordered<T: Ranked>(s: Seq<T>) -> bool {
    heap_ordered_to(s, s.len() as int)
}

/// An array-backed binary max-heap: `push` and `pop` keep the heap shape, and
/// `pop` always hands out an element that ranks at least as high as everything
/// else in the heap.
pub struct Heap<T: Ranked> {
    vector: Vec<T>,
}

impl<T: Ranked> View for Heap<T> {
    type V = Seq<T>;

    closed spec fn view(&self) -> Seq<T> {
        self.vector@
    }
}

/// Exchanges the elements at positions `i` and `j`.
fn swap_elements<T>(v: &mut Vec<T>, i: usize, j: usize)
    requires
        i < j < old(v)@.len(),
    ensures
        final (v)@ == old(v)@.update(i as int, old(v)@[j as int]).update(
            j as int,
            old(v)@[i as int],
        ),
{
    let xj = v.remove(j);
    let xi = v.remove(i);
    v.insert(i, xj);
    v.insert(j, xi);
    proof {
        assert(v@ =~= old(v)@.update(i as int, old(v)@[j as int]).update(
            j as int,
            old(v)@[i as int],
        ));
    }
}

/// Exchanging two elements does not change what the sequence holds.
pub proof fn lemma_swap_preserves_multiset<T>(s: Seq<T>, i: int, j: int)
    requires
        0 <= i < s.len(),
        0 <= j < s.len(),
    ensures
        s.update(i, s[j]).update(j, s[i]).to_multiset() == s.to_multiset(),
{
    if i == j {
        assert(s.update(i, s[j]).update(j, s[i]) =~= s);
    } else {
        let s1 = s.update(i, s[j]);
        assert(s1.to_multiset() == s.to_multiset().remove(s[i]).insert(s[j]));
        assert(s1[j] == s[j]);
        assert(s1.update(j, s[i]).to_multiset() == s1.to_multiset().remove(s[j]).insert(s[i]));
        assert(s.to_multiset().contains(s[i]));
        assert(s.update(i, s[j]).update(j, s[i]).to_multiset() =~= s.to_multiset());
    }
}

/// What a concatenation holds is the sum of what its halves hold.
pub proof fn lemma_concat_multiset<T>(a: Seq<T>, b: Seq<T>)
    ensures
        (a + b).to_multiset() == a.to_multiset().add(b.to_multiset()),
    decreases b.len(),
{
    if b.len() == 0 {
        assert(a + b =~= a);
        assert(b.to_multiset() =~= Multiset::<T>::empty());
        assert((a + b).to_multiset() =~= a.to_multiset().add(b.to_multiset()));
    } else {
        lemma_concat_multiset(a, b.drop_last());
        assert(a + b =~= (a + b.drop_last()).push(b.last()));
        assert(b =~= b.drop_last().push(b.last()));
        assert((a + b).to_multiset() =~= a.to_multiset().add(b.to_multiset()));
    }
}

/// In a heap-shaped prefix the root ranks at least as high as the element at
/// any position below the boundary.
proof fn lemma_root_outranks<T: Ranked>(s: Seq<T>, boundary: int, k: int)
    requires
        heap_ordered_to(s, boundary),
        boundary <= s.len(),
        0 <= k < boundary,
    ensures
        s[0].rank_ge(s[k]),
    decreases k,
{
    if k == 0 {
        T::lemma_rank_total(s[0], s[0]);
    } else {
        let p = (k - 1) / 2;
        lemma_root_outranks(s, boundary, p);
        T::lemma_rank_trans(s[0], s[p], s[k]);
    }
}

impl<T: Ranked> Heap<T> {
    /// The heap shape holds of the stored elements.
    pub open spec fn well_formed(&self) -> bool {
        heap_ordered(self@)
    }

    /// Moves the element at `index` up, one parent at a time, until it no
    /// longer outranks its parent. On entry every parent link may be assumed
    /// except the one into `index`; the element's own children must already be
    /// dominated by its parent.
    fn bubble_up(&mut self, index: usize)
        requires
            index < old(self)@.len(),
            forall|j: int|
                1 <= j < old(self)@.len() && j != index ==> old(self)@[(j - 1) / 2].rank_ge(
                    #[trigger] old(self)@[j],
                ),
            index > 0 ==> forall|c: int|
                1 <= c < old(self)@.len() && (c - 1) / 2 == index ==> old(self)@[(index - 1)
                    / 2].rank_ge(#[trigger] old(self)@[c]),
        ensures
            heap_ordered(final (self)@),
            final (self)@.to_multiset() == old(self)@.to_multiset(),
            final (self)@.len() == old(self)@.len(),
        decreases index,
    {
        if index == 0 {
            return ;
        }
        let parent = (index - 1) / 2;
        let ghost s = self@;
        if !self.vector[parent].outranks_or_ties(&self.vector[index]) {
            proof {
                T::lemma_rank_total(s[parent as int], s[index as int]);
            }
            swap_elements(&mut self.vector, parent, index);
            let ghost s2 = self@;
            proof {
                lemma_swap_preserves_multiset(s, parent as int, index as int);
                let gp = (parent - 1) / 2;
                assert forall|j: int|
                    1 <= j < s2.len() && j != parent implies s2[(j - 1) / 2].rank_ge(
                    #[trigger] s2[j],
                ) by {
                    if j == index {
                        // the swapped pair itself
                    } else if (j - 1) / 2 == index {
                        // a child of the vacated position: dominated by the
                        // grandparent, which now holds the moved element
                        assert(s2[index as int] == s[parent as int]);
                        assert(s[parent as int].rank_ge(s[j]));
                    } else if (j - 1) / 2 == parent {
                        // the sibling of the moved element
                        T::lemma_rank_trans(s[index as int], s[parent as int], s[j]);
                    } else {
                        assert(s2[j] == s[j]);
                        assert(s2[(j - 1) / 2] == s[(j - 1) / 2]);
                    }
                }
                if parent > 0 {
                    assert forall|c: int|
                        1 <= c < s2.len() && (c - 1) / 2 == parent implies s2[(parent - 1)
                        / 2].rank_ge(#[trigger] s2[c]) by {
                        assert(s2[gp as int] == s[gp as int]);
                        if c == index {
                            assert(s2[c] == s[parent as int]);
                            assert(s[gp as int].rank_ge(s[parent as int]));
                        } else {
                            assert(s2[c] == s[c]);
                            assert(s[gp as int].rank_ge(s[parent as int]));
                            assert(s[parent as int].rank_ge(s[c]));
                            T::lemma_rank_trans(s[gp as int], s[parent as int], s[c]);
                        }
                    }
                }
            }
            self.bubble_up(parent);
        }
    }

    /// Moves the element at `index` down, swapping with the higher-ranked of
    /// its two children, until it dominates them both. Only positions below
    /// `boundary` take part; everything at or beyond it is untouched.
    #[verifier::rlimit(100)]
    fn bubble_down(&mut self, index: usize, boundary: usize)
        requires
            boundary <= old(self)@.len(),
            forall|j: int|
                1 <= j < boundary && (j - 1) / 2 != index ==> old(self)@[(j - 1) / 2].rank_ge(
                    #[trigger] old(self)@[j],
                ),
            index > 0 ==> forall|c: int|
                1 <= c < boundary && (c - 1) / 2 == index ==> old(self)@[(index - 1) / 2].rank_ge(
                    #[trigger] old(self)@[c],
                ),
        ensures
            heap_ordered_to(final (self)@, boundary as int),
            final (self)@.len() == old(self)@.len(),
            final (self)@.subrange(boundary as int, old(self)@.len() as int) == old(
                self,
            )@.subrange(boundary as int, old(self)@.len() as int),
            final (self)@.subrange(0, boundary as int).to_multiset() == old(self)@.subrange(
                0,
                boundary as int,
            ).to_multiset(),
        decreases boundary - index,
    {
        let ghost s = self@;
        if boundary / 2 <= index {
            proof {
                assert forall|j: int|
                    1 <= j < boundary implies s[(j - 1) / 2].rank_ge(#[trigger] s[j]) by {
                    assert((j - 1) / 2 != index);
                }
            }
            return ;
        }
        let left = 2 * index + 1;
        let right = 2 * index + 2;
        let mut candidate = index;
        if !self.vector[candidate].outranks_or_ties(&self.vector[left]) {
            proof {
                T::lemma_rank_total(s[index as int], s[left as int]);
                T::lemma_rank_total(s[left as int], s[left as int]);
            }
            candidate = left;
        }
        proof {
            T::lemma_rank_total(s[index as int], s[index as int]);
            assert(s[candidate as int].rank_ge(s[index as int]));
            assert(s[candidate as int].rank_ge(s[left as int]));
        }
        let ghost c1 = candidate as int;
        if right < boundary && !self.vector[candidate].outranks_or_ties(&self.vector[right]) {
            proof {
                T::lemma_rank_total(s[c1], s[right as int]);
                T::lemma_rank_total(s[right as int], s[right as int]);
                T::lemma_rank_trans(s[right as int], s[c1], s[index as int]);
                T::lemma_rank_trans(s[right as int], s[c1], s[left as int]);
            }
            candidate = right;
        }
        proof {
            assert(s[candidate as int].rank_ge(s[index as int]));
            assert(s[candidate as int].rank_ge(s[left as int]));
            if right < boundary {
                assert(s[candidate as int].rank_ge(s[right as int]));
            }
        }
        if candidate != index {
            swap_elements(&mut self.vector, index, candidate);
            let ghost s2 = self@;
            proof {
                lemma_swap_preserves_multiset(s, index as int, candidate as int);
                assert(s2.subrange(boundary as int, s.len() as int) =~= s.subrange(
                    boundary as int,
                    s.len() as int,
                ));
                assert(s2.subrange(0, boundary as int) =~= s.subrange(0, boundary as int).update(
                    index as int,
                    s[candidate as int],
                ).update(candidate as int, s[index as int]));
                lemma_swap_preserves_multiset(
                    s.subrange(0, boundary as int),
                    index as int,
                    candidate as int,
                );
                assert forall|j: int|
                    1 <= j < boundary && (j - 1) / 2 != candidate implies s2[(j - 1) / 2].rank_ge(
                    #[trigger] s2[j],
                ) by {
                    if j == candidate {
                        // the swapped pair itself
                        assert(s2[index as int] == s[candidate as int]);
                        assert(s2[j] == s[index as int]);
                    } else if (j - 1) / 2 == index {
                        // the other child of the vacated position
                        assert(s2[index as int] == s[candidate as int]);
                        assert(s[candidate as int].rank_ge(s[j]));
                    } else if j == index {
                        // the vacated position, seen from its own parent
                        assert(s[(index - 1) / 2].rank_ge(s[candidate as int]));
                        assert(s2[j] == s[candidate as int]);
                    } else {
                        assert(s2[j] == s[j]);
                        assert(s2[(j - 1) / 2] == s[(j - 1) / 2]);
                    }
                }
                assert forall|c: int|
                    1 <= c < boundary && (c - 1) / 2 == candidate implies s2[(candidate - 1)
                    / 2].rank_ge(#[trigger] s2[c]) by {
                    assert((candidate - 1) / 2 == index);
                    assert(s2[index as int] == s[candidate as int]);
                    assert(s2[c] == s[c]);
                    assert(s[candidate as int].rank_ge(s[c]));
                }
            }
            self.bubble_down(candidate, boundary);
            proof {
                assert(self@.subrange(boundary as int, s.len() as int) =~= s.subrange(
                    boundary as int,
                    s.len() as int,
                ));
            }
        } else {
            proof {
                assert forall|j: int|
                    1 <= j < boundary implies s[(j - 1) / 2].rank_ge(#[trigger] s[j]) by {
                    if (j - 1) / 2 == index {
                        if j == right {
                            assert(s[index as int].rank_ge(s[right as int]));
                        }
                    }
                }
            }
        }
    }

    /// An empty heap.
    pub fn new() -> (r: Self)
        ensures
            r@ == Seq::<T>::empty(),
            r.well_formed(),
    {
        Heap { vector: Vec::new() }
    }

    /// An empty heap with room reserved for `capacity` elements.
    pub fn with_capacity(capacity: usize) -> (r: Self)
        ensures
            r@ == Seq::<T>::empty(),
            r.well_formed(),
    {
        Heap { vector: Vec::with_capacity(capacity) }
    }

    /// The number of stored elements.
    pub fn size(&self) -> (r: usize)
        ensures
            r == self@.len(),
    {
        self.vector.len()
    }

    /// Whether the heap holds nothing.
    pub fn is_empty(&self) -> (r: bool)
        ensures
            r == (self@.len() == 0),
    {
        self.size() == 0
    }

    /// Stores one more element, keeping the heap shape.
    pub fn push(&mut self, data: T)
        requires
            old(self).well_formed(),
        ensures
            final (self).well_formed(),
            final (self)@.len() == old(self)@.len() + 1,
            final (self)@.to_multiset() == old(self)@.to_multiset().insert(data),
    {
        self.vector.push(data);
        let index = self.vector.len() - 1;
        proof {
            let s = self@;
            assert forall|c: int|
                1 <= c < s.len() && (c - 1) / 2 == index && index > 0 implies s[(index - 1)
                / 2].rank_ge(#[trigger] s[c]) by {
                assert(c >= 2 * index + 1);
            }
            assert forall|j: int|
                1 <= j < s.len() && j != index implies s[(j - 1) / 2].rank_ge(
                #[trigger] s[j],
            ) by {
                assert(s[j] == old(self)@[j]);
                assert(s[(j - 1) / 2] == old(self)@[(j - 1) / 2]);
            }
        }
        self.bubble_up(index);
    }

    /// Removes and returns the highest-ranked element; an empty heap yields
    /// nothing and is left unchanged.
    pub fn pop(&mut self) -> (r: Option<T>)
        requires
            old(self).well_formed(),
        ensures
            final (self).well_formed(),
            old(self)@.len() == 0 ==> r is None && final (self)@ == old(self)@,
            old(self)@.len() > 0 ==> {
                &&& r is Some
                &&& final (self)@.len() == old(self)@.len() - 1
                &&& old(self)@.to_multiset().contains(r.unwrap())
                &&& final (self)@.to_multiset() == old(self)@.to_multiset().remove(r.unwrap())
                &&& forall|k: int|
                    0 <= k < old(self)@.len() ==> r.unwrap().rank_ge(#[trigger] old(self)@[k])
            },
    {
        if self.is_empty() {
            return None;
        }
        let ghost s = self@;
        proof {
            assert forall|k: int| 0 <= k < s.len() implies s[0].rank_ge(#[trigger] s[k]) by {
                lemma_root_outranks(s, s.len() as int, k);
            }
        }
        let top = self.vector.swap_remove(0);
        let ghost s1 = self@;
        let boundary = self.vector.len();
        proof {
            assert(s1 =~= s.update(0, s.last()).drop_last());
            if s.len() == 1 {
                assert(s1 =~= Seq::<T>::empty());
                assert(s =~= Seq::<T>::empty().push(s[0]));
                assert(Seq::<T>::empty().to_multiset() =~= Multiset::<T>::empty());
                assert(s.to_multiset() =~= Multiset::<T>::empty().insert(s[0]));
                assert(s1.to_multiset() =~= s.to_multiset().remove(s[0]));
            } else {
                let su = s.update(0, s.last());
                assert(su.to_multiset() =~= s.to_multiset().insert(s.last()).remove(s[0]));
                assert(s1 =~= su.remove(su.len() - 1));
                assert(su[su.len() - 1] == s.last());
                assert(su.remove(su.len() - 1).to_multiset() == su.to_multiset().remove(
                    su[su.len() - 1],
                ));
                assert(s1.to_multiset() =~= s.to_multiset().remove(s[0]));
            }
            assert forall|j: int|
                1 <= j < boundary && (j - 1) / 2 != 0 implies s1[(j - 1) / 2].rank_ge(
                #[trigger] s1[j],
            ) by {
                assert(s1[j] == s[j]);
                assert(s1[(j - 1) / 2] == s[(j - 1) / 2]);
            }
        }
        self.bubble_down(0, boundary);
        proof {
            assert(self@ =~= self@.subrange(0, boundary as int));
            assert(s1 =~= s1.subrange(0, boundary as int));
        }
        Some(top)
    }

    /// Consumes the heap and returns every element in ascending rank order.
    #[verifier::rlimit(100)]
    pub fn into_sorted_vec(self) -> (r: Vec<T>)
        requires
            self.well_formed(),
        ensures
            r@.to_multiset() == self@.to_multiset(),
            r@.len() == self@.len(),
            forall|i: int, j: int| 0 <= i < j < r@.len() ==> #[trigger] r@[j].rank_ge(#[trigger] r@[i]),
    {
        let mut heap = self;
        let n = heap.vector.len();
        let mut b: usize = n;
        while b > 1
            invariant
                b <= n,
                n == heap@.len(),
                heap@.to_multiset() == self@.to_multiset(),
                heap_ordered_to(heap@, b as int),
                forall|i: int, j: int|
                    0 <= i < j < n && b <= j ==> #[trigger] heap@[j].rank_ge(#[trigger] heap@[i]),
            decreases b,
        {
            let ghost s = heap@;
            let index = b - 1;
            proof {
                assert forall|k: int| 0 <= k < b implies s[0].rank_ge(#[trigger] s[k]) by {
                    lemma_root_outranks(s, b as int, k);
                }
            }
            swap_elements(&mut heap.vector, 0, index);
            let ghost s2 = heap@;
            proof {
                lemma_swap_preserves_multiset(s, 0, index as int);
                assert forall|j: int|
                    1 <= j < index && (j - 1) / 2 != 0 implies s2[(j - 1) / 2].rank_ge(
                    #[trigger] s2[j],
                ) by {
                    assert(s2[j] == s[j]);
                    assert(s2[(j - 1) / 2] == s[(j - 1) / 2]);
                }
            }
            heap.bubble_down(0, index);
            let ghost s3 = heap@;
            proof {
                let suf3 = s3.subrange(index as int, n as int);
                let suf2 = s2.subrange(index as int, n as int);
                assert(suf3 == suf2);
                assert forall|k: int| index <= k < n implies s3[k] == s2[k] by {
                    assert(suf3[k - index] == suf2[k - index]);
                }
                lemma_concat_multiset(s3.subrange(0, index as int), suf3);
                lemma_concat_multiset(s2.subrange(0, index as int), suf2);
                assert(s3 =~= s3.subrange(0, index as int) + suf3);
                assert(s2 =~= s2.subrange(0, index as int) + suf2);
                assert(s3.to_multiset() =~= s2.to_multiset());
                assert(s2[index as int] == s[0]);
                assert forall|i: int, j: int|
                    0 <= i < j < n && index <= j implies #[trigger] s3[j].rank_ge(
                    #[trigger] s3[i],
                ) by {
                    if j > index {
                        assert(s3[j] == s2[j]);
                        assert(s2[j] == s[j]);
                        if i >= index {
                            assert(s3[i] == s2[i]);
                            assert(s2[i] == if i == index {
                                s[0]
                            } else {
                                s[i]
                            });
                            if i == index {
                                assert(s[j].rank_ge(s[0]));
                            } else {
                                assert(s[j].rank_ge(s[i]));
                            }
                        } else {
                            // i lies in the re-heapified prefix: its value is
                            // one of the old prefix values
                            let pre3 = s3.subrange(0, index as int);
                            let pre2 = s2.subrange(0, index as int);
                            assert(pre3.to_multiset() == pre2.to_multiset());
                            assert(pre3[i] == s3[i]);
                            assert(pre3.to_multiset().contains(pre3[i]));
                            assert(pre2.to_multiset().contains(pre3[i]));
                            let w = choose|w: int| 0 <= w < pre2.len() && pre2[w] == pre3[i];
                            assert(s2[w] == pre3[i]);
                            if w == 0 {
                                assert(s2[0] == s[index as int]);
                                assert(s[j].rank_ge(s[index as int]));
                            } else {
                                assert(s2[w] == s[w]);
                                assert(s[j].rank_ge(s[w]));
                            }
                        }
                    } else {
                        // j == index: it now holds the old prefix root
                        assert(s3[j] == s[0]);
                        let pre3 = s3.subrange(0, index as int);
                        let pre2 = s2.subrange(0, index as int);
                        assert(pre3.to_multiset() == pre2.to_multiset());
                        assert(pre3[i] == s3[i]);
                        assert(pre3.to_multiset().contains(pre3[i]));
                        assert(pre2.to_multiset().contains(pre3[i]));
                        let w = choose|w: int| 0 <= w < pre2.len() && pre2[w] == pre3[i];
                        assert(s2[w] == pre3[i]);
                        if w == 0 {
                            assert(s2[0] == s[index as int]);
                            assert(s[0].rank_ge(s[index as int]));
                        } else {
                            assert(s2[w] == s[w]);
                            assert(s[0].rank_ge(s[w]));
                        }
                    }
                }
            }
            b = index;
        }
        heap.vector
    }
}

} // verus!
