use vstd::prelude::*;

verus! {

/// Small wrapper around `Vec<T>` that is meant to be used for cases where `Vec<T>`
/// - has a fixed upper bound on its size
/// - often pushes multiple elements and then clears everything (and repeats...)
#[derive(Debug, Clone)]
pub struct ReusableVec<T: Default + Clone> {
    vec: Vec<T>,
    len: usize,
}

impl<T: Default + Clone> View for ReusableVec<T> {
    type V = Seq<T>;

    /// The elements that were pushed since the last `clear`, oldest first.
    closed spec fn view(&self) -> Seq<T> {
        self.vec@.take(self.len as int)
    }
}

impl<T: Default + Clone> ReusableVec<T> {
    /// The fixed upper bound on the number of elements.
    pub closed spec fn capacity_spec(&self) -> nat {
        self.vec@.len()
    }

    /// The representation invariant: the length is within the capacity.
    pub closed spec fn wf(&self) -> bool {
        self.len <= self.vec@.len()
    }

    /// Creates an instance and fills up the whole vector
    pub fn with_capacity(cap: usize) -> (r: Self)
        ensures
            r.wf(),
            r@.len() == 0,
            r.capacity_spec() == cap,
    {
        let mut vec: Vec<T> = Vec::new();
        let mut i: usize = 0;
        while i < cap
            invariant
                i <= cap,
                vec@.len() == i,
            decreases cap - i,
        {
            vec.push(T::default());
            i += 1;
        }
        Self { vec, len: 0usize }
    }

    /// Pushes an element onto the vector: replaces the value at `self.len` with the current
    /// one. There must be room for it.
    pub fn push(&mut self, item: T)
        requires
            old(self).wf(),
            old(self)@.len() < old(self).capacity_spec(),
        ensures
            final(self).wf(),
            final(self)@ == old(self)@.push(item),
            final(self).capacity_spec() == old(self).capacity_spec(),
    {
        let i = self.len;
        let cap = self.vec.len();
        self.vec[i] = item;
        assert(self.vec@ == old(self).vec@.update(i as int, item));
        self.len = i + 1;
        assert(self@ =~= old(self)@.push(item));
    }

    /// *Clears* the vector by setting `self.len` to `0`
    pub fn clear(&mut self)
        ensures
            final(self).wf(),
            final(self)@.len() == 0,
            final(self).capacity_spec() == old(self).capacity_spec(),
    {
        self.len = 0;
    }

    /// Returns the length of the vector
    pub fn len(&self) -> (l: usize)
        requires
            self.wf(),
        ensures
            l == self@.len(),
    {
        self.len
    }

    /// Returns *true* if more than a quarter of the capacity is in use: walking the whole
    /// capacity is then no more expensive, asymptotically, than walking the elements.
    pub fn is_asymptotically_full(&self) -> (b: bool)
        requires
            self.wf(),
        ensures
            b == (self@.len() > self.capacity_spec() / 4),
    {
        self.len > self.vec.len() / 4
    }

    /// Returns all elements in `0..self.len`, oldest first
    pub fn iter(&self) -> (s: &[T])
        requires
            self.wf(),
        ensures
            s@ == self@,
    {
        let s = vstd::slice::slice_subrange(self.vec.as_slice(), 0, self.len);
        assert(s@ =~= self@);
        s
    }
}

/// A sequence of distinct nodes below `n` has at most `n` elements.
pub proof fn lemma_distinct_below(s: Seq<usize>, n: nat)
    requires
        s.no_duplicates(),
        forall|i: int| 0 <= i < s.len() ==> #[trigger] s[i] < n,
    ensures
        s.len() <= n,
    decreases n,
{
    if n == 0 {
        if s.len() > 0 {
            assert(s[0] < n);
        }
    } else {
        let top = (n - 1) as usize;
        if s.contains(top) {
            let i = choose|i: int| 0 <= i < s.len() && s[i] == top;
            let t = s.remove(i);
            assert forall|j: int| 0 <= j < t.len() implies #[trigger] t[j] < (n - 1) as nat by {
                if j < i {
                    assert(t[j] == s[j]);
                } else {
                    assert(t[j] == s[j + 1]);
                }
            }
            assert(t.no_duplicates()) by {
                assert forall|a: int, b: int| 0 <= a < t.len() && 0 <= b < t.len() && a != b implies t[a]
                    != t[b] by {
                    let a2 = if a < i { a } else { a + 1 };
                    let b2 = if b < i { b } else { b + 1 };
                    assert(t[a] == s[a2] && t[b] == s[b2]);
                }
            }
            lemma_distinct_below(t, (n - 1) as nat);
        } else {
            assert forall|j: int| 0 <= j < s.len() implies #[trigger] s[j] < (n - 1) as nat by {
                assert(s.contains(s[j]));
            }
            lemma_distinct_below(s, (n - 1) as nat);
        }
    }
}

} // verus!
