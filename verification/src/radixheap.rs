use crate::weight::{
    lemma_higher_bucket_stays, lemma_lower_bucket_smaller, lemma_radix_distance_bounds,
    lemma_same_bucket_closer, radix_distance, radix_distance_spec, Weight,
};
use vstd::multiset::Multiset;
use vstd::prelude::*;

verus! {

/// A bucket is a vector of key-value pairs.
pub type Bucket<V> = Vec<(Weight, V)>;

/// One bucket for every possible radix distance between two keys.
pub const NUM_BUCKETS: usize = 65;

/// A monotone min-heap keyed by weight. Keys may only be pushed when they are at least the
/// current floor `top`, and the floor only moves up while elements are popped.
pub struct RadixHeap<V> {
    /// Current size of the heap
    len: usize,
    /// Current floor: all elements pushed must be greater or equal to `top`
    top: Weight,
    /// Bucket `i` holds the keys at radix distance `i` from `top`
    buckets: [Bucket<V>; 65],
}

/// A bucket without pairs.
fn empty_bucket<V>() -> (r: Bucket<V>)
    ensures
        r@.len() == 0,
{
    Vec::new()
}

/// `array_init::array_init`, which builds an array by calling the initializer once for every
/// index, with `empty_bucket` as the initializer: the array holds 65 empty buckets.
#[verifier::external_body]
fn empty_buckets<V>() -> (r: [Bucket<V>; 65])
    ensures
        forall|i: int| 0 <= i < 65 ==> (#[trigger] r@[i])@.len() == 0,
{
    array_init::array_init(|_| empty_bucket())
}

/// All pairs held by the first `k` buckets.
pub open spec fn buckets_content<V>(buckets: Seq<Bucket<V>>, k: int) -> Multiset<(Weight, V)>
    decreases k,
{
    if k <= 0 {
        Multiset::empty()
    } else {
        buckets_content(buckets, k - 1).add(buckets[k - 1]@.to_multiset())
    }
}

proof fn lemma_content_insert<V>(b1: Seq<Bucket<V>>, b2: Seq<Bucket<V>>, k: int, i: int, x: (Weight, V))
    requires
        0 <= i,
        0 <= k,
        forall|j: int| 0 <= j < k && j != i ==> (#[trigger] b2[j])@ == b1[j]@,
        b2[i]@ == b1[i]@.push(x),
    ensures
        buckets_content(b2, k) == if i < k {
            buckets_content(b1, k).insert(x)
        } else {
            buckets_content(b1, k)
        },
    decreases k,
{
    broadcast use vstd::seq_lib::group_to_multiset_ensures;

    if k > 0 {
        lemma_content_insert(b1, b2, k - 1, i, x);
        if i == k - 1 {
            assert(b2[i]@.to_multiset() =~= b1[i]@.to_multiset().insert(x));
        }
        assert(buckets_content(b2, k) =~= if i < k {
            buckets_content(b1, k).insert(x)
        } else {
            buckets_content(b1, k)
        });
    }
}

proof fn lemma_content_same<V>(b1: Seq<Bucket<V>>, b2: Seq<Bucket<V>>, k: int)
    requires
        forall|j: int| 0 <= j < k ==> (#[trigger] b2[j])@ == b1[j]@,
    ensures
        buckets_content(b2, k) == buckets_content(b1, k),
    decreases k,
{
    if k > 0 {
        lemma_content_same(b1, b2, k - 1);
    }
}

proof fn lemma_content_empty<V>(b: Seq<Bucket<V>>, k: int)
    requires
        forall|j: int| 0 <= j < k ==> (#[trigger] b[j])@.len() == 0,
    ensures
        buckets_content(b, k) == Multiset::<(Weight, V)>::empty(),
    decreases k,
{
    broadcast use vstd::seq_lib::group_to_multiset_ensures;

    if k > 0 {
        lemma_content_empty(b, k - 1);
        assert(b[k - 1]@.to_multiset().len() == 0);
        assert(buckets_content(b, k) =~= Multiset::<(Weight, V)>::empty());
    }
}

proof fn lemma_content_take_out<V>(b1: Seq<Bucket<V>>, b2: Seq<Bucket<V>>, k: int, i: int)
    requires
        0 <= i,
        0 <= k,
        forall|j: int| 0 <= j < k && j != i ==> (#[trigger] b2[j])@ == b1[j]@,
        b2[i]@.len() == 0,
    ensures
        buckets_content(b1, k) == if i < k {
            buckets_content(b2, k).add(b1[i]@.to_multiset())
        } else {
            buckets_content(b2, k)
        },
    decreases k,
{
    broadcast use vstd::seq_lib::group_to_multiset_ensures;

    if k > 0 {
        lemma_content_take_out(b1, b2, k - 1, i);
        if i == k - 1 {
            assert(b2[i]@.to_multiset().len() == 0);
            assert(b2[i]@.to_multiset() =~= Multiset::<(Weight, V)>::empty());
        }
        assert(buckets_content(b1, k) =~= if i < k {
            buckets_content(b2, k).add(b1[i]@.to_multiset())
        } else {
            buckets_content(b2, k)
        });
    }
}

proof fn lemma_content_member<V>(b: Seq<Bucket<V>>, k: int, e: (Weight, V)) -> (w: (int, int))
    requires
        buckets_content(b, k).count(e) > 0,
    ensures
        0 <= w.0 < k,
        0 <= w.1 < b[w.0]@.len(),
        b[w.0]@[w.1] == e,
    decreases k,
{
    broadcast use vstd::seq_lib::group_to_multiset_ensures;

    if k <= 0 {
        (0, 0)
    } else if b[k - 1]@.to_multiset().count(e) > 0 {
        assert(b[k - 1]@.contains(e));
        let s = b[k - 1]@;
        let j = choose|j: int| 0 <= j < s.len() && #[trigger] s[j] == e;
        (k - 1, j)
    } else {
        lemma_content_member(b, k - 1, e)
    }
}

/// One pop: `e` is a pair of the heap `before` with a minimal key, and `after` is the heap
/// without it.
pub open spec fn pop_step<V>(before: Multiset<(Weight, V)>, e: (Weight, V), after: Multiset<(Weight, V)>) -> bool {
    &&& before.count(e) > 0
    &&& after == before.remove(e)
    &&& forall|o: (Weight, V)| before.count(o) > 0 ==> e.0 <= o.0
}

/// `views` are the states of a heap that was popped until it was empty, `popped` the pairs
/// that came out, in their order.
pub open spec fn drained<V>(views: Seq<Multiset<(Weight, V)>>, popped: Seq<(Weight, V)>) -> bool {
    &&& views.len() == popped.len() + 1
    &&& views.last().len() == 0
    &&& forall|i: int| 0 <= i < popped.len() ==> #[trigger] pop_step(views[i], popped[i], views[i + 1])
}

/// Pushing a multiset of keys and popping them all returns the same multiset, in
/// non-decreasing order of the keys.
pub proof fn lemma_drained_in_order<V>(views: Seq<Multiset<(Weight, V)>>, popped: Seq<(Weight, V)>)
    requires
        drained(views, popped),
    ensures
        popped.to_multiset() =~= views[0],
        forall|i: int, j: int| 0 <= i <= j < popped.len() ==> (#[trigger] popped[i]).0 <= (#[trigger] popped[j]).0,
    decreases popped.len(),
{
    broadcast use vstd::seq_lib::group_to_multiset_ensures;

    if popped.len() == 0 {
        assert(views[0] == views.last());
        assert(views[0] =~= Multiset::<(Weight, V)>::empty());
        assert(popped.to_multiset().len() == 0);
        assert(popped.to_multiset() =~= Multiset::<(Weight, V)>::empty());
    } else {
        let rest_views = views.drop_first();
        let rest = popped.drop_first();
        assert forall|i: int| 0 <= i < rest.len() implies #[trigger] pop_step(
            rest_views[i],
            rest[i],
            rest_views[i + 1],
        ) by {
            let k = i + 1;
            assert(pop_step(views[k], popped[k], views[k + 1]));
        }
        assert(rest_views.last() == views.last());
        lemma_drained_in_order(rest_views, rest);
        assert(pop_step(views[0], popped[0], views[1]));
        assert(rest.to_multiset() =~= views[1]);
        assert(popped =~= seq![popped[0]] + rest);
        vstd::seq_lib::lemma_multiset_commutative(seq![popped[0]], rest);
        assert(seq![popped[0]].to_multiset() =~= Multiset::<(Weight, V)>::empty().insert(popped[0])) by {
            assert(seq![popped[0]] =~= Seq::<(Weight, V)>::empty().push(popped[0]));
        }
        assert(views[1].insert(popped[0]) =~= views[0]);
        assert forall|i: int, j: int| 0 <= i <= j < popped.len() implies (#[trigger] popped[i]).0 <= (
        #[trigger] popped[j]).0 by {
            if i == 0 {
                if j > 0 {
                    assert(rest[j - 1] == popped[j]);
                    assert(rest.contains(rest[j - 1]));
                    assert(rest.to_multiset().count(popped[j]) > 0);
                    assert(views[0].count(popped[j]) > 0);
                }
            } else {
                assert(rest[i - 1] == popped[i] && rest[j - 1] == popped[j]);
            }
        }
    }
}

impl<V> View for RadixHeap<V> {
    type V = Multiset<(Weight, V)>;

    /// The key-value pairs on the heap.
    closed spec fn view(&self) -> Multiset<(Weight, V)> {
        buckets_content(self.buckets@, 65)
    }
}

impl<V: Copy> RadixHeap<V> {
    /// The current floor of the heap.
    pub closed spec fn top_spec(&self) -> Weight {
        self.top
    }

    /// The number of pairs on the heap.
    pub closed spec fn len_spec(&self) -> nat {
        self.len as nat
    }

    spec fn bucket_rule(&self, i: int) -> bool {
        forall|j: int|
            0 <= j < self.buckets@[i]@.len() ==> {
                &&& (#[trigger] self.buckets@[i]@[j]).0 >= self.top
                &&& radix_distance_spec(self.buckets@[i]@[j].0, self.top) == i
            }
    }

    /// The heap's invariant: the floor is not negative, every key is at least the floor and
    /// lies in the bucket of its radix distance to the floor, and `len` counts the pairs.
    pub closed spec fn wf(&self) -> bool {
        &&& self.top >= 0
        &&& self.len == self@.len()
        &&& forall|i: int| 0 <= i < 65 ==> #[trigger] self.bucket_rule(i)
    }

    /// No key on a well-formed heap is below the floor, and the length is that of the view.
    pub proof fn lemma_floor(&self)
        requires
            self.wf(),
        ensures
            self.top_spec() >= 0,
            self.len_spec() == self@.len(),
            forall|e: (Weight, V)| self@.count(e) > 0 ==> e.0 >= self.top_spec(),
    {
        assert forall|e: (Weight, V)| self@.count(e) > 0 implies e.0 >= self.top by {
            let w = lemma_content_member(self.buckets@, 65, e);
            assert(self.bucket_rule(w.0));
        }
    }

    /// Creates a new heap: empty, with floor `0`.
    pub fn new() -> (r: Self)
        ensures
            r.wf(),
            r@ == Multiset::<(Weight, V)>::empty(),
            r.top_spec() == 0,
    {
        let r = Self { len: 0, top: 0, buckets: empty_buckets() };
        proof {
            lemma_content_empty(r.buckets@, 65);
            assert forall|i: int| 0 <= i < 65 implies #[trigger] r.bucket_rule(i) by {}
        }
        r
    }

    /// Resets the heap: empties every bucket and moves the floor back to `0`.
    pub fn clear(&mut self)
        ensures
            final(self).wf(),
            final(self)@ == Multiset::<(Weight, V)>::empty(),
            final(self).top_spec() == 0,
    {
        self.len = 0;
        self.top = 0;
        let mut i: usize = 0;
        while i < 65
            invariant
                i <= 65,
                self.len == 0,
                self.top == 0,
                forall|j: int| 0 <= j < i ==> (#[trigger] self.buckets@[j])@.len() == 0,
            decreases 65 - i,
        {
            self.buckets[i].clear();
            i += 1;
        }
        proof {
            lemma_content_empty(self.buckets@, 65);
            assert forall|i: int| 0 <= i < 65 implies #[trigger] self.bucket_rule(i) by {}
        }
    }

    /// Pushes an element to the heap. The key must not lie below the floor.
    pub fn push(&mut self, key: Weight, value: V)
        requires
            old(self).wf(),
            key >= old(self).top_spec(),
            old(self).len_spec() < usize::MAX,
        ensures
            final(self).wf(),
            final(self)@ == old(self)@.insert((key, value)),
            final(self).top_spec() == old(self).top_spec(),
    {
        let d = radix_distance(key, self.top);
        self.buckets[d].push((key, value));
        self.len += 1;
        proof {
            lemma_content_insert(old(self).buckets@, self.buckets@, 65, d as int, (key, value));
            assert forall|i: int| 0 <= i < 65 implies #[trigger] self.bucket_rule(i) by {
                assert(old(self).bucket_rule(i));
            }
        }
    }

    /// Gets the smallest element from the heap: `None` when the heap is empty, else a pair
    /// whose key is minimal. The floor moves up to the key that was popped.
    pub fn pop(&mut self) -> (r: Option<(Weight, V)>)
        requires
            old(self).wf(),
        ensures
            final(self).wf(),
            match r {
                None => {
                    &&& old(self)@.len() == 0
                    &&& final(self)@ == old(self)@
                    &&& final(self).top_spec() == old(self).top_spec()
                },
                Some(e) => {
                    &&& pop_step(old(self)@, e, final(self)@)
                    &&& final(self).top_spec() == e.0
                    &&& e.0 >= old(self).top_spec()
                },
            },
    {
        if self.buckets[0].len() == 0 {
            self.update();
        }
        let ghost mid = *self;
        let r = self.buckets[0].pop();
        match r {
            None => {
                proof {
                    lemma_content_same(mid.buckets@, self.buckets@, 65);
                    assert forall|i: int| 0 <= i < 65 implies #[trigger] self.bucket_rule(i) by {
                        assert(mid.bucket_rule(i));
                    }
                }
            },
            Some(e) => {
                proof {
                    assert(mid.buckets@[0]@ =~= self.buckets@[0]@.push(e));
                    lemma_content_insert(self.buckets@, mid.buckets@, 65, 0, e);
                    assert(mid@.count(e) > 0);
                    assert(mid@.len() > 0);
                }
                self.len -= 1;
                proof {
                    assert(mid@.insert(e).remove(e) =~= mid@);
                    assert(self@.insert(e).remove(e) =~= self@);
                    assert forall|i: int| 0 <= i < 65 implies #[trigger] self.bucket_rule(i) by {
                        assert(mid.bucket_rule(i));
                    }
                    assert(mid.bucket_rule(0));
                    assert(mid.buckets@[0]@[mid.buckets@[0]@.len() - 1] == e);
                    lemma_radix_distance_bounds(e.0, mid.top);
                    mid.lemma_floor();
                }
            },
        }
        r
    }

    /// Moves the floor to the smallest key and refills the buckets below the one that held it.
    fn update(&mut self)
        requires
            old(self).wf(),
            old(self).buckets@[0]@.len() == 0,
        ensures
            final(self).wf(),
            final(self)@ == old(self)@,
            final(self).top >= old(self).top,
            old(self)@.len() == 0 ==> final(self).top == old(self).top,
            final(self).buckets@[0]@.len() == 0 ==> final(self)@.len() == 0,
    {
        broadcast use vstd::seq_lib::group_to_multiset_ensures;

        let mut index: usize = 0;
        while index < 65 && self.buckets[index].len() == 0
            invariant
                index <= 65,
                *self == *old(self),
                forall|j: int| 0 <= j < index ==> (#[trigger] self.buckets@[j])@.len() == 0,
            decreases 65 - index,
        {
            index += 1;
        }
        if index == 65 {
            proof {
                lemma_content_empty(self.buckets@, 65);
            }
            return ;
        }
        assert(index > 0);
        assert(self.bucket_rule(index as int));

        let n = self.buckets[index].len();
        let mut min: Weight = self.buckets[index][0].0;
        let mut at: usize = 0;
        let mut j: usize = 1;
        while j < n
            invariant
                1 <= j <= n,
                0 < index < 65,
                n == self.buckets@[index as int]@.len(),
                *self == *old(self),
                at < j,
                min == self.buckets@[index as int]@[at as int].0,
                forall|k: int| 0 <= k < j ==> min <= (#[trigger] self.buckets@[index as int]@[k]).0,
            decreases n - j,
        {
            if self.buckets[index][j].0 < min {
                min = self.buckets[index][j].0;
                at = j;
            }
            j += 1;
        }

        let mut items: Bucket<V> = Vec::new();
        core::mem::swap(&mut items, &mut self.buckets[index]);
        self.top = min;

        let ghost base = buckets_content(self.buckets@, 65);
        proof {
            assert(items@ == old(self).buckets@[index as int]@);
            lemma_content_take_out(old(self).buckets@, self.buckets@, 65, index as int);
            assert forall|i: int| 0 <= i < 65 implies #[trigger] self.bucket_rule(i) by {
                assert(old(self).bucket_rule(i));
                if i > index {
                    assert forall|k: int| 0 <= k < self.buckets@[i]@.len() implies {
                        &&& (#[trigger] self.buckets@[i]@[k]).0 >= self.top
                        &&& radix_distance_spec(self.buckets@[i]@[k].0, self.top) == i
                    } by {
                        let b = self.buckets@[i]@[k].0;
                        lemma_lower_bucket_smaller(min, b, old(self).top);
                        lemma_higher_bucket_stays(b, min, old(self).top);
                    }
                }
            }
            assert(items@.take(0) =~= Seq::<(Weight, V)>::empty());
            assert(base.add(items@.take(0).to_multiset()) =~= base);
        }

        let mut j: usize = 0;
        while j < n
            invariant
                j <= n,
                0 < index < 65,
                n == items@.len(),
                at < n,
                items@ == old(self).buckets@[index as int]@,
                old(self).bucket_rule(index as int),
                old(self).top >= 0,
                self.top == min,
                min >= old(self).top,
                min == items@[at as int].0,
                forall|k: int| 0 <= k < n ==> min <= (#[trigger] items@[k]).0,
                self.len == old(self).len,
                forall|i: int| 0 <= i < 65 ==> #[trigger] self.bucket_rule(i),
                buckets_content(self.buckets@, 65) =~= base.add(items@.take(j as int).to_multiset()),
                old(self)@ =~= base.add(items@.to_multiset()),
                j > at ==> self.buckets@[0]@.len() > 0,
            decreases n - j,
        {
            let (key, value) = items[j];
            proof {
                lemma_same_bucket_closer(key, min, old(self).top);
                lemma_radix_distance_bounds(min, min);
            }
            let d = radix_distance(key, self.top);
            let ghost pre = *self;
            self.buckets[d].push((key, value));
            proof {
                lemma_content_insert(pre.buckets@, self.buckets@, 65, d as int, (key, value));
                assert(items@.take(j as int + 1) =~= items@.take(j as int).push((key, value)));
                vstd::seq_lib::to_multiset_build(items@.take(j as int), (key, value));
                assert(base.add(items@.take(j as int).to_multiset()).insert((key, value))
                    =~= base.add(items@.take(j as int + 1).to_multiset()));
                assert forall|i: int| 0 <= i < 65 implies #[trigger] self.bucket_rule(i) by {
                    assert(pre.bucket_rule(i));
                }
            }
            j += 1;
        }
        proof {
            assert(items@.take(n as int) =~= items@);
            if self.buckets@[0]@.len() > 0 {
            }
        }
    }

    /// Returns the current floor of the heap: no key that is pushed later may lie below it.
    pub fn top(&self) -> (r: Weight)
        ensures
            r == self.top_spec(),
    {
        self.top
    }

    /// Returns the number of pairs on the heap.
    pub fn len(&self) -> (r: usize)
        ensures
            r == self.len_spec(),
    {
        self.len
    }

    /// Returns *true* if there are no items on the heap.
    pub fn is_empty(&self) -> (r: bool)
        requires
            self.wf(),
        ensures
            r == (self@.len() == 0),
    {
        self.len == 0
    }
}

} // verus!
