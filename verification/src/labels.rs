//! A list of labels in which each can be found again quickly.
use std::collections::HashMap;
use vstd::prelude::*;

use crate::pattern::texts;
use crate::text::{same_text, utf8};

verus! {

/// A number that spreads byte strings well (FNV-1a).
pub open spec fn fingerprint(s: Seq<u8>) -> u64
    decreases s.len(),
{
    if s.len() == 0 {
        0xcbf29ce484222325
    } else {
        (fingerprint(s.drop_last()) ^ (s.last() as u64)).wrapping_mul(0x100000001b3)
    }
}

fn fingerprint_of(s: &str) -> (r: u64)
    ensures
        r == fingerprint(utf8(s@)),
{
    let bytes = s.as_bytes();
    let mut h: u64 = 0xcbf29ce484222325;
    let mut i: usize = 0;
    assert(bytes@.take(0) =~= seq![]);
    while i < bytes.len()
        invariant
            i <= bytes@.len(),
            h == fingerprint(bytes@.take(i as int)),
        decreases bytes.len() - i,
    {
        h = (h ^ (bytes[i] as u64)).wrapping_mul(0x100000001b3);
        i += 1;
        assert(bytes@.take(i as int).drop_last() =~= bytes@.take(i - 1));
    }
    assert(bytes@.take(i as int) =~= bytes@);
    h
}

/// A list of labels, with an index over their fingerprints.
pub struct LabelTable {
    labels: Vec<String>,
    buckets: HashMap<u64, Vec<usize>>,
}

spec fn indexed(labels: Seq<String>, buckets: Map<u64, Vec<usize>>) -> bool {
    &&& labels.len() <= usize::MAX
    &&& forall|i: int|
        0 <= i < labels.len() ==> buckets.contains_key(
            fingerprint(utf8((#[trigger] labels[i])@)),
        ) && buckets[fingerprint(utf8(labels[i]@))]@.contains(i as usize)
    &&& forall|h: u64, k: int|
        buckets.contains_key(h) && 0 <= k < buckets[h]@.len() ==> #[trigger] buckets[h]@[k]
            < labels.len()
}

proof fn push_keeps_index(
    labels: Seq<String>,
    buckets: Map<u64, Vec<usize>>,
    label: String,
    bucket: Vec<usize>,
)
    requires
        indexed(labels, buckets),
        labels.len() < usize::MAX,
        ({
            let h = fingerprint(utf8(label@));
            let before = if buckets.contains_key(h) {
                buckets[h]@
            } else {
                seq![]
            };
            bucket@ == before.push(labels.len() as usize)
        }),
    ensures
        indexed(labels.push(label), buckets.insert(fingerprint(utf8(label@)), bucket)),
{
    let h = fingerprint(utf8(label@));
    let before = if buckets.contains_key(h) {
        buckets[h]@
    } else {
        seq![]
    };
    let l = labels.push(label);
    let b = buckets.insert(h, bucket);
    assert(bucket@[before.len() as int] == labels.len() as usize);
    assert forall|i: int| 0 <= i < l.len() implies b.contains_key(
        fingerprint(utf8((#[trigger] l[i])@)),
    ) && b[fingerprint(utf8(l[i]@))]@.contains(i as usize) by {
        if i < labels.len() {
            assert(l[i] == labels[i]);
            let g = fingerprint(utf8(labels[i]@));
            if g == h {
                assert(before.contains(i as usize));
                let j = choose|j: int| 0 <= j < before.len() && before[j] == i as usize;
                assert(bucket@[j] == i as usize);
            }
        }
    }
    assert forall|g: u64, k: int| b.contains_key(g) && 0 <= k < b[g]@.len() implies #[trigger] b[g]@[k]
        < l.len() by {
        if g != h {
            assert(buckets[g]@[k] < labels.len());
        } else if k < before.len() {
            assert(buckets[h]@[k] < labels.len());
        }
    }
}

impl View for LabelTable {
    type V = Seq<Seq<char>>;

    closed spec fn view(&self) -> Seq<Seq<char>> {
        texts(self.labels@)
    }
}

impl LabelTable {
    /// The index leads to every label, and to labels alone.
    pub closed spec fn wf(self) -> bool {
        indexed(self.labels@, self.buckets@)
    }

    /// A list without labels.
    pub fn new() -> (r: Self)
        ensures
            r.wf(),
            r@ == Seq::<Seq<char>>::empty(),
    {
        broadcast use vstd::std_specs::hash::group_hash_axioms;

        let r = LabelTable { labels: Vec::new(), buckets: HashMap::new() };
        assert(r@ =~= Seq::empty());
        r
    }

    /// The number of labels.
    pub fn len(&self) -> (n: usize)
        ensures
            n == self@.len(),
    {
        self.labels.len()
    }

    /// The label at a place of the list.
    pub fn get(&self, i: usize) -> (r: &str)
        requires
            i < self@.len(),
        ensures
            r@ == self@[i as int],
    {
        self.labels[i].as_str()
    }

    /// Where a label stands in the list.
    pub fn find(&self, label: &str) -> (r: Option<usize>)
        requires
            self.wf(),
        ensures
            match r {
                Some(i) => i < self@.len() && self@[i as int] == label@,
                None => !self@.contains(label@),
            },
    {
        broadcast use vstd::std_specs::hash::group_hash_axioms;

        let h: u64 = fingerprint_of(label);
        match self.buckets.get(&h) {
            Some(bucket) => {
                let mut k: usize = 0;
                while k < bucket.len()
                    invariant
                        self.wf(),
                        self.buckets@.contains_key(h),
                        *bucket == self.buckets@[h],
                        k <= bucket@.len(),
                        forall|j: int|
                            0 <= j < k ==> self.labels@[(#[trigger] bucket@[j]) as int]@ != label@,
                    decreases bucket.len() - k,
                {
                    let i: usize = bucket[k];
                    assert(self.buckets@[h]@[k as int] < self.labels@.len());
                    if same_text(self.labels[i].as_str(), label) {
                        return Some(i);
                    }
                    k += 1;
                }
                proof {
                    if self@.contains(label@) {
                        let i = choose|i: int| 0 <= i < self@.len() && self@[i] == label@;
                        assert(self.labels@[i]@ == label@);
                        assert(self.buckets@[fingerprint(utf8(self.labels@[i]@))]@.contains(
                            i as usize,
                        ));
                        let j = choose|j: int| 0 <= j < bucket@.len() && bucket@[j] == i as usize;
                        assert(self.labels@[bucket@[j] as int]@ != label@);
                    }
                }
                None
            },
            None => {
                proof {
                    if self@.contains(label@) {
                        let i = choose|i: int| 0 <= i < self@.len() && self@[i] == label@;
                        assert(self.labels@[i]@ == label@);
                        assert(self.buckets@.contains_key(fingerprint(utf8(self.labels@[i]@))));
                    }
                }
                None
            },
        }
    }

    /// Put a label behind the others.
    pub fn push(&mut self, label: &str)
        requires
            old(self).wf(),
        ensures
            final(self).wf(),
            final(self)@ == old(self)@.push(label@),
    {
        broadcast use vstd::std_specs::hash::group_hash_axioms;

        let h: u64 = fingerprint_of(label);
        let at: usize = self.labels.len();
        let owned = label.to_owned();
        self.labels.push(owned);
        let count: usize = self.labels.len();
        assert(count == at + 1);
        let mut bucket: Vec<usize> = match self.buckets.remove(&h) {
            Some(b) => b,
            None => Vec::new(),
        };
        bucket.push(at);
        proof {
            assert(old(self).buckets@.remove(h).insert(h, bucket) =~= old(self).buckets@.insert(
                h,
                bucket,
            ));
            push_keeps_index(old(self).labels@, old(self).buckets@, owned, bucket);
        }
        self.buckets.insert(h, bucket);
        assert(self@ =~= old(self)@.push(label@));
    }
}

} // verus!
